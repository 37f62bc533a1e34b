//! Renderer: serialize a tree back to its canonical text.
//!
//! The rendering is a pure function of the tree's shape.  Parentheses appear
//! exactly where the recorded parenthesization flag or grammatical necessity
//! requires them: an alternation used as a factor, and a repetition body that
//! is a multi-character literal, an alternation, or a concatenation.  The
//! rendered text doubles as the sort key that orders alternation branches
//! during canonicalization, through the total lexicographic order `lex_leq`.
use crate::tree::{lemma_size_all_elem, size_all, size_t, view_all, view_rx, Regex, Tree};
use vstd::prelude::*;

verus! {

broadcast use {
    vstd::seq::group_seq_axioms,
    vstd::std_specs::vec::group_vec_axioms,
    vstd::utf8::char_u32_cast,
    crate::tree::lemma_view_all_index,
    crate::tree::lemma_view_all_len,
};

/// `s` wrapped in parentheses.
pub open spec fn parens(s: Seq<char>) -> Seq<char> {
    seq!['('] + s + seq![')']
}

/// The canonical text of a tree.
pub open spec fn render_t(t: Tree) -> Seq<char>
    decreases size_t(t), 1nat, 0nat,
{
    match t {
        Tree::Lit { text, paren } => if paren {
            parens(text)
        } else {
            text
        },
        Tree::Alt { branches } => render_branches(branches),
        Tree::Cat { factors, paren } => if paren {
            parens(render_factors(factors))
        } else {
            render_factors(factors)
        },
        Tree::Star { body } => render_star_body(*body) + seq!['*'],
    }
}

/// The text of a repetition's body: parenthesized where re-parsing would
/// otherwise split it (a multi-character literal, an alternation, an
/// un-parenthesized concatenation).
pub open spec fn render_star_body(t: Tree) -> Seq<char>
    decreases size_t(t), 2nat, 0nat,
{
    match t {
        Tree::Lit { text, paren } => if paren || text.len() <= 1 {
            render_t(t)
        } else {
            parens(text)
        },
        Tree::Alt { .. } => parens(render_t(t)),
        Tree::Cat { factors, paren } => if paren {
            render_t(t)
        } else {
            parens(render_t(t))
        },
        Tree::Star { .. } => render_t(t),
    }
}

/// The text of a factor inside a concatenation: an alternation needs
/// parentheses there, everything else renders as it is.
pub open spec fn render_factor(t: Tree) -> Seq<char>
    decreases size_t(t), 2nat, 0nat,
{
    match t {
        Tree::Alt { .. } => parens(render_t(t)),
        _ => render_t(t),
    }
}

/// The texts of an alternation's branches, joined by `|`.
pub open spec fn render_branches(s: Seq<Tree>) -> Seq<char>
    decreases size_all(s), 3nat, s.len(),
{
    if s.len() == 0 {
        Seq::empty()
    } else if s.len() == 1 {
        render_t(s[0])
    } else {
        render_t(s[0]) + seq!['|'] + render_branches(s.subrange(1, s.len() as int))
    }
}

/// The texts of a concatenation's factors, in order.
pub open spec fn render_factors(s: Seq<Tree>) -> Seq<char>
    decreases size_all(s), 3nat, s.len(),
{
    if s.len() == 0 {
        Seq::empty()
    } else {
        render_factor(s[0]) + render_factors(s.subrange(1, s.len() as int))
    }
}

pub proof fn lemma_render_branches_push(s: Seq<Tree>, t: Tree)
    ensures
        render_branches(s.push(t)) == if s.len() == 0 {
            render_t(t)
        } else {
            render_branches(s) + seq!['|'] + render_t(t)
        },
    decreases s.len(),
{
    let p = s.push(t);
    assert(p[0] == if s.len() == 0 {
        t
    } else {
        s[0]
    });
    if s.len() == 0 {
    } else {
        lemma_render_branches_push(s.subrange(1, s.len() as int), t);
        assert(p.subrange(1, p.len() as int) =~= s.subrange(1, s.len() as int).push(t));
        if s.len() == 1 {
            assert(s.subrange(1, 1) =~= Seq::<Tree>::empty());
            assert(render_branches(p) =~= render_branches(s) + seq!['|'] + render_t(t));
        } else {
            assert(render_branches(p) =~= render_branches(s) + seq!['|'] + render_t(t));
        }
    }
}

pub proof fn lemma_render_factors_push(s: Seq<Tree>, t: Tree)
    ensures
        render_factors(s.push(t)) == render_factors(s) + render_factor(t),
    decreases s.len(),
{
    reveal_with_fuel(render_factors, 3);
    let p = s.push(t);
    assert(p[0] == if s.len() == 0 {
        t
    } else {
        s[0]
    });
    if s.len() == 0 {
        assert(p.subrange(1, 1) =~= Seq::<Tree>::empty());
        assert(render_factors(p) =~= render_factors(s) + render_factor(t));
    } else {
        lemma_render_factors_push(s.subrange(1, s.len() as int), t);
        assert(p.subrange(1, p.len() as int) =~= s.subrange(1, s.len() as int).push(t));
        assert(render_factors(p) =~= render_factors(s) + render_factor(t));
    }
}

/// Total lexicographic order on texts, by character code; ties broken by
/// length, the shorter first.
pub open spec fn lex_leq(a: Seq<char>, b: Seq<char>) -> bool
    decreases a.len(),
{
    if a.len() == 0 {
        true
    } else if b.len() == 0 {
        false
    } else if a[0] != b[0] {
        (a[0] as u32) < (b[0] as u32)
    } else {
        lex_leq(a.subrange(1, a.len() as int), b.subrange(1, b.len() as int))
    }
}

/// `lex_leq` is total.
pub proof fn lemma_lex_total(a: Seq<char>, b: Seq<char>)
    ensures
        lex_leq(a, b) || lex_leq(b, a),
    decreases a.len(),
{
    if a.len() > 0 && b.len() > 0 {
        if a[0] == b[0] {
            lemma_lex_total(a.subrange(1, a.len() as int), b.subrange(1, b.len() as int));
        } else {
            vstd::utf8::char_u32_cast(a[0], a[0] as u32);
            vstd::utf8::char_u32_cast(b[0], b[0] as u32);
            assert((a[0] as u32) != (b[0] as u32));
        }
    }
}

/// `lex_leq` is transitive.
pub proof fn lemma_lex_trans(a: Seq<char>, b: Seq<char>, c: Seq<char>)
    requires
        lex_leq(a, b),
        lex_leq(b, c),
    ensures
        lex_leq(a, c),
    decreases a.len(),
{
    if a.len() > 0 && b.len() > 0 && c.len() > 0 {
        if a[0] == b[0] && b[0] == c[0] {
            lemma_lex_trans(
                a.subrange(1, a.len() as int),
                b.subrange(1, b.len() as int),
                c.subrange(1, c.len() as int),
            );
        }
    }
}

/// Append every character of `xs` to `out`.
fn push_all(out: &mut Vec<char>, xs: &Vec<char>)
    ensures
        final(out)@ == old(out)@ + xs@,
{
    let mut k: usize = 0;
    while k < xs.len()
        invariant
            0 <= k <= xs@.len(),
            out@ == old(out)@ + xs@.subrange(0, k as int),
        decreases xs@.len() - k,
    {
        out.push(xs[k]);
        proof {
            assert(xs@.subrange(0, k as int + 1) =~= xs@.subrange(0, k as int).push(xs@[k as int]));
            assert(out@ =~= old(out)@ + xs@.subrange(0, k as int + 1));
        }
        k = k + 1;
    }
    proof {
        assert(xs@.subrange(0, xs@.len() as int) =~= xs@);
    }
}

/// Append the canonical text of `t` to `out`.
fn render_into(t: &Regex, out: &mut Vec<char>)
    ensures
        final(out)@ == old(out)@ + render_t(t@),
    decreases size_t(t@), 1nat,
{
    match t {
        Regex::Literal { text, parenthesized } => {
            if *parenthesized {
                out.push('(');
            }
            push_all(out, text);
            if *parenthesized {
                out.push(')');
            }
            proof {
                if t@ matches Tree::Lit { text: tx, paren: true } {
                    assert(out@ =~= old(out)@ + parens(text@));
                }
            }
        },
        Regex::Alternation { branches, .. } => {
            let ghost bs = view_all(branches@);
            let mut k: usize = 0;
            while k < branches.len()
                invariant
                    0 <= k <= branches@.len(),
                    bs == view_all(branches@),
                    bs.len() == branches@.len(),
                    size_t(t@) == 1 + size_all(bs),
                    out@ == old(out)@ + render_branches(bs.subrange(0, k as int)),
                decreases branches@.len() - k,
            {
                if k > 0 {
                    out.push('|');
                }
                proof {
                    lemma_size_all_elem(bs, k as int);
                    assert(bs[k as int] == view_rx(branches@[k as int]));
                }
                render_into(&branches[k], out);
                proof {
                    assert(bs.subrange(0, k as int + 1) =~= bs.subrange(0, k as int).push(
                        bs[k as int],
                    ));
                    lemma_render_branches_push(bs.subrange(0, k as int), bs[k as int]);
                    assert(bs[k as int] == view_rx(branches@[k as int]));
                    assert(out@ =~= old(out)@ + render_branches(bs.subrange(0, k as int + 1)));
                }
                k = k + 1;
            }
            proof {
                assert(bs.subrange(0, bs.len() as int) =~= bs);
            }
        },
        Regex::Concatenation { factors, parenthesized, .. } => {
            if *parenthesized {
                out.push('(');
            }
            let ghost out0 = out@;
            let ghost fs = view_all(factors@);
            let mut k: usize = 0;
            while k < factors.len()
                invariant
                    0 <= k <= factors@.len(),
                    fs == view_all(factors@),
                    fs.len() == factors@.len(),
                    size_t(t@) >= 1 + size_all(fs),
                    out@ == out0 + render_factors(fs.subrange(0, k as int)),
                decreases factors@.len() - k,
            {
                proof {
                    lemma_size_all_elem(fs, k as int);
                    assert(fs[k as int] == view_rx(factors@[k as int]));
                }
                render_factor_into(&factors[k], out);
                proof {
                    assert(fs.subrange(0, k as int + 1) =~= fs.subrange(0, k as int).push(
                        fs[k as int],
                    ));
                    lemma_render_factors_push(fs.subrange(0, k as int), fs[k as int]);
                    assert(fs[k as int] == view_rx(factors@[k as int]));
                    assert(out@ =~= out0 + render_factors(fs.subrange(0, k as int + 1)));
                }
                k = k + 1;
            }
            if *parenthesized {
                out.push(')');
            }
            proof {
                assert(fs.subrange(0, fs.len() as int) =~= fs);
                if t@ matches Tree::Cat { paren: true, .. } {
                    assert(out@ =~= old(out)@ + parens(render_factors(fs)));
                }
            }
        },
        Regex::Repetition { body } => {
            render_star_body_into(body, out);
            out.push('*');
            proof {
                assert(out@ =~= old(out)@ + (render_star_body(body@) + seq!['*']));
            }
        },
    }
}

/// Append the text of a factor: an alternation inside a concatenation is
/// parenthesized.
fn render_factor_into(t: &Regex, out: &mut Vec<char>)
    ensures
        final(out)@ == old(out)@ + render_factor(t@),
    decreases size_t(t@), 2nat,
{
    match t {
        Regex::Alternation { .. } => {
            out.push('(');
            render_into(t, out);
            out.push(')');
            proof {
                assert(out@ =~= old(out)@ + parens(render_t(t@)));
            }
        },
        _ => {
            render_into(t, out);
        },
    }
}

/// Append the text of a repetition's body, parenthesized where re-parsing
/// would otherwise split it.
fn render_star_body_into(t: &Regex, out: &mut Vec<char>)
    ensures
        final(out)@ == old(out)@ + render_star_body(t@),
    decreases size_t(t@), 2nat,
{
    match t {
        Regex::Literal { text, parenthesized } => {
            if *parenthesized || text.len() <= 1 {
                render_into(t, out);
            } else {
                out.push('(');
                push_all(out, text);
                out.push(')');
                proof {
                    assert(out@ =~= old(out)@ + parens(text@));
                }
            }
        },
        Regex::Alternation { .. } => {
            out.push('(');
            render_into(t, out);
            out.push(')');
            proof {
                assert(out@ =~= old(out)@ + parens(render_t(t@)));
            }
        },
        Regex::Concatenation { parenthesized, .. } => {
            if *parenthesized {
                render_into(t, out);
            } else {
                out.push('(');
                render_into(t, out);
                out.push(')');
                proof {
                    assert(out@ =~= old(out)@ + parens(render_t(t@)));
                }
            }
        },
        Regex::Repetition { .. } => {
            render_into(t, out);
        },
    }
}

/// The canonical text of a tree, as the sequence of its characters.
pub fn render(t: &Regex) -> (out: Vec<char>)
    ensures
        out@ == render_t(t@),
{
    let mut out: Vec<char> = Vec::new();
    render_into(t, &mut out);
    proof {
        assert(Seq::<char>::empty() + render_t(t@) =~= render_t(t@));
    }
    out
}

/// Whether `a`'s text is at or before `b`'s in the total lexicographic
/// order.
pub(crate) fn lex_leq_exec(a: &Vec<char>, b: &Vec<char>) -> (r: bool)
    ensures
        r == lex_leq(a@, b@),
{
    let mut k: usize = 0;
    proof {
        assert(a@.skip(0) =~= a@);
        assert(b@.skip(0) =~= b@);
    }
    loop
        invariant_except_break
            0 <= k <= a@.len(),
            k <= b@.len(),
            lex_leq(a@, b@) == lex_leq(a@.skip(k as int), b@.skip(k as int)),
        ensures
            lex_leq(a@, b@) == lex_leq(a@.skip(k as int), b@.skip(k as int)),
            k <= a@.len() && k <= b@.len(),
            k >= a@.len() || k >= b@.len() || a@[k as int] != b@[k as int],
        decreases a@.len() - k,
    {
        if k >= a.len() || k >= b.len() {
            break ;
        }
        let ca = a[k];
        let cb = b[k];
        if ca != cb {
            break ;
        }
        proof {
            let sa = a@.skip(k as int);
            let sb = b@.skip(k as int);
            assert(sa[0] == a@[k as int]);
            assert(sb[0] == b@[k as int]);
            assert(sa.subrange(1, sa.len() as int) =~= a@.skip(k as int + 1));
            assert(sb.subrange(1, sb.len() as int) =~= b@.skip(k as int + 1));
        }
        k = k + 1;
    }
    proof {
        let sa = a@.skip(k as int);
        let sb = b@.skip(k as int);
        if k < a.len() && k < b.len() {
            assert(sa[0] == a@[k as int]);
            assert(sb[0] == b@[k as int]);
        }
    }
    if k >= a.len() {
        true
    } else if k >= b.len() {
        false
    } else {
        (a[k] as u32) < (b[k] as u32)
    }
}

} // verus!
