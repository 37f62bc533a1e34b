//! Canonicalizer: rewrite a raw tree into star-normal form.
//!
//! Two cooperating rewrites, specified by `norm_t` and `ss_t` and computed by
//! `ssnf` and `ss`.  The shallow pass `norm_t` normalizes children in place:
//! it flattens alternation into alternation, re-sorts alternation branches by
//! their canonical text, and recomputes nullability.  The deep pass `ss_t`
//! applies to a repetition's body and removes every way of matching the
//! empty word through sequencing: a nullable concatenation under a star is
//! re-expressed as the union of its (simplified) factors, and a repetition
//! directly under a repetition collapses into one.
use crate::parser::alt_branches;
use crate::render::{lex_leq, lex_leq_exec, render, render_t};
use crate::tree::{
    all_null, flags_all, flags_ok, lemma_flags_all_concat, lemma_view_all_concat,
    lemma_view_all_subrange, size_all, size_t, view_all, view_rx, wf_t, Regex, Tree,
};
use vstd::prelude::*;

verus! {

broadcast use {
    vstd::seq::group_seq_axioms,
    vstd::std_specs::vec::group_vec_axioms,
    crate::tree::lemma_view_all_index,
    crate::tree::lemma_view_all_len,
    crate::tree::lemma_view_all_push,
    crate::tree::lemma_flags_all_index,
    crate::tree::lemma_flags_all_push,
    crate::tree::lemma_flags_all_forall,
};

/// The sort order of alternation branches: by canonical rendered text.
pub open spec fn key_leq(a: Tree, b: Tree) -> bool {
    lex_leq(render_t(a), render_t(b))
}

/// Insert `t` into `s` after every element whose key is at or before `t`'s:
/// stable insertion.
pub open spec fn insert_sorted(t: Tree, s: Seq<Tree>) -> Seq<Tree>
    decreases s.len(),
{
    if s.len() == 0 {
        seq![t]
    } else if key_leq(s[0], t) {
        seq![s[0]] + insert_sorted(t, s.subrange(1, s.len() as int))
    } else {
        seq![t] + s
    }
}

/// Stable insertion sort of a run of branches by canonical text.
pub open spec fn sort_trees(s: Seq<Tree>) -> Seq<Tree>
    decreases s.len(),
{
    if s.len() == 0 {
        Seq::empty()
    } else {
        insert_sorted(s.last(), sort_trees(s.drop_last()))
    }
}

/// Shallow normalization.
pub open spec fn norm_t(t: Tree) -> Tree
    decreases size_t(t), 0nat, 0nat,
{
    match t {
        Tree::Lit { .. } => t,
        Tree::Alt { branches } => Tree::Alt { branches: sort_trees(flat_norm(branches)) },
        Tree::Cat { factors, paren } => Tree::Cat { factors: norm_seq(factors), paren },
        Tree::Star { body } => Tree::Star { body: Box::new(ss_t(*body)) },
    }
}

/// Star simplification, applied to a repetition's body.
pub open spec fn ss_t(t: Tree) -> Tree
    decreases size_t(t), 0nat, 0nat,
{
    match t {
        Tree::Lit { .. } => t,
        Tree::Alt { branches } => Tree::Alt { branches: sort_trees(flat_ss(branches)) },
        Tree::Cat { factors, paren } => if all_null(factors) {
            Tree::Alt { branches: sort_trees(flat_ss(factors)) }
        } else {
            Tree::Cat { factors: norm_seq(factors), paren }
        },
        Tree::Star { body } => ss_t(*body),
    }
}

/// Each child normalized shallowly, in place.
pub open spec fn norm_seq(s: Seq<Tree>) -> Seq<Tree>
    decreases size_all(s), 1nat, s.len(),
{
    if s.len() == 0 {
        Seq::empty()
    } else {
        seq![norm_t(s[0])] + norm_seq(s.subrange(1, s.len() as int))
    }
}

/// Each child normalized shallowly, a child that became an alternation
/// spliced into the run.
pub open spec fn flat_norm(s: Seq<Tree>) -> Seq<Tree>
    decreases size_all(s), 1nat, s.len(),
{
    if s.len() == 0 {
        Seq::empty()
    } else {
        alt_branches(norm_t(s[0])) + flat_norm(s.subrange(1, s.len() as int))
    }
}

/// Each child star-simplified, a child that became an alternation spliced
/// into the run.
pub open spec fn flat_ss(s: Seq<Tree>) -> Seq<Tree>
    decreases size_all(s), 1nat, s.len(),
{
    if s.len() == 0 {
        Seq::empty()
    } else {
        alt_branches(ss_t(s[0])) + flat_ss(s.subrange(1, s.len() as int))
    }
}

/// Where the scan of `insert_sorted` stops, insertion is at that index.
pub proof fn lemma_insert_at(t: Tree, s: Seq<Tree>, j: int)
    requires
        0 <= j <= s.len(),
        forall|i: int| 0 <= i < j ==> key_leq(#[trigger] s[i], t),
        j < s.len() ==> !key_leq(s[j], t),
    ensures
        insert_sorted(t, s) == s.insert(j, t),
    decreases s.len(),
{
    if s.len() == 0 {
        assert(insert_sorted(t, s) =~= s.insert(0, t));
    } else if j == 0 {
        assert(insert_sorted(t, s) =~= s.insert(0, t));
    } else {
        let tail = s.subrange(1, s.len() as int);
        assert(forall|i: int| 0 <= i < j - 1 ==> #[trigger] tail[i] == s[i + 1]);
        assert(j - 1 < tail.len() ==> tail[j - 1] == s[j]);
        lemma_insert_at(t, tail, j - 1);
        assert(insert_sorted(t, s) == seq![s[0]] + tail.insert(j - 1, t));
        assert(insert_sorted(t, s) =~= s.insert(j, t));
    }
}

/// Insert one tree at its sorted position among the branches gathered so
/// far.
fn insert_exec(out: &mut Vec<Regex>, x: Regex)
    requires
        flags_all(old(out)@),
        flags_ok(x),
    ensures
        view_all(final(out)@) == insert_sorted(view_rx(x), view_all(old(out)@)),
        flags_all(final(out)@),
{
    let kx = render(&x);
    let mut j: usize = 0;
    loop
        invariant_except_break
            0 <= j <= out@.len(),
            out@ == old(out)@,
            flags_all(out@),
            flags_ok(x),
            kx@ == render_t(view_rx(x)),
            forall|i: int| 0 <= i < j ==> key_leq(#[trigger] view_all(out@)[i], view_rx(x)),
        ensures
            0 <= j <= out@.len(),
            out@ == old(out)@,
            forall|i: int| 0 <= i < j ==> key_leq(#[trigger] view_all(out@)[i], view_rx(x)),
            j < out@.len() ==> !key_leq(view_all(out@)[j as int], view_rx(x)),
        decreases out@.len() - j,
    {
        if j >= out.len() {
            break ;
        }
        let kj = render(&out[j]);
        if !lex_leq_exec(&kj, &kx) {
            break ;
        }
        j = j + 1;
    }
    let ghost o0 = out@;
    out.insert(j, x);
    proof {
        lemma_insert_at(view_rx(x), view_all(o0), j as int);
        assert forall|i: int| 0 <= i < out@.len() implies view_all(out@)[i] == view_all(
            o0,
        ).insert(j as int, view_rx(x))[i] by {
            if i < j {
                assert(out@[i] == o0[i]);
            } else if i == j {
                assert(out@[i] == x);
            } else {
                assert(out@[i] == o0[i - 1]);
            }
        }
        assert(view_all(out@) =~= view_all(o0).insert(j as int, view_rx(x)));
        assert forall|i: int| 0 <= i < out@.len() implies flags_ok(#[trigger] out@[i]) by {
            if i < j {
                assert(out@[i] == o0[i]);
            } else if i == j {
                assert(out@[i] == x);
            } else {
                assert(out@[i] == o0[i - 1]);
            }
        }
    }
}

/// Sort a run of branches by canonical text; stable, no duplicates removed.
fn sort_exec(v: Vec<Regex>) -> (r: Vec<Regex>)
    requires
        flags_all(v@),
    ensures
        view_all(r@) == sort_trees(view_all(v@)),
        flags_all(r@),
{
    let ghost v0 = v@;
    let mut v = v;
    let mut out: Vec<Regex> = Vec::new();
    let mut k: usize = 0;
    let n0 = v.len();
    proof {
        assert(v0.len() == n0);
        assert(v0.skip(0) =~= v0);
        assert(v0.subrange(0, 0) =~= Seq::<Regex>::empty());
        assert(view_all(v@.subrange(0, 0)) =~= Seq::<Tree>::empty());
    }
    loop
        invariant_except_break
            0 <= k <= v0.len(),
            v0.len() <= usize::MAX,
            v@ == v0.skip(k as int),
            flags_all(v0),
            flags_all(out@),
            view_all(out@) == sort_trees(view_all(v0.subrange(0, k as int))),
        ensures
            flags_all(out@),
            view_all(out@) == sort_trees(view_all(v0)),
        decreases v0.len() - k,
    {
        if v.len() == 0 {
            proof {
                assert(v0.subrange(0, k as int) =~= v0);
            }
            break ;
        }
        let x = v.remove(0);
        proof {
            assert(x == v0[k as int]);
            assert(v@ =~= v0.skip(k as int + 1));
            crate::tree::lemma_flags_all_index(v0, k as int);
        }
        insert_exec(&mut out, x);
        proof {
            let pre = v0.subrange(0, k as int);
            let post = v0.subrange(0, k as int + 1);
            assert(post.drop_last() =~= pre);
            assert(post.last() == v0[k as int]);
            lemma_view_all_subrange(v0, 0, k as int);
            lemma_view_all_subrange(v0, 0, k as int + 1);
            assert(view_all(post).drop_last() =~= view_all(pre));
            assert(view_all(post).last() == view_rx(v0[k as int]));
            assert(sort_trees(view_all(post)) == insert_sorted(
                view_rx(v0[k as int]),
                sort_trees(view_all(pre)),
            ));
        }
        k = k + 1;
    }
    out
}

/// Shallow-normalize each element of a run of factors.
fn norm_all_exec(v: Vec<Regex>) -> (r: Vec<Regex>)
    requires
        flags_all(v@),
    ensures
        view_all(r@) == norm_seq(view_all(v@)),
        flags_all(r@),
        r@.len() == v@.len(),
    decreases size_all(view_all(v@)), 2nat,
{
    let ghost v0 = v@;
    let mut v = v;
    if v.len() == 0 {
        let out: Vec<Regex> = Vec::new();
        proof {
            assert(view_all(v0) =~= Seq::<Tree>::empty());
            assert(view_all(out@) =~= Seq::<Tree>::empty());
            assert(norm_seq(view_all(v0)) =~= Seq::<Tree>::empty());
        }
        return out;
    }
    let x = v.remove(0);
    proof {
        assert(x == v0[0]);
        assert(v@ =~= v0.subrange(1, v0.len() as int));
        assert(view_all(v0) == seq![view_rx(x)] + view_all(v@));
        assert(view_all(v0).subrange(1, view_all(v0).len() as int) =~= view_all(v@));
        assert(size_all(view_all(v0)) == size_t(view_rx(x)) + size_all(view_all(v@)));
        crate::tree::lemma_size_t_pos(view_rx(x));
    }
    let n = ssnf(x);
    let mut rest = norm_all_exec(v);
    let mut out: Vec<Regex> = Vec::new();
    out.push(n);
    let ghost o1 = out@;
    let ghost r1 = rest@;
    out.append(&mut rest);
    proof {
        lemma_view_all_concat(o1, r1);
        lemma_flags_all_concat(o1, r1);
        assert(norm_seq(view_all(v0)) == seq![norm_t(view_rx(x))] + norm_seq(
            view_all(v0).subrange(1, view_all(v0).len() as int),
        ));
        assert(view_all(out@) =~= norm_seq(view_all(v0)));
    }
    out
}

/// Shallow-normalize each element, splicing any that became an alternation.
fn flatten_norm_exec(v: Vec<Regex>) -> (r: Vec<Regex>)
    requires
        flags_all(v@),
    ensures
        view_all(r@) == flat_norm(view_all(v@)),
        flags_all(r@),
    decreases size_all(view_all(v@)), 2nat,
{
    let ghost v0 = v@;
    let mut v = v;
    if v.len() == 0 {
        let out: Vec<Regex> = Vec::new();
        proof {
            assert(view_all(v0) =~= Seq::<Tree>::empty());
            assert(view_all(out@) =~= Seq::<Tree>::empty());
            assert(flat_norm(view_all(v0)) =~= Seq::<Tree>::empty());
        }
        return out;
    }
    let x = v.remove(0);
    proof {
        assert(x == v0[0]);
        assert(v@ =~= v0.subrange(1, v0.len() as int));
        assert(view_all(v0) == seq![view_rx(x)] + view_all(v@));
        assert(view_all(v0).subrange(1, view_all(v0).len() as int) =~= view_all(v@));
        assert(size_all(view_all(v0)) == size_t(view_rx(x)) + size_all(view_all(v@)));
        crate::tree::lemma_size_t_pos(view_rx(x));
    }
    let n = ssnf(x);
    let mut rest = flatten_norm_exec(v);
    let ghost nv = n@;
    let mut out: Vec<Regex> = Vec::new();
    match n {
        Regex::Alternation { branches, nullable: _ } => {
            out = branches;
            proof {
                assert(view_all(out@) == alt_branches(nv));
            }
        },
        n2 => {
            out.push(n2);
            proof {
                assert(view_all(out@) =~= alt_branches(nv));
            }
        },
    }
    let ghost o1 = out@;
    let ghost r1 = rest@;
    out.append(&mut rest);
    proof {
        lemma_view_all_concat(o1, r1);
        lemma_flags_all_concat(o1, r1);
        assert(flat_norm(view_all(v0)) == alt_branches(norm_t(view_rx(x))) + flat_norm(
            view_all(v0).subrange(1, view_all(v0).len() as int),
        ));
        assert(view_all(out@) =~= flat_norm(view_all(v0)));
    }
    out
}

/// Star-simplify each element, splicing any that became an alternation.
fn flatten_ss_exec(v: Vec<Regex>) -> (r: Vec<Regex>)
    requires
        flags_all(v@),
    ensures
        view_all(r@) == flat_ss(view_all(v@)),
        flags_all(r@),
    decreases size_all(view_all(v@)), 2nat,
{
    let ghost v0 = v@;
    let mut v = v;
    if v.len() == 0 {
        let out: Vec<Regex> = Vec::new();
        proof {
            assert(view_all(v0) =~= Seq::<Tree>::empty());
            assert(view_all(out@) =~= Seq::<Tree>::empty());
            assert(flat_ss(view_all(v0)) =~= Seq::<Tree>::empty());
        }
        return out;
    }
    let x = v.remove(0);
    proof {
        assert(x == v0[0]);
        assert(v@ =~= v0.subrange(1, v0.len() as int));
        assert(view_all(v0) == seq![view_rx(x)] + view_all(v@));
        assert(view_all(v0).subrange(1, view_all(v0).len() as int) =~= view_all(v@));
        assert(size_all(view_all(v0)) == size_t(view_rx(x)) + size_all(view_all(v@)));
        crate::tree::lemma_size_t_pos(view_rx(x));
    }
    let n = ss(x);
    let mut rest = flatten_ss_exec(v);
    let ghost nv = n@;
    let mut out: Vec<Regex> = Vec::new();
    match n {
        Regex::Alternation { branches, nullable: _ } => {
            out = branches;
            proof {
                assert(view_all(out@) == alt_branches(nv));
            }
        },
        n2 => {
            out.push(n2);
            proof {
                assert(view_all(out@) =~= alt_branches(nv));
            }
        },
    }
    let ghost o1 = out@;
    let ghost r1 = rest@;
    out.append(&mut rest);
    proof {
        lemma_view_all_concat(o1, r1);
        lemma_flags_all_concat(o1, r1);
        assert(flat_ss(view_all(v0)) == alt_branches(ss_t(view_rx(x))) + flat_ss(
            view_all(v0).subrange(1, view_all(v0).len() as int),
        ));
        assert(view_all(out@) =~= flat_ss(view_all(v0)));
    }
    out
}

/// Shallow normalization of a tree: exactly `norm_t` of its model, with the
/// nullability flags recomputed for the rewritten nodes.
pub fn ssnf(arg: Regex) -> (r: Regex)
    requires
        flags_ok(arg),
    ensures
        r@ == norm_t(arg@),
        flags_ok(r),
        wf_t(arg@) ==> wf_t(r@),
    decreases size_t(arg@), 1nat,
{
    let ghost t0 = arg@;
    proof {
        if wf_t(t0) {
            crate::laws::lemma_norm_wf(t0);
        }
    }
    match arg {
        Regex::Literal { text, parenthesized } => Regex::Literal { text, parenthesized },
        Regex::Alternation { branches, nullable: _ } => {
            let flat = flatten_norm_exec(branches);
            let sorted = sort_exec(flat);
            let nb = crate::parser::vec_any_nullable(&sorted);
            Regex::Alternation { branches: sorted, nullable: nb }
        },
        Regex::Concatenation { factors, nullable: _, parenthesized } => {
            let nf = norm_all_exec(factors);
            let nb = crate::parser::vec_all_nullable(&nf);
            Regex::Concatenation { factors: nf, nullable: nb, parenthesized }
        },
        Regex::Repetition { body } => {
            let b = ss(*body);
            Regex::Repetition { body: Box::new(b) }
        },
    }
}

/// Star simplification of a tree: exactly `ss_t` of its model, with the
/// nullability flags recomputed for the rewritten nodes.
pub fn ss(arg: Regex) -> (r: Regex)
    requires
        flags_ok(arg),
    ensures
        r@ == ss_t(arg@),
        flags_ok(r),
        wf_t(arg@) ==> wf_t(r@) && !(r@ matches Tree::Star { .. }),
    decreases size_t(arg@), 0nat,
{
    let ghost t0 = arg@;
    proof {
        if wf_t(t0) {
            crate::laws::lemma_ss_wf(t0);
        }
    }
    match arg {
        Regex::Literal { text, parenthesized } => Regex::Literal { text, parenthesized },
        Regex::Alternation { branches, nullable: _ } => {
            let flat = flatten_ss_exec(branches);
            let sorted = sort_exec(flat);
            let nb = crate::parser::vec_any_nullable(&sorted);
            Regex::Alternation { branches: sorted, nullable: nb }
        },
        Regex::Concatenation { factors, nullable, parenthesized } => {
            if nullable {
                let flat = flatten_ss_exec(factors);
                let sorted = sort_exec(flat);
                let nb = crate::parser::vec_any_nullable(&sorted);
                Regex::Alternation { branches: sorted, nullable: nb }
            } else {
                let nf = norm_all_exec(factors);
                let nb = crate::parser::vec_all_nullable(&nf);
                Regex::Concatenation { factors: nf, nullable: nb, parenthesized }
            }
        },
        Regex::Repetition { body } => ss(*body),
    }
}

} // verus!
