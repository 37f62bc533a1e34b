//! Recursive-descent parser for the pattern grammar
//!
//! ```text
//! Alternative := Unary ( '|' Unary )*
//! Unary       := Concat ( '*'+ Concat )*
//! Concat      := Factor+
//! Factor      := '(' Alternative ')'  |  LiteralRun
//! ```
//!
//! The structural characters are `(`, `)`, `|` and `*`; every other character
//! belongs to a literal run.  A postfix `*` attaches to the last factor of the
//! maximal concatenation parsed so far (a run of consecutive `*` collapses
//! into one repetition), which gives `*` a tighter binding than concatenation
//! and concatenation a tighter binding than `|`.
//!
//! The whole grammar is first written as a total specification-level function
//! of the input text (`sp_parse` and its helpers); the executable parser is
//! then proved to return exactly that function's value, with correct cached
//! nullability flags and a well-formed tree.
use crate::tree::{
    all_null, any_null, branch_ok, factor_ok, flags_all, flags_ok, lemma_all_null_push,
    lemma_any_null_concat, lemma_any_null_push, lemma_flags_all_concat, lemma_view_all_concat,
    lemma_view_all_subrange, view_all, view_rx, wf_branches, wf_factors, wf_t, Regex, Tree,
};
use vstd::prelude::*;
use vstd::string::StrSliceExecFns;

verus! {

broadcast use {
    vstd::seq::group_seq_axioms,
    vstd::std_specs::vec::group_vec_axioms,
    crate::tree::lemma_view_all_index,
    crate::tree::lemma_view_all_len,
    crate::tree::lemma_view_all_push,
    crate::tree::lemma_flags_all_index,
    crate::tree::lemma_flags_all_push,
    crate::tree::lemma_flags_all_forall,
    crate::tree::lemma_any_null_exists,
    crate::tree::lemma_all_null_forall,
    crate::tree::lemma_wf_branches_forall,
    crate::tree::lemma_wf_factors_forall,
};

/// A parse failure; `offset` counts the characters consumed before the
/// failure was noticed.
#[derive(Debug, PartialEq, Eq)]
pub enum ParseError {
    /// A required delimiter was missing: `expected` is the delimiter
    /// (`None` for end of input), `found` the character actually seen
    /// (`None` at end of input).
    UnexpectedToken { expected: Option<char>, found: Option<char>, offset: usize },
    /// A repetition or alternation operator had no operand to act on.
    EmptyOperand { offset: usize },
}

/// Wrap a tree in a repetition, unless it already is one: starring a starred
/// expression adds nothing.
pub open spec fn star_wrap(t: Tree) -> Tree {
    match t {
        Tree::Star { .. } => t,
        _ => Tree::Star { body: Box::new(t) },
    }
}

/// Reinterpret the last factor of a just-parsed concatenation as repeated; a
/// parenthesized group or a single factor is repeated as a whole.
pub open spec fn star_last(t: Tree) -> Tree {
    match t {
        Tree::Cat { factors, paren } => if paren {
            star_wrap(t)
        } else {
            Tree::Cat {
                factors: factors.update(factors.len() - 1, star_wrap(factors.last())),
                paren: false,
            }
        },
        _ => star_wrap(t),
    }
}

/// The factors a segment contributes to the concatenation being assembled:
/// an un-parenthesized concatenation is spliced, anything else is one factor.
pub open spec fn seg_factors(t: Tree) -> Seq<Tree> {
    match t {
        Tree::Cat { factors, paren } => if paren {
            seq![t]
        } else {
            factors
        },
        _ => seq![t],
    }
}

/// A run of factors, degraded when there is only one of them.
pub open spec fn cat_of(fs: Seq<Tree>) -> Tree {
    if fs.len() == 1 {
        fs[0]
    } else {
        Tree::Cat { factors: fs, paren: false }
    }
}

/// A run of branches, degraded when there is only one of them.
pub open spec fn alt_of(bs: Seq<Tree>) -> Tree {
    if bs.len() == 1 {
        bs[0]
    } else {
        Tree::Alt { branches: bs }
    }
}

/// The branches a parsed unary contributes to the alternation being
/// assembled: an alternation is spliced, anything else is one branch.
pub open spec fn alt_branches(t: Tree) -> Seq<Tree> {
    match t {
        Tree::Alt { branches } => branches,
        _ => seq![t],
    }
}

/// A grouped subexpression is recorded as parenthesized at its point of use.
pub open spec fn paren_mark(t: Tree) -> Tree {
    match t {
        Tree::Lit { text, paren } => Tree::Lit { text, paren: true },
        Tree::Cat { factors, paren } => Tree::Cat { factors, paren: true },
        _ => t,
    }
}

/// Append the pending literal run, if any, to the factors gathered so far.
pub open spec fn flush(acc: Seq<Tree>, run: Seq<char>) -> Seq<Tree> {
    if run.len() > 0 {
        acc.push(Tree::Lit { text: run, paren: false })
    } else {
        acc
    }
}

/// The position just past a run of consecutive `*`.
pub open spec fn sp_stars(s: Seq<char>, i: int) -> int
    decreases s.len() - i,
{
    if 0 <= i < s.len() && s[i] == '*' {
        sp_stars(s, i + 1)
    } else {
        i
    }
}

/// The error for a missing delimiter at position `j`.
pub open spec fn pe_unexpected(expected: Option<char>, s: Seq<char>, j: int) -> ParseError {
    ParseError::UnexpectedToken {
        expected,
        found: if 0 <= j < s.len() {
            Some(s[j])
        } else {
            None
        },
        offset: j as usize,
    }
}

/// One step of the `Concat` production: gather factors (grouped
/// subexpressions and literal runs) until a structural character or the end
/// of the input stops the run.  Returns the parsed factors (already degraded
/// to a single tree, `None` for an empty run) and the next position.
pub open spec fn sp_concat_iter(s: Seq<char>, i: int, acc: Seq<Tree>, run: Seq<char>) -> (Result<
    Option<Tree>,
    ParseError,
>, int)
    decreases s.len() - i, 0int,
{
    if 0 <= i < s.len() {
        if s[i] == '(' {
            let acc2 = flush(acc, run);
            let (r, j) = sp_alt(s, i + 1);
            match r {
                Err(e) => (Err(e), j),
                Ok(bs) => if i <= j && j < s.len() && s[j] == ')' {
                    sp_concat_iter(s, j + 1, acc2.push(paren_mark(alt_of(bs))), Seq::empty())
                } else {
                    (Err(pe_unexpected(Some(')'), s, j)), j)
                },
            }
        } else if s[i] == '|' || s[i] == ')' || s[i] == '*' {
            let fs = flush(acc, run);
            (
                if fs.len() == 0 {
                    Ok(None)
                } else {
                    Ok(Some(cat_of(fs)))
                },
                i,
            )
        } else {
            sp_concat_iter(s, i + 1, acc, run.push(s[i]))
        }
    } else {
        let fs = flush(acc, run);
        (
            if fs.len() == 0 {
                Ok(None)
            } else {
                Ok(Some(cat_of(fs)))
            },
            i,
        )
    }
}

/// The `Concat` production at position `i`.
pub open spec fn sp_concat(s: Seq<char>, i: int) -> (Result<Option<Tree>, ParseError>, int)
    decreases s.len() - i, 1int,
{
    sp_concat_iter(s, i, Seq::empty(), Seq::empty())
}

/// The repetition-attachment loop: after a maximal concatenation, a run of
/// `*` stars its last factor; the starred segment's factors join the
/// concatenation being built and another maximal segment is parsed.
pub open spec fn sp_unary_iter(s: Seq<char>, i: int, acc: Seq<Tree>, cur: Tree) -> (Result<
    Tree,
    ParseError,
>, int)
    decreases s.len() - i, 2int,
{
    if 0 <= i < s.len() && s[i] == '*' {
        let j = sp_stars(s, i);
        let acc2 = acc + seg_factors(star_last(cur));
        if i < j && j <= s.len() {
            let (c2, k) = sp_concat(s, j);
            match c2 {
                Err(e) => (Err(e), k),
                Ok(None) => (Ok(cat_of(acc2)), k),
                Ok(Some(t2)) => if j <= k && k <= s.len() {
                    sp_unary_iter(s, k, acc2, t2)
                } else {
                    (arbitrary(), k)
                },
            }
        } else {
            (arbitrary(), i)
        }
    } else {
        (Ok(cat_of(acc + seg_factors(cur))), i)
    }
}

/// The `Unary` production at position `i`: an empty first segment is the
/// empty-operand failure, reported at the position reached.
pub open spec fn sp_unary(s: Seq<char>, i: int) -> (Result<Tree, ParseError>, int)
    decreases s.len() - i, 3int,
{
    let (c, j) = sp_concat(s, i);
    match c {
        Err(e) => (Err(e), j),
        Ok(None) => (Err(ParseError::EmptyOperand { offset: j as usize }), j),
        Ok(Some(t)) => if i <= j && j <= s.len() {
            sp_unary_iter(s, j, Seq::empty(), t)
        } else {
            (arbitrary(), j)
        },
    }
}

/// The `Alternative` production at position `i`, as the sequence of its
/// branches: a unary that is itself an alternation is spliced, never nested.
pub open spec fn sp_alt(s: Seq<char>, i: int) -> (Result<Seq<Tree>, ParseError>, int)
    decreases s.len() - i, 4int,
{
    let (u, j) = sp_unary(s, i);
    match u {
        Err(e) => (Err(e), j),
        Ok(t) => {
            let bs = alt_branches(t);
            if 0 <= j < s.len() && s[j] == '|' {
                if i <= j {
                    let (r2, k) = sp_alt(s, j + 1);
                    match r2 {
                        Err(e) => (Err(e), k),
                        Ok(bs2) => (Ok(bs + bs2), k),
                    }
                } else {
                    (arbitrary(), j)
                }
            } else {
                (Ok(bs), j)
            }
        },
    }
}

/// What parsing a whole pattern yields: the degraded alternative, provided
/// the input is consumed exactly; a leftover character (an unmatched `)`) is
/// a failure at its offset.
pub open spec fn sp_parse(s: Seq<char>) -> Result<Tree, ParseError> {
    let (r, j) = sp_alt(s, 0);
    match r {
        Err(e) => Err(e),
        Ok(bs) => if j == s.len() {
            Ok(alt_of(bs))
        } else {
            Err(pe_unexpected(None, s, j))
        },
    }
}

/// The conjunction of the nullability of a vector of trees, read from the
/// cached flags.
pub(crate) fn vec_all_nullable(v: &Vec<Regex>) -> (b: bool)
    requires
        flags_all(v@),
    ensures
        b == all_null(view_all(v@)),
{
    let mut b = true;
    let mut k: usize = 0;
    while k < v.len()
        invariant
            0 <= k <= v@.len(),
            flags_all(v@),
            b == all_null(view_all(v@.subrange(0, k as int))),
        decreases v@.len() - k,
    {
        let bk = v[k].is_nullable();
        b = b && bk;
        proof {
            lemma_view_all_subrange(v@, 0, k as int);
            lemma_view_all_subrange(v@, 0, k as int + 1);
            assert(v@.subrange(0, k as int + 1) =~= v@.subrange(0, k as int).push(v@[k as int]));
            assert(view_all(v@.subrange(0, k as int + 1)) == view_all(
                v@.subrange(0, k as int),
            ).push(view_rx(v@[k as int])));
            lemma_all_null_push(view_all(v@.subrange(0, k as int)), view_rx(v@[k as int]));
        }
        k = k + 1;
    }
    proof {
        assert(v@.subrange(0, v@.len() as int) =~= v@);
    }
    b
}

/// The disjunction of the nullability of a vector of trees, read from the
/// cached flags.
pub(crate) fn vec_any_nullable(v: &Vec<Regex>) -> (b: bool)
    requires
        flags_all(v@),
    ensures
        b == any_null(view_all(v@)),
{
    let mut b = false;
    let mut k: usize = 0;
    while k < v.len()
        invariant
            0 <= k <= v@.len(),
            flags_all(v@),
            b == any_null(view_all(v@.subrange(0, k as int))),
        decreases v@.len() - k,
    {
        let bk = v[k].is_nullable();
        b = b || bk;
        proof {
            lemma_view_all_subrange(v@, 0, k as int);
            lemma_view_all_subrange(v@, 0, k as int + 1);
            assert(v@.subrange(0, k as int + 1) =~= v@.subrange(0, k as int).push(v@[k as int]));
            assert(view_all(v@.subrange(0, k as int + 1)) == view_all(
                v@.subrange(0, k as int),
            ).push(view_rx(v@[k as int])));
            lemma_any_null_push(view_all(v@.subrange(0, k as int)), view_rx(v@[k as int]));
        }
        k = k + 1;
    }
    proof {
        assert(v@.subrange(0, v@.len() as int) =~= v@);
    }
    b
}

/// Wrap a tree in a repetition, unless it already is one.
fn star_wrap_exec(t: Regex) -> (r: Regex)
    requires
        flags_ok(t),
    ensures
        r@ == star_wrap(t@),
        flags_ok(r),
        wf_t(t@) ==> wf_t(r@),
{
    match t {
        Regex::Repetition { body } => Regex::Repetition { body },
        t2 => Regex::Repetition { body: Box::new(t2) },
    }
}

/// Reinterpret the last factor of a just-parsed segment as repeated.
fn star_last_exec(t: Regex) -> (r: Regex)
    requires
        flags_ok(t),
        wf_t(t@),
    ensures
        r@ == star_last(t@),
        flags_ok(r),
        wf_t(r@),
{
    let ghost tv = t@;
    match t {
        Regex::Concatenation { factors, nullable, parenthesized } => {
            if parenthesized {
                let t1 = Regex::Concatenation { factors, nullable, parenthesized };
                proof {
                    assert(t1 == t);
                    assert(flags_ok(t1));
                }
                let r = star_wrap_exec(t1);
                proof {
                    assert(r@ == star_last(tv));
                    assert(flags_ok(r));
                    assert(wf_t(r@));
                }
                r
            } else {
                let mut factors = factors;
                let ghost f0 = factors@;
                proof {
                    assert(tv matches Tree::Cat { factors: vf, paren } && vf == view_all(f0)
                        && !paren);
                    assert(view_all(f0).len() >= 2);
                }
                let last_opt = factors.pop();
                let last = last_opt.unwrap();
                proof {
                    assert(last == f0[f0.len() - 1]);
                    assert(flags_ok(last));
                    assert(wf_factors(view_all(f0)));
                    assert(view_all(f0)[f0.len() - 1] == view_rx(last));
                    assert(factor_ok(view_rx(last)));
                }
                let starred = star_wrap_exec(last);
                factors.push(starred);
                proof {
                    assert(factors@ == f0.subrange(0, f0.len() - 1).push(starred));
                    lemma_view_all_subrange(f0, 0, f0.len() - 1);
                    assert(view_all(factors@) =~= view_all(f0).update(
                        view_all(f0).len() - 1,
                        star_wrap(view_all(f0).last()),
                    ));
                }
                let nb = vec_all_nullable(&factors);
                proof {
                    assert(flags_all(f0));
                    assert forall|i: int| 0 <= i < factors@.len() implies flags_ok(
                        #[trigger] factors@[i],
                    ) by {
                        if i < f0.len() - 1 {
                            assert(factors@[i] == f0[i]);
                        }
                    }
                    crate::tree::lemma_flags_all_forall(factors@);
                    assert(flags_all(factors@));
                    let w = view_all(factors@);
                    assert forall|i: int| 0 <= i < w.len() implies factor_ok(#[trigger] w[i]) by {
                        if i < f0.len() - 1 {
                            assert(w[i] == view_all(f0)[i]);
                        } else {
                            assert(w[i] == star_wrap(view_all(f0).last()));
                            assert(factor_ok(view_all(f0).last()));
                        }
                    }
                }
                let r = Regex::Concatenation { factors, nullable: nb, parenthesized: false };
                proof {
                    assert(flags_ok(r));
                    assert(r@ == star_last(tv));
                    assert(view_all(factors@).len() >= 2);
                    assert(wf_factors(view_all(factors@)));
                    assert(wf_t(r@));
                }
                r
            }
        },
        t2 => star_wrap_exec(t2),
    }
}

/// Splice an un-parenthesized concatenation's factors into the run being
/// assembled; push anything else as one factor.
fn append_seg_exec(acc: &mut Vec<Regex>, t: Regex)
    requires
        flags_all(old(acc)@),
        wf_factors(view_all(old(acc)@)),
        flags_ok(t),
        wf_t(t@),
    ensures
        view_all(final(acc)@) == view_all(old(acc)@) + seg_factors(t@),
        flags_all(final(acc)@),
        wf_factors(view_all(final(acc)@)),
        final(acc)@.len() > old(acc)@.len(),
{
    let ghost tv = t@;
    let ghost a0 = old(acc)@;
    match t {
        Regex::Concatenation { factors, nullable, parenthesized } => {
            if !parenthesized {
                let mut f = factors;
                let ghost f0 = f@;
                acc.append(&mut f);
                proof {
                    lemma_view_all_concat(a0, f0);
                    lemma_flags_all_concat(a0, f0);
                    assert(wf_factors(view_all(f0)));
                    assert(view_all(f0).len() >= 2);
                    let w = view_all(a0) + view_all(f0);
                    assert forall|i: int| 0 <= i < w.len() implies factor_ok(#[trigger] w[i]) by {
                        if i < view_all(a0).len() {
                            assert(w[i] == view_all(a0)[i]);
                        } else {
                            assert(w[i] == view_all(f0)[i - view_all(a0).len()]);
                        }
                    }
                }
            } else {
                acc.push(Regex::Concatenation { factors, nullable, parenthesized });
                proof {
                    assert(view_all(acc@) =~= view_all(a0) + seg_factors(tv));
                }
            }
        },
        t2 => {
            acc.push(t2);
            proof {
                assert(view_all(acc@) =~= view_all(a0) + seg_factors(tv));
            }
        },
    }
}

/// Degrade a run of factors: one factor stands alone, two or more become a
/// concatenation whose nullability is the conjunction of theirs.
fn cat_of_exec(fs: Vec<Regex>) -> (r: Regex)
    requires
        fs@.len() >= 1,
        flags_all(fs@),
        wf_factors(view_all(fs@)),
    ensures
        r@ == cat_of(view_all(fs@)),
        flags_ok(r),
        wf_t(r@),
{
    let ghost f0 = fs@;
    let mut fs = fs;
    if fs.len() == 1 {
        let r = fs.pop().unwrap();
        proof {
            assert(r == f0[0]);
            assert(view_all(f0)[0] == view_rx(r));
        }
        r
    } else {
        let nb = vec_all_nullable(&fs);
        Regex::Concatenation { factors: fs, nullable: nb, parenthesized: false }
    }
}

/// A grouped subexpression is recorded as parenthesized at its point of use.
fn paren_mark_exec(t: Regex) -> (r: Regex)
    requires
        flags_ok(t),
        wf_t(t@),
    ensures
        r@ == paren_mark(t@),
        flags_ok(r),
        wf_t(r@),
        factor_ok(r@),
{
    match t {
        Regex::Literal { text, parenthesized } => Regex::Literal { text, parenthesized: true },
        Regex::Concatenation { factors, nullable, parenthesized } => Regex::Concatenation {
            factors,
            nullable,
            parenthesized: true,
        },
        t2 => t2,
    }
}

/// `sp_stars` never moves backwards and never runs past the input.
proof fn lemma_sp_stars_bounds(s: Seq<char>, i: int)
    requires
        0 <= i <= s.len(),
    ensures
        i <= sp_stars(s, i) <= s.len(),
    decreases s.len() - i,
{
    if 0 <= i < s.len() && s[i] == '*' {
        lemma_sp_stars_bounds(s, i + 1);
    }
}

/// The parser: a cursor over one pattern, counting consumed characters.
pub struct Parser {
    pub pos: usize,
}

impl Default for Parser {
    /// A parser ready to read a fresh pattern.
    fn default() -> (p: Parser)
        ensures
            p.pos == 0,
    {
        Parser { pos: 0 }
    }
}

impl Parser {
    /// The next character, if any, without consuming it.
    fn peek(&self, s: &str) -> (c: Option<char>)
        requires
            self.pos <= s@.len(),
        ensures
            c == (if self.pos < s@.len() {
                Some(s@[self.pos as int])
            } else {
                None::<char>
            }),
    {
        if self.pos < s.unicode_len() {
            Some(s.get_char(self.pos))
        } else {
            None
        }
    }

    /// Consume one character.
    fn advance(&mut self, s: &str)
        requires
            old(self).pos < s@.len(),
        ensures
            final(self).pos == old(self).pos + 1,
    {
        let n = s.unicode_len();
        if self.pos < n {
            self.pos = self.pos + 1;
        }
    }

    /// Whether the next character is `expected`.
    fn check(&self, s: &str, expected: char) -> (b: bool)
        requires
            self.pos <= s@.len(),
        ensures
            b == (self.pos < s@.len() && s@[self.pos as int] == expected),
    {
        match self.peek(s) {
            Some(c) => c == expected,
            None => false,
        }
    }

    /// Consume `expected`, or fail naming the character actually found.
    fn consume(&mut self, s: &str, expected: char) -> (r: Result<(), ParseError>)
        requires
            old(self).pos <= s@.len(),
        ensures
            r matches Ok(()) ==> old(self).pos < s@.len() && s@[old(self).pos as int] == expected
                && final(self).pos == old(self).pos + 1,
            r matches Err(e) ==> final(self).pos == old(self).pos && !(old(self).pos < s@.len() && s@[old(
                self,
            ).pos as int] == expected) && e == pe_unexpected(
                Some(expected),
                s@,
                old(self).pos as int,
            ),
    {
        match self.peek(s) {
            Some(c) => if c == expected {
                self.advance(s);
                Ok(())
            } else {
                Err(
                    ParseError::UnexpectedToken {
                        expected: Some(expected),
                        found: Some(c),
                        offset: self.pos,
                    },
                )
            },
            None => Err(
                ParseError::UnexpectedToken {
                    expected: Some(expected),
                    found: None,
                    offset: self.pos,
                },
            ),
        }
    }

    /// The `Concat` production: gather grouped subexpressions and literal
    /// runs until a structural character or the end of the input stops the
    /// run; the result is already degraded (`None` for an empty run).
    fn expect_concat(&mut self, s: &str) -> (r: Result<Option<Regex>, ParseError>)
        requires
            old(self).pos <= s@.len(),
        ensures
            old(self).pos <= final(self).pos <= s@.len(),
            sp_concat(s@, old(self).pos as int).1 == final(self).pos as int,
            match sp_concat(s@, old(self).pos as int).0 {
                Ok(opt) => match opt {
                    Some(t) => r matches Ok(ro) && ro matches Some(rt) && flags_ok(rt) && wf_t(rt@)
                        && rt@ == t,
                    None => r == Ok::<Option<Regex>, ParseError>(None),
                },
                Err(e) => r == Err::<Option<Regex>, ParseError>(e),
            },
        decreases s@.len() - old(self).pos, 0int,
    {
        let ghost i0 = self.pos as int;
        let mut factors: Vec<Regex> = Vec::new();
        let mut run: Vec<char> = Vec::new();
        proof {
            assert(view_all(factors@) =~= Seq::<Tree>::empty());
            assert(run@ =~= Seq::<char>::empty());
        }
        loop
            invariant_except_break
                i0 == old(self).pos as int,
                i0 <= self.pos as int <= s@.len(),
                flags_all(factors@),
                wf_factors(view_all(factors@)),
                sp_concat_iter(s@, i0, Seq::empty(), Seq::empty()) == sp_concat_iter(
                    s@,
                    self.pos as int,
                    view_all(factors@),
                    run@,
                ),
            ensures
                i0 == old(self).pos as int,
                i0 <= self.pos as int <= s@.len(),
                flags_all(factors@),
                wf_factors(view_all(factors@)),
                sp_concat_iter(s@, i0, Seq::empty(), Seq::empty()) == sp_concat_iter(
                    s@,
                    self.pos as int,
                    view_all(factors@),
                    run@,
                ),
                self.pos as int >= s@.len() || s@[self.pos as int] == '|' || s@[self.pos as int]
                    == ')' || s@[self.pos as int] == '*',
            decreases s@.len() - self.pos,
        {
            let ghost p_pre = self.pos as int;
            let ghost acc_pre = view_all(factors@);
            let ghost run_pre = run@;
            let c_opt = self.peek(s);
            let c = match c_opt {
                None => { break ; },
                Some(c) => c,
            };
            if c == '(' {
                self.advance(s);
                if run.len() > 0 {
                    let lit = Regex::Literal { text: run, parenthesized: false };
                    factors.push(lit);
                    run = Vec::new();
                }
                proof {
                    assert(run@ =~= Seq::<char>::empty());
                    assert(view_all(factors@) == flush(acc_pre, run_pre));
                    assert(wf_factors(view_all(factors@)));
                }
                let sub = match self.expect_alternative(s) {
                    Err(e) => {
                        proof {
                            assert(sp_concat_iter(s@, p_pre, acc_pre, run_pre) == (
                                Err::<Option<Tree>, ParseError>(e),
                                self.pos as int,
                            ));
                        }
                        return Err(e);
                    },
                    Ok(t) => t,
                };
                let ghost j = self.pos as int;
                match self.consume(s, ')') {
                    Err(e) => {
                        proof {
                            assert(sp_concat_iter(s@, p_pre, acc_pre, run_pre) == (
                                Err::<Option<Tree>, ParseError>(e),
                                j,
                            ));
                        }
                        return Err(e);
                    },
                    Ok(()) => {},
                }
                let f = paren_mark_exec(sub);
                factors.push(f);
                proof {
                    assert(sp_concat_iter(s@, p_pre, acc_pre, run_pre) == sp_concat_iter(
                        s@,
                        self.pos as int,
                        view_all(factors@),
                        run@,
                    ));
                }
            } else if c == '|' || c == ')' || c == '*' {
                break ;
            } else {
                self.advance(s);
                run.push(c);
                proof {
                    assert(sp_concat_iter(s@, p_pre, acc_pre, run_pre) == sp_concat_iter(
                        s@,
                        self.pos as int,
                        view_all(factors@),
                        run@,
                    ));
                }
            }
        }
        let ghost acc_le = view_all(factors@);
        let ghost run_le = run@;
        if run.len() > 0 {
            let lit = Regex::Literal { text: run, parenthesized: false };
            factors.push(lit);
        }
        proof {
            assert(view_all(factors@) == flush(acc_le, run_le));
            assert(wf_factors(view_all(factors@)));
            assert(sp_concat(s@, i0) == sp_concat_iter(s@, i0, Seq::empty(), Seq::empty()));
            assert(sp_concat_iter(s@, self.pos as int, acc_le, run_le) == (
                if flush(acc_le, run_le).len() == 0 {
                    Ok::<Option<Tree>, ParseError>(None)
                } else {
                    Ok::<Option<Tree>, ParseError>(Some(cat_of(flush(acc_le, run_le))))
                },
                self.pos as int,
            ));
        }
        if factors.len() == 0 {
            return Ok(None);
        }
        let out = cat_of_exec(factors);
        Ok(Some(out))
    }

    /// The `Unary` production: a maximal concatenation, then the repetition
    /// attachment loop for each run of `*`.  An empty first segment is the
    /// empty-operand failure.
    fn expect_unary(&mut self, s: &str) -> (r: Result<Regex, ParseError>)
        requires
            old(self).pos <= s@.len(),
        ensures
            old(self).pos <= final(self).pos <= s@.len(),
            sp_unary(s@, old(self).pos as int).1 == final(self).pos as int,
            match sp_unary(s@, old(self).pos as int).0 {
                Ok(t) => r matches Ok(rt) && flags_ok(rt) && wf_t(rt@) && rt@ == t,
                Err(e) => r == Err::<Regex, ParseError>(e),
            },
        decreases s@.len() - old(self).pos, 1int,
    {
        let ghost i0 = self.pos as int;
        let first = match self.expect_concat(s) {
            Err(e) => {
                return Err(e);
            },
            Ok(o) => o,
        };
        let mut cur = match first {
            None => {
                return Err(ParseError::EmptyOperand { offset: self.pos });
            },
            Some(t) => t,
        };
        let mut acc: Vec<Regex> = Vec::new();
        proof {
            assert(view_all(acc@) =~= Seq::<Tree>::empty());
            assert(sp_unary(s@, i0) == sp_unary_iter(s@, self.pos as int, view_all(acc@), cur@));
        }
        loop
            invariant_except_break
                i0 == old(self).pos as int,
                i0 <= self.pos as int <= s@.len(),
                flags_all(acc@),
                wf_factors(view_all(acc@)),
                flags_ok(cur),
                wf_t(cur@),
                sp_unary(s@, i0) == sp_unary_iter(s@, self.pos as int, view_all(acc@), cur@),
            ensures
                i0 == old(self).pos as int,
                i0 <= self.pos as int <= s@.len(),
                flags_all(acc@),
                wf_factors(view_all(acc@)),
                flags_ok(cur),
                wf_t(cur@),
                sp_unary(s@, i0) == sp_unary_iter(s@, self.pos as int, view_all(acc@), cur@),
                self.pos as int >= s@.len() || s@[self.pos as int] != '*',
            decreases s@.len() - self.pos,
        {
            if !self.check(s, '*') {
                break ;
            }
            let ghost p1 = self.pos as int;
            let ghost acc_pre = view_all(acc@);
            let ghost cur_pre = cur@;
            loop
                invariant_except_break
                    p1 <= self.pos as int <= s@.len(),
                    sp_stars(s@, p1) == sp_stars(s@, self.pos as int),
                ensures
                    p1 <= self.pos as int <= s@.len(),
                    self.pos as int == sp_stars(s@, p1),
                decreases s@.len() - self.pos,
            {
                if !self.check(s, '*') {
                    break ;
                }
                self.advance(s);
            }
            proof {
                lemma_sp_stars_bounds(s@, p1 + 1);
                assert(sp_stars(s@, p1) == sp_stars(s@, p1 + 1));
                assert(p1 < sp_stars(s@, p1));
            }
            let starred = star_last_exec(cur);
            append_seg_exec(&mut acc, starred);
            proof {
                assert(view_all(acc@) == acc_pre + seg_factors(star_last(cur_pre)));
            }
            let ghost j = self.pos as int;
            let nxt = match self.expect_concat(s) {
                Err(e) => {
                    proof {
                        assert(sp_unary_iter(s@, p1, acc_pre, cur_pre) == (
                            Err::<Tree, ParseError>(e),
                            self.pos as int,
                        ));
                    }
                    return Err(e);
                },
                Ok(o) => o,
            };
            match nxt {
                None => {
                    proof {
                        assert(sp_unary_iter(s@, p1, acc_pre, cur_pre) == (
                            Ok::<Tree, ParseError>(cat_of(view_all(acc@))),
                            self.pos as int,
                        ));
                    }
                    let out = cat_of_exec(acc);
                    return Ok(out);
                },
                Some(t2) => {
                    cur = t2;
                    proof {
                        assert(sp_unary_iter(s@, p1, acc_pre, cur_pre) == sp_unary_iter(
                            s@,
                            self.pos as int,
                            view_all(acc@),
                            cur@,
                        ));
                    }
                },
            }
        }
        let ghost acc_end = view_all(acc@);
        let ghost cur_end = cur@;
        append_seg_exec(&mut acc, cur);
        proof {
            assert(sp_unary_iter(s@, self.pos as int, acc_end, cur_end) == (
                Ok::<Tree, ParseError>(cat_of(acc_end + seg_factors(cur_end))),
                self.pos as int,
            ));
        }
        let out = cat_of_exec(acc);
        Ok(out)
    }

    /// The `Alternative` production: unaries separated by `|`, an alternation
    /// among them spliced rather than nested, the result degraded when there
    /// is a single branch.
    fn expect_alternative(&mut self, s: &str) -> (r: Result<Regex, ParseError>)
        requires
            old(self).pos <= s@.len(),
        ensures
            old(self).pos <= final(self).pos <= s@.len(),
            sp_alt(s@, old(self).pos as int).1 == final(self).pos as int,
            match sp_alt(s@, old(self).pos as int).0 {
                Ok(bs) => r matches Ok(t) && flags_ok(t) && wf_t(t@) && t@ == alt_of(bs)
                    && alt_branches(t@) == bs,
                Err(e) => r == Err::<Regex, ParseError>(e),
            },
        decreases s@.len() - old(self).pos, 2int,
    {
        let ghost i0 = self.pos as int;
        let mut branches: Vec<Regex> = Vec::new();
        let mut nullable = false;
        proof {
            assert(view_all(branches@) =~= Seq::<Tree>::empty());
            if let Ok(bs2) = sp_alt(s@, i0).0 {
                assert(Seq::<Tree>::empty() + bs2 =~= bs2);
            }
        }
        loop
            invariant_except_break
                i0 == old(self).pos as int,
                i0 <= self.pos as int <= s@.len(),
                flags_all(branches@),
                wf_branches(view_all(branches@)),
                nullable == any_null(view_all(branches@)),
                sp_alt(s@, i0).1 == sp_alt(s@, self.pos as int).1,
                sp_alt(s@, i0).0 == (match sp_alt(s@, self.pos as int).0 {
                    Ok(bs2) => Ok::<Seq<Tree>, ParseError>(view_all(branches@) + bs2),
                    Err(e) => Err::<Seq<Tree>, ParseError>(e),
                }),
            ensures
                i0 == old(self).pos as int,
                i0 <= self.pos as int <= s@.len(),
                flags_all(branches@),
                wf_branches(view_all(branches@)),
                nullable == any_null(view_all(branches@)),
                view_all(branches@).len() >= 1,
                sp_alt(s@, i0) == (
                    Ok::<Seq<Tree>, ParseError>(view_all(branches@)),
                    self.pos as int,
                ),
            decreases s@.len() - self.pos,
        {
            let ghost p_it = self.pos as int;
            let ghost acc_pre = view_all(branches@);
            let u = match self.expect_unary(s) {
                Err(e) => {
                    proof {
                        assert(sp_alt(s@, p_it) == (Err::<Seq<Tree>, ParseError>(e), self.pos as int));
                    }
                    return Err(e);
                },
                Ok(t) => t,
            };
            let ghost uv = u@;
            match u {
                Regex::Alternation { branches: bs2v, nullable: n2 } => {
                    nullable = nullable || n2;
                    let mut b2 = bs2v;
                    let ghost b2v = b2@;
                    let ghost br_pre = branches@;
                    branches.append(&mut b2);
                    proof {
                        lemma_view_all_concat(br_pre, b2v);
                        lemma_flags_all_concat(br_pre, b2v);
                        assert(wf_branches(alt_branches(uv)));
                    }
                },
                u2 => {
                    let nu = u2.is_nullable();
                    nullable = nullable || nu;
                    proof {
                        assert(branch_ok(view_rx(u2)));
                        assert(alt_branches(uv) == seq![view_rx(u2)]);
                        assert(seq![view_rx(u2)].subrange(1, 1) =~= Seq::<Tree>::empty());
                        assert(wf_branches(Seq::<Tree>::empty()));
                        assert(wf_branches(alt_branches(uv)));
                    }
                    branches.push(u2);
                },
            }
            proof {
                assert(view_all(branches@) == acc_pre + alt_branches(uv));
                lemma_any_null_concat(acc_pre, alt_branches(uv));
                crate::tree::lemma_wf_branches_forall(acc_pre);
                crate::tree::lemma_wf_branches_forall(alt_branches(uv));
                let w = view_all(branches@);
                assert forall|i: int| 0 <= i < w.len() implies branch_ok(#[trigger] w[i]) by {
                    if i < acc_pre.len() {
                        assert(w[i] == acc_pre[i]);
                    } else {
                        assert(w[i] == alt_branches(uv)[i - acc_pre.len()]);
                    }
                }
                assert(wf_branches(w));
            }
            if !self.check(s, '|') {
                proof {
                    assert(sp_alt(s@, p_it) == (
                        Ok::<Seq<Tree>, ParseError>(alt_branches(uv)),
                        self.pos as int,
                    ));
                }
                break ;
            }
            self.advance(s);
            proof {
                assert(sp_alt(s@, p_it).0 == (match sp_alt(s@, self.pos as int).0 {
                    Ok(bs2) => Ok::<Seq<Tree>, ParseError>(alt_branches(uv) + bs2),
                    Err(e) => Err::<Seq<Tree>, ParseError>(e),
                }));
                if let Ok(bs2) = sp_alt(s@, self.pos as int).0 {
                    assert(acc_pre + (alt_branches(uv) + bs2) =~= (acc_pre + alt_branches(uv))
                        + bs2);
                }
            }
        }
        if branches.len() == 1 {
            let t = branches.pop().unwrap();
            proof {
                assert(t == branches@.push(t)[0]);
                assert(view_all(branches@.push(t))[0] == view_rx(t));
                assert(alt_branches(view_rx(t)) =~= view_all(branches@.push(t)));
            }
            return Ok(t);
        }
        let r = Regex::Alternation { branches, nullable };
        Ok(r)
    }

    /// Parse one whole pattern.  On success the tree is exactly the value of
    /// the grammar specification `sp_parse` on the input, well formed, with
    /// correct cached nullability flags; on failure the error is exactly
    /// `sp_parse`'s, its offset the count of characters consumed.
    pub fn parse(&mut self, regex: &str) -> (r: Result<Regex, ParseError>)
        ensures
            match r {
                Ok(t) => flags_ok(t) && wf_t(t@) && sp_parse(regex@) == Ok::<Tree, ParseError>(t@),
                Err(e) => sp_parse(regex@) == Err::<Tree, ParseError>(e),
            },
    {
        self.pos = 0;
        let t = match self.expect_alternative(regex) {
            Err(e) => {
                return Err(e);
            },
            Ok(t) => t,
        };
        if self.pos < regex.unicode_len() {
            let c = regex.get_char(self.pos);
            return Err(
                ParseError::UnexpectedToken { expected: None, found: Some(c), offset: self.pos },
            );
        }
        Ok(t)
    }
}

} // verus!
