//! The properties of canonicalization: normalization preserves nullability,
//! is idempotent, and establishes the star-normal form — no repetition in a
//! normalized tree wraps a nullable concatenation.
use crate::canon::{
    flat_norm, flat_ss, insert_sorted, key_leq, norm_seq, norm_t, sort_trees, ss_t,
};
use crate::parser::{alt_branches, cat_of, flush, sp_concat_iter};
use crate::render::{lemma_lex_total, lemma_lex_trans};
use crate::tree::{
    all_null, any_null, branch_ok, factor_ok, lemma_all_null_forall, lemma_any_null_concat,
    lemma_any_null_exists, nullable_t, size_all, size_t, wf_branches, wf_factors, wf_t, Tree,
};
use vstd::prelude::*;

verus! {

broadcast use {
    vstd::seq::group_seq_axioms,
};

/// Branches in canonical order: sorted by rendered text.
pub open spec fn sorted_trees(s: Seq<Tree>) -> bool {
    forall|i: int, j: int| 0 <= i < j < s.len() ==> key_leq(#[trigger] s[i], #[trigger] s[j])
}

/// A canonical tree: what normalization produces, and what it leaves
/// unchanged.
pub open spec fn canon_t(t: Tree) -> bool
    decreases size_t(t), 0nat, 0nat,
{
    match t {
        Tree::Lit { .. } => true,
        Tree::Alt { branches } => sorted_trees(branches) && canon_branches(branches),
        Tree::Cat { factors, .. } => canon_seq(factors),
        Tree::Star { body } => star_body_canon(*body),
    }
}

/// A canonical repetition body: what star simplification produces.  It is
/// never a repetition, never nullable when a concatenation, and an
/// alternation only of literal runs and non-nullable concatenations.
pub open spec fn star_body_canon(t: Tree) -> bool
    decreases size_t(t), 1nat, 0nat,
{
    match t {
        Tree::Lit { .. } => true,
        Tree::Cat { factors, .. } => !all_null(factors) && canon_seq(factors),
        Tree::Alt { branches } => sorted_trees(branches) && star_elems(branches),
        Tree::Star { .. } => false,
    }
}

/// A tree allowed as a branch of an alternation under a repetition.
pub open spec fn star_elem(t: Tree) -> bool
    decreases size_t(t), 1nat, 0nat,
{
    match t {
        Tree::Lit { .. } => true,
        Tree::Cat { factors, .. } => !all_null(factors) && canon_seq(factors),
        _ => false,
    }
}

pub open spec fn canon_branches(s: Seq<Tree>) -> bool
    decreases size_all(s), 2nat, s.len(),
{
    if s.len() == 0 {
        true
    } else {
        canon_t(s[0]) && !(s[0] matches Tree::Alt { .. }) && canon_branches(
            s.subrange(1, s.len() as int),
        )
    }
}

pub open spec fn canon_seq(s: Seq<Tree>) -> bool
    decreases size_all(s), 2nat, s.len(),
{
    if s.len() == 0 {
        true
    } else {
        canon_t(s[0]) && canon_seq(s.subrange(1, s.len() as int))
    }
}

pub open spec fn star_elems(s: Seq<Tree>) -> bool
    decreases size_all(s), 2nat, s.len(),
{
    if s.len() == 0 {
        true
    } else {
        star_elem(s[0]) && star_elems(s.subrange(1, s.len() as int))
    }
}

pub broadcast proof fn lemma_canon_branches_forall(s: Seq<Tree>)
    ensures
        #[trigger] canon_branches(s) <==> forall|i: int|
            0 <= i < s.len() ==> canon_t(#[trigger] s[i]) && !(s[i] matches Tree::Alt { .. }),
    decreases s.len(),
{
    if s.len() > 0 {
        lemma_canon_branches_forall(s.subrange(1, s.len() as int));
        assert(forall|i: int|
            1 <= i < s.len() ==> s.subrange(1, s.len() as int)[i - 1] == #[trigger] s[i]);
        assert(forall|i: int|
            0 <= i < s.len() - 1 ==> #[trigger] s.subrange(1, s.len() as int)[i] == s[i + 1]);
    }
}

pub broadcast proof fn lemma_canon_seq_forall(s: Seq<Tree>)
    ensures
        #[trigger] canon_seq(s) <==> forall|i: int| 0 <= i < s.len() ==> canon_t(#[trigger] s[i]),
    decreases s.len(),
{
    if s.len() > 0 {
        lemma_canon_seq_forall(s.subrange(1, s.len() as int));
        assert(forall|i: int|
            1 <= i < s.len() ==> s.subrange(1, s.len() as int)[i - 1] == #[trigger] s[i]);
        assert(forall|i: int|
            0 <= i < s.len() - 1 ==> #[trigger] s.subrange(1, s.len() as int)[i] == s[i + 1]);
    }
}

pub broadcast proof fn lemma_star_elems_forall(s: Seq<Tree>)
    ensures
        #[trigger] star_elems(s) <==> forall|i: int|
            0 <= i < s.len() ==> star_elem(#[trigger] s[i]),
    decreases s.len(),
{
    if s.len() > 0 {
        lemma_star_elems_forall(s.subrange(1, s.len() as int));
        assert(forall|i: int|
            1 <= i < s.len() ==> s.subrange(1, s.len() as int)[i - 1] == #[trigger] s[i]);
        assert(forall|i: int|
            0 <= i < s.len() - 1 ==> #[trigger] s.subrange(1, s.len() as int)[i] == s[i + 1]);
    }
}

/// Inserting preserves and adds exactly one element, for any property of the
/// elements.
pub proof fn lemma_insert_elems(p: spec_fn(Tree) -> bool, t: Tree, s: Seq<Tree>)
    ensures
        (forall|i: int|
            0 <= i < insert_sorted(t, s).len() ==> #[trigger] p(insert_sorted(t, s)[i])) <==> (p(t)
            && forall|i: int| 0 <= i < s.len() ==> #[trigger] p(s[i])),
        (exists|i: int| 0 <= i < insert_sorted(t, s).len() && #[trigger] p(insert_sorted(t, s)[i]))
            <==> (p(t) || exists|i: int| 0 <= i < s.len() && #[trigger] p(s[i])),
        insert_sorted(t, s).len() == s.len() + 1,
    decreases s.len(),
{
    let ins = insert_sorted(t, s);
    if s.len() == 0 {
        assert(ins =~= seq![t]);
        assert(ins[0] == t);
    } else if key_leq(s[0], t) {
        let tail = s.subrange(1, s.len() as int);
        lemma_insert_elems(p, t, tail);
        let tins = insert_sorted(t, tail);
        assert(ins == seq![s[0]] + tins);
        assert(ins[0] == s[0]);
        assert(forall|i: int| 0 <= i < tins.len() ==> ins[i + 1] == #[trigger] tins[i]);
        assert(forall|i: int| 1 <= i < ins.len() ==> #[trigger] ins[i] == tins[i - 1]);
        assert(forall|i: int| 0 <= i < tail.len() ==> #[trigger] tail[i] == s[i + 1]);
        assert(forall|i: int| 1 <= i < s.len() ==> #[trigger] s[i] == tail[i - 1]);
    } else {
        assert(ins == seq![t] + s);
        assert(ins[0] == t);
        assert(forall|i: int| 0 <= i < s.len() ==> ins[i + 1] == #[trigger] s[i]);
        assert(forall|i: int| 1 <= i < ins.len() ==> #[trigger] ins[i] == s[i - 1]);
    }
}

/// Sorting preserves the elements' properties, both universally and
/// existentially, and the length.
pub proof fn lemma_sort_elems(p: spec_fn(Tree) -> bool, s: Seq<Tree>)
    ensures
        (forall|i: int| 0 <= i < sort_trees(s).len() ==> #[trigger] p(sort_trees(s)[i])) <==> (
        forall|i: int| 0 <= i < s.len() ==> #[trigger] p(s[i])),
        (exists|i: int| 0 <= i < sort_trees(s).len() && #[trigger] p(sort_trees(s)[i])) <==> (
        exists|i: int| 0 <= i < s.len() && #[trigger] p(s[i])),
        sort_trees(s).len() == s.len(),
    decreases s.len(),
{
    if s.len() > 0 {
        let pre = s.drop_last();
        lemma_sort_elems(p, pre);
        lemma_insert_elems(p, s.last(), sort_trees(pre));
        assert(sort_trees(s) == insert_sorted(s.last(), sort_trees(pre)));
        assert((forall|i: int| 0 <= i < s.len() ==> #[trigger] p(s[i])) <==> (p(s.last())
            && forall|i: int| 0 <= i < pre.len() ==> #[trigger] p(pre[i]))) by {
            if forall|i: int| 0 <= i < s.len() ==> #[trigger] p(s[i]) {
                assert(p(s[s.len() - 1]));
                assert forall|i: int| 0 <= i < pre.len() implies #[trigger] p(pre[i]) by {
                    assert(pre[i] == s[i]);
                    assert(p(s[i]));
                }
            }
            if p(s.last()) && (forall|i: int| 0 <= i < pre.len() ==> #[trigger] p(pre[i])) {
                assert forall|i: int| 0 <= i < s.len() implies #[trigger] p(s[i]) by {
                    if i < s.len() - 1 {
                        assert(s[i] == pre[i]);
                        assert(p(pre[i]));
                    } else {
                        assert(s[i] == s.last());
                    }
                }
            }
        }
        assert((exists|i: int| 0 <= i < s.len() && #[trigger] p(s[i])) <==> (p(s.last())
            || exists|i: int| 0 <= i < pre.len() && #[trigger] p(pre[i]))) by {
            if exists|i: int| 0 <= i < s.len() && #[trigger] p(s[i]) {
                let i = choose|i: int| 0 <= i < s.len() && #[trigger] p(s[i]);
                if i < s.len() - 1 {
                    assert(pre[i] == s[i]);
                    assert(p(pre[i]));
                } else {
                    assert(s[i] == s.last());
                }
            }
            if p(s.last()) {
                assert(p(s[s.len() - 1]));
            }
            if exists|i: int| 0 <= i < pre.len() && #[trigger] p(pre[i]) {
                let i = choose|i: int| 0 <= i < pre.len() && #[trigger] p(pre[i]);
                assert(s[i] == pre[i]);
                assert(p(s[i]));
            }
        }
    }
}

/// Inserting into a sorted run keeps it sorted.
pub proof fn lemma_insert_sorted_keeps(t: Tree, s: Seq<Tree>)
    requires
        sorted_trees(s),
    ensures
        sorted_trees(insert_sorted(t, s)),
    decreases s.len(),
{
    let ins = insert_sorted(t, s);
    if s.len() == 0 {
    } else if key_leq(s[0], t) {
        let tail = s.subrange(1, s.len() as int);
        assert(forall|i: int| 0 <= i < tail.len() ==> #[trigger] tail[i] == s[i + 1]);
        lemma_insert_sorted_keeps(t, tail);
        let tins = insert_sorted(t, tail);
        assert(ins == seq![s[0]] + tins);
        let p = |x: Tree| key_leq(s[0], x);
        lemma_insert_elems(p, t, tail);
        assert forall|i: int| 0 <= i < tail.len() implies #[trigger] p(tail[i]) by {
            assert(tail[i] == s[i + 1]);
            assert(key_leq(s[0], s[i + 1]));
        }
        assert(forall|i: int| 0 <= i < tins.len() ==> #[trigger] p(tins[i]));
        assert forall|i: int, j: int| 0 <= i < j < ins.len() implies key_leq(
            #[trigger] ins[i],
            #[trigger] ins[j],
        ) by {
            if i == 0 {
                assert(ins[j] == tins[j - 1]);
                assert(p(tins[j - 1]));
            } else {
                assert(ins[i] == tins[i - 1]);
                assert(ins[j] == tins[j - 1]);
            }
        }
    } else {
        assert(ins == seq![t] + s);
        lemma_lex_total(
            crate::render::render_t(s[0]),
            crate::render::render_t(t),
        );
        assert(key_leq(t, s[0]));
        assert forall|i: int, j: int| 0 <= i < j < ins.len() implies key_leq(
            #[trigger] ins[i],
            #[trigger] ins[j],
        ) by {
            if i == 0 {
                assert(ins[j] == s[j - 1]);
                if j == 1 {
                } else {
                    lemma_lex_trans(
                        crate::render::render_t(t),
                        crate::render::render_t(s[0]),
                        crate::render::render_t(s[j - 1]),
                    );
                }
            } else {
                assert(ins[i] == s[i - 1]);
                assert(ins[j] == s[j - 1]);
            }
        }
    }
}

/// The sort's result is sorted.
pub proof fn lemma_sort_sorted(s: Seq<Tree>)
    ensures
        sorted_trees(sort_trees(s)),
    decreases s.len(),
{
    if s.len() > 0 {
        lemma_sort_sorted(s.drop_last());
        lemma_insert_sorted_keeps(s.last(), sort_trees(s.drop_last()));
    }
}

/// Inserting after everything appends.
pub proof fn lemma_insert_all_leq(t: Tree, s: Seq<Tree>)
    requires
        forall|i: int| 0 <= i < s.len() ==> key_leq(#[trigger] s[i], t),
    ensures
        insert_sorted(t, s) == s.push(t),
    decreases s.len(),
{
    if s.len() == 0 {
        assert(insert_sorted(t, s) =~= s.push(t));
    } else {
        let tail = s.subrange(1, s.len() as int);
        assert(forall|i: int| 0 <= i < tail.len() ==> #[trigger] tail[i] == s[i + 1]);
        lemma_insert_all_leq(t, tail);
        assert(insert_sorted(t, s) == seq![s[0]] + tail.push(t));
        assert(insert_sorted(t, s) =~= s.push(t));
    }
}

/// Sorting a sorted run changes nothing: the sort is a projection.
pub proof fn lemma_sort_fix(s: Seq<Tree>)
    requires
        sorted_trees(s),
    ensures
        sort_trees(s) == s,
    decreases s.len(),
{
    if s.len() > 0 {
        let pre = s.drop_last();
        assert(forall|i: int| 0 <= i < pre.len() ==> #[trigger] pre[i] == s[i]);
        lemma_sort_fix(pre);
        assert(forall|i: int| 0 <= i < pre.len() ==> key_leq(#[trigger] pre[i], s.last()));
        lemma_insert_all_leq(s.last(), pre);
        assert(sort_trees(s) =~= s);
    }
}

/// Sorting a run of star-fit branches keeps each branch star-fit.
pub proof fn lemma_ss_alt_sorted(f: Seq<Tree>)
    requires
        star_elems(f),
    ensures
        sorted_trees(sort_trees(f)),
        star_elems(sort_trees(f)),
{
    lemma_sort_sorted(f);
    let p = |x: Tree| star_elem(x);
    lemma_star_elems_forall(f);
    assert forall|i: int| 0 <= i < f.len() implies #[trigger] p(f[i]) by {
        assert(star_elem(f[i]));
    }
    lemma_sort_elems(p, f);
    lemma_star_elems_forall(sort_trees(f));
    assert forall|i: int| 0 <= i < sort_trees(f).len() implies star_elem(
        #[trigger] sort_trees(f)[i],
    ) by {
        assert(p(sort_trees(f)[i]));
    }
}

/// Normalization produces a canonical tree and preserves nullability.
pub proof fn lemma_norm_canon(t: Tree)
    ensures
        canon_t(norm_t(t)),
        nullable_t(norm_t(t)) == nullable_t(t),
    decreases size_t(t), 0nat, 0nat,
{
    match t {
        Tree::Lit { .. } => {},
        Tree::Alt { branches } => {
            lemma_flat_norm_props(branches);
            let f = flat_norm(branches);
            let sorted = sort_trees(f);
            lemma_sort_sorted(f);
            let p = |x: Tree| canon_t(x) && !(x matches Tree::Alt { .. });
            lemma_canon_branches_forall(f);
            assert forall|i: int| 0 <= i < f.len() implies #[trigger] p(f[i]) by {
                assert(canon_t(f[i]) && !(f[i] matches Tree::Alt { .. }));
            }
            lemma_sort_elems(p, f);
            lemma_canon_branches_forall(sorted);
            assert forall|i: int|
                0 <= i < sorted.len() implies canon_t(#[trigger] sorted[i]) && !(
                sorted[i] matches Tree::Alt { .. }) by {
                assert(p(sorted[i]));
            }
            assert(canon_branches(sorted));
            let q = |x: Tree| nullable_t(x);
            lemma_sort_elems(q, f);
            lemma_any_null_exists(f);
            lemma_any_null_exists(sorted);
            assert(any_null(sorted) == any_null(f)) by {
                if any_null(sorted) {
                    let i = choose|i: int|
                        0 <= i < sorted.len() && nullable_t(#[trigger] sorted[i]);
                    assert(q(sorted[i]));
                    assert(exists|i: int| 0 <= i < f.len() && #[trigger] q(f[i]));
                    let j = choose|i: int| 0 <= i < f.len() && #[trigger] q(f[i]);
                    assert(nullable_t(f[j]));
                }
                if any_null(f) {
                    let i = choose|i: int| 0 <= i < f.len() && nullable_t(#[trigger] f[i]);
                    assert(q(f[i]));
                    assert(exists|i: int| 0 <= i < sorted.len() && #[trigger] q(sorted[i]));
                    let j = choose|i: int| 0 <= i < sorted.len() && #[trigger] q(sorted[i]);
                    assert(nullable_t(sorted[j]));
                }
            }
        },
        Tree::Cat { factors, paren } => {
            lemma_norm_seq_props(factors);
        },
        Tree::Star { body } => {
            lemma_ss_canon(*body);
        },
    }
}

/// Star simplification produces a canonical repetition body.
pub proof fn lemma_ss_canon(t: Tree)
    ensures
        star_body_canon(ss_t(t)),
    decreases size_t(t), 0nat, 0nat,
{
    match t {
        Tree::Lit { .. } => {},
        Tree::Alt { branches } => {
            lemma_flat_ss_props(branches);
            lemma_ss_alt_sorted(flat_ss(branches));
        },
        Tree::Cat { factors, paren } => {
            if all_null(factors) {
                lemma_flat_ss_props(factors);
                lemma_ss_alt_sorted(flat_ss(factors));
            } else {
                lemma_norm_seq_props(factors);
            }
        },
        Tree::Star { body } => {
            lemma_ss_canon(*body);
        },
    }
}

/// Normalizing each child gives canonical children with the same
/// nullability, child for child.
pub proof fn lemma_norm_seq_props(s: Seq<Tree>)
    ensures
        canon_seq(norm_seq(s)),
        all_null(norm_seq(s)) == all_null(s),
        norm_seq(s).len() == s.len(),
    decreases size_all(s), 1nat, s.len(),
{
    if s.len() > 0 {
        let tail = s.subrange(1, s.len() as int);
        lemma_norm_canon(s[0]);
        lemma_norm_seq_props(tail);
        let w = norm_seq(s);
        assert(w == seq![norm_t(s[0])] + norm_seq(tail));
        assert(w[0] == norm_t(s[0]));
        assert(w.subrange(1, w.len() as int) =~= norm_seq(tail));
    }
}

/// Normalizing then splicing yields canonical non-alternation branches, and
/// keeps whether any branch is nullable.
pub proof fn lemma_flat_norm_props(s: Seq<Tree>)
    ensures
        canon_branches(flat_norm(s)),
        any_null(flat_norm(s)) == any_null(s),
    decreases size_all(s), 1nat, s.len(),
{
    let w = flat_norm(s);
    if s.len() == 0 {
    } else {
        let tail = s.subrange(1, s.len() as int);
        lemma_norm_canon(s[0]);
        lemma_flat_norm_props(tail);
        let n0 = norm_t(s[0]);
        let ab = alt_branches(n0);
        assert(w == ab + flat_norm(tail));
        assert(canon_branches(ab) && any_null(ab) == nullable_t(n0)) by {
            match n0 {
                Tree::Alt { branches: b2 } => {
                    assert(ab == b2);
                },
                _ => {
                    assert(ab == seq![n0]);
                    assert(ab[0] == n0);
                    assert(ab.subrange(1, 1) =~= Seq::<Tree>::empty());
                    lemma_canon_branches_forall(ab);
                    lemma_any_null_exists(ab);
                },
            }
        }
        lemma_any_null_concat(ab, flat_norm(tail));
        lemma_canon_branches_forall(ab);
        lemma_canon_branches_forall(flat_norm(tail));
        lemma_canon_branches_forall(w);
        assert forall|i: int|
            0 <= i < w.len() implies canon_t(#[trigger] w[i]) && !(w[i] matches Tree::Alt {
                ..
            }) by {
            if i < ab.len() {
                assert(w[i] == ab[i]);
            } else {
                assert(w[i] == flat_norm(tail)[i - ab.len()]);
            }
        }
        lemma_any_null_exists(s);
        lemma_any_null_exists(tail);
        assert(any_null(s) == (nullable_t(s[0]) || any_null(tail)));
    }
}

/// Star-simplifying then splicing yields branches fit to stand under a
/// repetition.
pub proof fn lemma_flat_ss_props(s: Seq<Tree>)
    ensures
        star_elems(flat_ss(s)),
    decreases size_all(s), 1nat, s.len(),
{
    let w = flat_ss(s);
    if s.len() == 0 {
    } else {
        let tail = s.subrange(1, s.len() as int);
        lemma_ss_canon(s[0]);
        lemma_flat_ss_props(tail);
        let n0 = ss_t(s[0]);
        let ab = alt_branches(n0);
        assert(w == ab + flat_ss(tail));
        assert(star_elems(ab)) by {
            match n0 {
                Tree::Alt { branches: b2 } => {
                    assert(ab == b2);
                },
                Tree::Star { .. } => {
                    assert(false);
                },
                _ => {
                    assert(ab == seq![n0]);
                    assert(ab[0] == n0);
                    assert(ab.subrange(1, 1) =~= Seq::<Tree>::empty());
                    lemma_star_elems_forall(ab);
                },
            }
        }
        lemma_star_elems_forall(ab);
        lemma_star_elems_forall(flat_ss(tail));
        lemma_star_elems_forall(w);
        assert forall|i: int| 0 <= i < w.len() implies star_elem(#[trigger] w[i]) by {
            if i < ab.len() {
                assert(w[i] == ab[i]);
            } else {
                assert(w[i] == flat_ss(tail)[i - ab.len()]);
            }
        }
    }
}

/// A canonical tree is a fixed point of normalization.
pub proof fn lemma_norm_fix(t: Tree)
    requires
        canon_t(t),
    ensures
        norm_t(t) == t,
    decreases size_t(t), 0nat, 0nat,
{
    match t {
        Tree::Lit { .. } => {},
        Tree::Alt { branches } => {
            lemma_flat_norm_fix(branches);
            lemma_sort_fix(branches);
        },
        Tree::Cat { factors, paren } => {
            lemma_norm_seq_fix(factors);
        },
        Tree::Star { body } => {
            lemma_ss_fix(*body);
        },
    }
}

/// A canonical repetition body is a fixed point of star simplification.
pub proof fn lemma_ss_fix(t: Tree)
    requires
        star_body_canon(t),
    ensures
        ss_t(t) == t,
    decreases size_t(t), 0nat, 0nat,
{
    match t {
        Tree::Lit { .. } => {},
        Tree::Alt { branches } => {
            lemma_flat_ss_fix(branches);
            lemma_sort_fix(branches);
        },
        Tree::Cat { factors, paren } => {
            lemma_norm_seq_fix(factors);
        },
        Tree::Star { .. } => {
            assert(false);
        },
    }
}

pub proof fn lemma_norm_seq_fix(s: Seq<Tree>)
    requires
        canon_seq(s),
    ensures
        norm_seq(s) == s,
    decreases size_all(s), 1nat, s.len(),
{
    if s.len() > 0 {
        let tail = s.subrange(1, s.len() as int);
        lemma_norm_fix(s[0]);
        lemma_norm_seq_fix(tail);
        assert(norm_seq(s) =~= s);
    }
}

pub proof fn lemma_flat_norm_fix(s: Seq<Tree>)
    requires
        canon_branches(s),
    ensures
        flat_norm(s) == s,
    decreases size_all(s), 1nat, s.len(),
{
    if s.len() > 0 {
        let tail = s.subrange(1, s.len() as int);
        lemma_norm_fix(s[0]);
        lemma_flat_norm_fix(tail);
        assert(alt_branches(norm_t(s[0])) == seq![s[0]]);
        assert(flat_norm(s) =~= s);
    }
}

pub proof fn lemma_flat_ss_fix(s: Seq<Tree>)
    requires
        star_elems(s),
    ensures
        flat_ss(s) == s,
    decreases size_all(s), 1nat, s.len(),
{
    if s.len() > 0 {
        let tail = s.subrange(1, s.len() as int);
        assert(star_elem(s[0]));
        assert(star_body_canon(s[0])) by {
            match s[0] {
                Tree::Lit { .. } => {},
                Tree::Cat { .. } => {},
                _ => {
                    assert(!star_elem(s[0]));
                },
            }
        }
        lemma_ss_fix(s[0]);
        lemma_flat_ss_fix(tail);
        assert(alt_branches(ss_t(s[0])) == seq![s[0]]);
        assert(flat_ss(s) =~= s);
    }
}

/// Normalization preserves structural well-formedness.
pub proof fn lemma_norm_wf(t: Tree)
    requires
        wf_t(t),
    ensures
        wf_t(norm_t(t)),
    decreases size_t(t), 0nat, 0nat,
{
    match t {
        Tree::Lit { .. } => {},
        Tree::Alt { branches } => {
            lemma_flat_norm_wf(branches);
            let f = flat_norm(branches);
            let p = |x: Tree| branch_ok(x);
            crate::tree::lemma_wf_branches_forall(f);
            assert forall|i: int| 0 <= i < f.len() implies #[trigger] p(f[i]) by {
                assert(branch_ok(f[i]));
            }
            lemma_sort_elems(p, f);
            crate::tree::lemma_wf_branches_forall(sort_trees(f));
            assert forall|i: int| 0 <= i < sort_trees(f).len() implies branch_ok(
                #[trigger] sort_trees(f)[i],
            ) by {
                assert(p(sort_trees(f)[i]));
            }
        },
        Tree::Cat { factors, paren } => {
            lemma_norm_seq_wf(factors);
        },
        Tree::Star { body } => {
            lemma_ss_wf(*body);
        },
    }
}

/// Star simplification preserves structural well-formedness and never
/// yields a repetition, so no repetition ends up directly under another.
pub proof fn lemma_ss_wf(t: Tree)
    requires
        wf_t(t),
    ensures
        wf_t(ss_t(t)),
        !(ss_t(t) matches Tree::Star { .. }),
    decreases size_t(t), 0nat, 0nat,
{
    match t {
        Tree::Lit { .. } => {},
        Tree::Alt { branches } => {
            crate::tree::lemma_wf_branches_forall(branches);
            lemma_flat_ss_wf(branches);
            lemma_ss_sort_wf(flat_ss(branches));
        },
        Tree::Cat { factors, paren } => {
            crate::tree::lemma_wf_factors_forall(factors);
            if all_null(factors) {
                lemma_flat_ss_wf(factors);
                lemma_ss_sort_wf(flat_ss(factors));
            } else {
                lemma_norm_seq_wf(factors);
            }
        },
        Tree::Star { body } => {
            lemma_ss_wf(*body);
        },
    }
}

/// Sorting keeps every branch well formed and no branch an alternation.
pub proof fn lemma_ss_sort_wf(f: Seq<Tree>)
    requires
        wf_branches(f),
    ensures
        wf_branches(sort_trees(f)),
        sort_trees(f).len() == f.len(),
{
    let p = |x: Tree| branch_ok(x);
    crate::tree::lemma_wf_branches_forall(f);
    assert forall|i: int| 0 <= i < f.len() implies #[trigger] p(f[i]) by {
        assert(branch_ok(f[i]));
    }
    lemma_sort_elems(p, f);
    crate::tree::lemma_wf_branches_forall(sort_trees(f));
    assert forall|i: int| 0 <= i < sort_trees(f).len() implies branch_ok(
        #[trigger] sort_trees(f)[i],
    ) by {
        assert(p(sort_trees(f)[i]));
    }
}

/// Normalizing each factor keeps it fit for its concatenation: the same
/// count, each well formed, none an un-parenthesized concatenation.
pub proof fn lemma_norm_seq_wf(s: Seq<Tree>)
    requires
        wf_factors(s),
    ensures
        wf_factors(norm_seq(s)),
        norm_seq(s).len() == s.len(),
    decreases size_all(s), 1nat, s.len(),
{
    if s.len() > 0 {
        let tail = s.subrange(1, s.len() as int);
        assert(factor_ok(s[0]));
        lemma_norm_wf(s[0]);
        lemma_norm_seq_wf(tail);
        let w = norm_seq(s);
        assert(w[0] == norm_t(s[0]));
        assert(w.subrange(1, w.len() as int) =~= norm_seq(tail));
        assert(factor_ok(norm_t(s[0]))) by {
            match s[0] {
                Tree::Lit { .. } => {
                    assert(norm_t(s[0]) == s[0]);
                },
                Tree::Alt { branches } => {
                    assert(norm_t(s[0]) matches Tree::Alt { .. });
                },
                Tree::Cat { factors, paren } => {
                    assert(paren);
                    assert(norm_t(s[0]) == (Tree::Cat { factors: norm_seq(factors), paren }));
                },
                Tree::Star { .. } => {
                    assert(norm_t(s[0]) matches Tree::Star { .. });
                },
            }
        }
    }
}

/// Normalizing each branch keeps it fit for its alternation, and splicing
/// never shrinks the branch list.
pub proof fn lemma_flat_norm_wf(s: Seq<Tree>)
    requires
        wf_branches(s),
    ensures
        wf_branches(flat_norm(s)),
        flat_norm(s).len() >= s.len(),
    decreases size_all(s), 1nat, s.len(),
{
    let w = flat_norm(s);
    if s.len() > 0 {
        let tail = s.subrange(1, s.len() as int);
        assert(branch_ok(s[0]));
        lemma_norm_wf(s[0]);
        lemma_flat_norm_wf(tail);
        let n0 = norm_t(s[0]);
        let ab = alt_branches(n0);
        assert(w == ab + flat_norm(tail));
        assert(ab == seq![n0] && !(n0 matches Tree::Alt { .. })) by {
            match s[0] {
                Tree::Lit { .. } => {
                    assert(n0 == s[0]);
                },
                Tree::Alt { .. } => {
                    assert(false);
                },
                Tree::Cat { factors, paren } => {
                    assert(n0 == (Tree::Cat { factors: norm_seq(factors), paren }));
                },
                Tree::Star { .. } => {
                    assert(n0 matches Tree::Star { .. });
                },
            }
        }
        assert(wf_branches(ab)) by {
            assert(ab[0] == n0);
            assert(ab.subrange(1, 1) =~= Seq::<Tree>::empty());
            crate::tree::lemma_wf_branches_forall(ab);
        }
        crate::tree::lemma_wf_branches_forall(ab);
        crate::tree::lemma_wf_branches_forall(flat_norm(tail));
        crate::tree::lemma_wf_branches_forall(w);
        assert forall|i: int| 0 <= i < w.len() implies branch_ok(#[trigger] w[i]) by {
            if i < ab.len() {
                assert(w[i] == ab[i]);
            } else {
                assert(w[i] == flat_norm(tail)[i - ab.len()]);
            }
        }
    }
}

/// Star-simplifying each child keeps every spliced branch well formed and
/// never shrinks the list.
pub proof fn lemma_flat_ss_wf(s: Seq<Tree>)
    requires
        forall|i: int| 0 <= i < s.len() ==> wf_t(#[trigger] s[i]),
    ensures
        wf_branches(flat_ss(s)),
        flat_ss(s).len() >= s.len(),
    decreases size_all(s), 1nat, s.len(),
{
    let w = flat_ss(s);
    if s.len() > 0 {
        let tail = s.subrange(1, s.len() as int);
        assert(forall|i: int| 0 <= i < tail.len() ==> #[trigger] tail[i] == s[i + 1]);
        lemma_ss_wf(s[0]);
        lemma_flat_ss_wf(tail);
        let n0 = ss_t(s[0]);
        let ab = alt_branches(n0);
        assert(w == ab + flat_ss(tail));
        assert(wf_branches(ab) && ab.len() >= 1) by {
            match n0 {
                Tree::Alt { branches: b2 } => {
                    assert(ab == b2);
                },
                _ => {
                    assert(ab == seq![n0]);
                    assert(ab[0] == n0);
                    assert(ab.subrange(1, 1) =~= Seq::<Tree>::empty());
                    crate::tree::lemma_wf_branches_forall(ab);
                },
            }
        }
        crate::tree::lemma_wf_branches_forall(ab);
        crate::tree::lemma_wf_branches_forall(flat_ss(tail));
        crate::tree::lemma_wf_branches_forall(w);
        assert forall|i: int| 0 <= i < w.len() implies branch_ok(#[trigger] w[i]) by {
            if i < ab.len() {
                assert(w[i] == ab[i]);
            } else {
                assert(w[i] == flat_ss(tail)[i - ab.len()]);
            }
        }
    }
}

/// Nullability is structural: a literal run never matches the empty word, a
/// repetition always does, an alternation does iff some branch does, a
/// concatenation does iff every factor does.
pub proof fn lemma_nullability(t: Tree)
    ensures
        t matches Tree::Lit { .. } ==> !nullable_t(t),
        t matches Tree::Star { .. } ==> nullable_t(t),
        t matches Tree::Alt { branches } ==> (nullable_t(t) <==> exists|i: int|
            0 <= i < branches.len() && nullable_t(#[trigger] branches[i])),
        t matches Tree::Cat { factors, paren } ==> (nullable_t(t) <==> forall|i: int|
            0 <= i < factors.len() ==> nullable_t(#[trigger] factors[i])),
{
    match t {
        Tree::Alt { branches } => {
            lemma_any_null_exists(branches);
        },
        Tree::Cat { factors, .. } => {
            lemma_all_null_forall(factors);
        },
        _ => {},
    }
}

/// Normalization is a projection onto a fixed point: applying it twice is
/// the same as applying it once.
pub proof fn lemma_normalize_idempotent(t: Tree)
    ensures
        norm_t(norm_t(t)) == norm_t(t),
{
    lemma_norm_canon(t);
    lemma_norm_fix(norm_t(t));
}

/// Normalization never changes whether a tree matches the empty word.
pub proof fn lemma_normalize_nullable(t: Tree)
    ensures
        nullable_t(norm_t(t)) == nullable_t(t),
{
    lemma_norm_canon(t);
}

/// The star-normal-form property: no repetition anywhere in the tree wraps
/// a nullable concatenation.
pub open spec fn star_normal(t: Tree) -> bool
    decreases size_t(t), 0nat, 0nat,
{
    match t {
        Tree::Lit { .. } => true,
        Tree::Alt { branches } => star_normal_seq(branches),
        Tree::Cat { factors, .. } => star_normal_seq(factors),
        Tree::Star { body } => (match *body {
            Tree::Cat { factors, .. } => !all_null(factors),
            _ => true,
        }) && star_normal(*body),
    }
}

pub open spec fn star_normal_seq(s: Seq<Tree>) -> bool
    decreases size_all(s), 1nat, s.len(),
{
    if s.len() == 0 {
        true
    } else {
        star_normal(s[0]) && star_normal_seq(s.subrange(1, s.len() as int))
    }
}

/// Canonical trees are in star-normal form.
pub proof fn lemma_canon_star_normal(t: Tree)
    ensures
        canon_t(t) ==> star_normal(t),
        star_body_canon(t) ==> star_normal(t),
        star_elem(t) ==> star_normal(t),
    decreases size_t(t), 0nat, 0nat,
{
    match t {
        Tree::Lit { .. } => {},
        Tree::Alt { branches } => {
            lemma_canon_star_normal_seq(branches);
        },
        Tree::Cat { factors, .. } => {
            lemma_canon_star_normal_seq(factors);
        },
        Tree::Star { body } => {
            lemma_canon_star_normal(*body);
            if canon_t(t) {
                assert(star_body_canon(*body));
            }
        },
    }
}

pub proof fn lemma_canon_star_normal_seq(s: Seq<Tree>)
    ensures
        canon_branches(s) ==> star_normal_seq(s),
        canon_seq(s) ==> star_normal_seq(s),
        star_elems(s) ==> star_normal_seq(s),
    decreases size_all(s), 1nat, s.len(),
{
    if s.len() > 0 {
        lemma_canon_star_normal(s[0]);
        lemma_canon_star_normal_seq(s.subrange(1, s.len() as int));
    }
}

/// Normalization establishes the star-normal form: in `norm_t` of any tree,
/// no repetition's body is a nullable concatenation.
pub proof fn lemma_normalize_star_normal(t: Tree)
    ensures
        star_normal(norm_t(t)),
{
    lemma_norm_canon(t);
    lemma_canon_star_normal(norm_t(t));
}

/// `sp_concat_iter` over a run of ordinary characters consumes them all
/// into the pending literal run.
proof fn lemma_concat_iter_literal(s: Seq<char>, i: int, acc: Seq<Tree>, run: Seq<char>)
    requires
        0 <= i <= s.len(),
        forall|j: int|
            i <= j < s.len() ==> #[trigger] s[j] != '(' && s[j] != ')' && s[j] != '|' && s[j]
                != '*',
    ensures
        sp_concat_iter(s, i, acc, run) == (
            {
                let fs = flush(acc, run + s.subrange(i, s.len() as int));
                if fs.len() == 0 {
                    Ok::<Option<Tree>, crate::parser::ParseError>(None)
                } else {
                    Ok::<Option<Tree>, crate::parser::ParseError>(Some(cat_of(fs)))
                }
            },
            s.len() as int,
        ),
    decreases s.len() - i,
{
    if i == s.len() {
        assert(s.subrange(i, s.len() as int) =~= Seq::<char>::empty());
        assert(run + s.subrange(i, s.len() as int) =~= run);
    } else {
        lemma_concat_iter_literal(s, i + 1, acc, run.push(s[i]));
        assert(run.push(s[i]) + s.subrange(i + 1, s.len() as int) =~= run + s.subrange(
            i,
            s.len() as int,
        ));
    }
}

/// A pattern that is a single literal run parses to exactly the literal
/// node over its characters, and that node renders back to the very same
/// text: the round trip is the identity on such patterns.
pub proof fn lemma_literal_round_trip(s: Seq<char>)
    requires
        s.len() >= 1,
        forall|j: int|
            0 <= j < s.len() ==> #[trigger] s[j] != '(' && s[j] != ')' && s[j] != '|' && s[j]
                != '*',
    ensures
        crate::parser::sp_parse(s) == Ok::<Tree, crate::parser::ParseError>(
            Tree::Lit { text: s, paren: false },
        ),
        crate::render::render_t(Tree::Lit { text: s, paren: false }) == s,
{
    let lit = Tree::Lit { text: s, paren: false };
    lemma_concat_iter_literal(s, 0, Seq::empty(), Seq::empty());
    assert(Seq::<char>::empty() + s.subrange(0, s.len() as int) =~= s);
    let fs = flush(Seq::empty(), s);
    assert(fs =~= seq![lit]);
    assert(cat_of(fs) == lit);
    assert(crate::parser::sp_concat(s, 0) == (
        Ok::<Option<Tree>, crate::parser::ParseError>(Some(lit)),
        s.len() as int,
    ));
    let n = s.len() as int;
    assert(crate::parser::sp_unary_iter(s, n, Seq::empty(), lit) == (
        Ok::<Tree, crate::parser::ParseError>(cat_of(Seq::empty() + crate::parser::seg_factors(lit))),
        n,
    ));
    assert(Seq::<Tree>::empty() + crate::parser::seg_factors(lit) =~= seq![lit]);
    assert(crate::parser::sp_unary(s, 0) == (Ok::<Tree, crate::parser::ParseError>(lit), n));
    assert(crate::parser::alt_branches(lit) == seq![lit]);
    assert(crate::parser::sp_alt(s, 0) == (
        Ok::<Seq<Tree>, crate::parser::ParseError>(seq![lit]),
        n,
    ));
    assert(crate::parser::alt_of(seq![lit]) == lit);
}

} // verus!
