//! The syntax tree for patterns: literal runs, alternation, concatenation and
//! repetition, together with its mathematical model and the nullability
//! (does the node's language contain the empty word?) of every node.
use vstd::prelude::*;

verus! {

broadcast use vstd::seq::group_seq_axioms, vstd::std_specs::vec::group_vec_axioms;

/// A node of the pattern syntax tree.
///
/// `Alternation` and `Concatenation` cache their nullability, computed
/// incrementally while the tree is built; a `Literal` is never nullable and a
/// `Repetition` always is, so neither carries a flag.  The `parenthesized`
/// flags record whether the source text wrapped the node in parentheses; they
/// only drive re-rendering and carry no semantic weight.
#[derive(Debug, PartialEq, Eq)]
pub enum Regex {
    Literal { text: Vec<char>, parenthesized: bool },
    Alternation { branches: Vec<Regex>, nullable: bool },
    Concatenation { factors: Vec<Regex>, nullable: bool, parenthesized: bool },
    Repetition { body: Box<Regex> },
}

/// The mathematical model of a tree: the same four shapes, with sequences for
/// children and no cached nullability (the model derives it).
pub ghost enum Tree {
    Lit { text: Seq<char>, paren: bool },
    Alt { branches: Seq<Tree> },
    Cat { factors: Seq<Tree>, paren: bool },
    Star { body: Box<Tree> },
}

/// The model of an executable tree: drop the cached flags, keep the shape.
pub open spec fn view_rx(r: Regex) -> Tree
    decreases r,
{
    match r {
        Regex::Literal { text, parenthesized } => Tree::Lit { text: text@, paren: parenthesized },
        Regex::Alternation { branches, nullable } => Tree::Alt { branches: view_all(branches@) },
        Regex::Concatenation { factors, nullable, parenthesized } => Tree::Cat {
            factors: view_all(factors@),
            paren: parenthesized,
        },
        Regex::Repetition { body } => Tree::Star { body: Box::new(view_rx(*body)) },
    }
}

/// The models of a sequence of children, in order.
pub open spec fn view_all(s: Seq<Regex>) -> Seq<Tree>
    decreases s,
{
    if s.len() == 0 {
        Seq::empty()
    } else {
        seq![view_rx(s[0])] + view_all(s.subrange(1, s.len() as int))
    }
}

impl View for Regex {
    type V = Tree;

    open spec fn view(&self) -> Tree {
        view_rx(*self)
    }
}

/// The number of nodes in a tree; the measure for recursion over trees.
pub open spec fn size_t(t: Tree) -> nat
    decreases t,
{
    match t {
        Tree::Lit { .. } => 1,
        Tree::Alt { branches } => 1 + size_all(branches),
        Tree::Cat { factors, .. } => 1 + size_all(factors),
        Tree::Star { body } => 1 + size_t(*body),
    }
}

pub open spec fn size_all(s: Seq<Tree>) -> nat
    decreases s,
{
    if s.len() == 0 {
        0
    } else {
        size_t(s[0]) + size_all(s.subrange(1, s.len() as int))
    }
}

/// Whether a tree's language contains the empty word: a literal run never
/// does, a repetition always does, an alternation does iff some branch does,
/// a concatenation does iff every factor does.
pub open spec fn nullable_t(t: Tree) -> bool
    decreases size_t(t), 0nat,
{
    match t {
        Tree::Lit { .. } => false,
        Tree::Alt { branches } => any_null(branches),
        Tree::Cat { factors, .. } => all_null(factors),
        Tree::Star { .. } => true,
    }
}

pub open spec fn any_null(s: Seq<Tree>) -> bool
    decreases size_all(s), s.len(),
{
    if s.len() == 0 {
        false
    } else {
        nullable_t(s[0]) || any_null(s.subrange(1, s.len() as int))
    }
}

pub open spec fn all_null(s: Seq<Tree>) -> bool
    decreases size_all(s), s.len(),
{
    if s.len() == 0 {
        true
    } else {
        nullable_t(s[0]) && all_null(s.subrange(1, s.len() as int))
    }
}

/// An alternation is nullable iff some branch is.
pub broadcast proof fn lemma_any_null_exists(s: Seq<Tree>)
    ensures
        #[trigger] any_null(s) <==> exists|i: int|
            0 <= i < s.len() && nullable_t(#[trigger] s[i]),
    decreases s.len(),
{
    if s.len() > 0 {
        lemma_any_null_exists(s.subrange(1, s.len() as int));
        if !nullable_t(s[0]) && any_null(s) {
            let j = choose|i: int|
                0 <= i < s.subrange(1, s.len() as int).len() && nullable_t(
                    #[trigger] s.subrange(1, s.len() as int)[i],
                );
            assert(s[j + 1] == s.subrange(1, s.len() as int)[j]);
        }
        if exists|i: int| 0 <= i < s.len() && nullable_t(#[trigger] s[i]) {
            let j = choose|i: int| 0 <= i < s.len() && nullable_t(#[trigger] s[i]);
            if j > 0 {
                assert(s.subrange(1, s.len() as int)[j - 1] == s[j]);
            }
        }
    }
}

/// A concatenation is nullable iff every factor is.
pub broadcast proof fn lemma_all_null_forall(s: Seq<Tree>)
    ensures
        #[trigger] all_null(s) <==> forall|i: int|
            0 <= i < s.len() ==> nullable_t(#[trigger] s[i]),
    decreases s.len(),
{
    if s.len() > 0 {
        lemma_all_null_forall(s.subrange(1, s.len() as int));
        if all_null(s) {
            assert forall|i: int| 0 <= i < s.len() implies nullable_t(#[trigger] s[i]) by {
                if i > 0 {
                    assert(s.subrange(1, s.len() as int)[i - 1] == s[i]);
                }
            }
        }
        if forall|i: int| 0 <= i < s.len() ==> nullable_t(#[trigger] s[i]) {
            assert forall|i: int|
                0 <= i < s.subrange(1, s.len() as int).len() implies nullable_t(
                #[trigger] s.subrange(1, s.len() as int)[i],
            ) by {
                assert(s.subrange(1, s.len() as int)[i] == s[i + 1]);
            }
        }
    }
}

/// The cached nullability flags agree with the model, throughout the tree.
pub open spec fn flags_ok(r: Regex) -> bool
    decreases r,
{
    match r {
        Regex::Literal { .. } => true,
        Regex::Alternation { branches, nullable } => flags_all(branches@) && nullable == any_null(
            view_all(branches@),
        ),
        Regex::Concatenation { factors, nullable, .. } => flags_all(factors@) && nullable
            == all_null(view_all(factors@)),
        Regex::Repetition { body } => flags_ok(*body),
    }
}

pub open spec fn flags_all(s: Seq<Regex>) -> bool
    decreases s,
{
    if s.len() == 0 {
        true
    } else {
        flags_ok(s[0]) && flags_all(s.subrange(1, s.len() as int))
    }
}

pub broadcast proof fn lemma_view_all_index(s: Seq<Regex>, i: int)
    requires
        0 <= i < s.len(),
    ensures
        #[trigger] view_all(s)[i] == view_rx(s[i]),
        view_all(s).len() == s.len(),
    decreases s.len(),
{
    if i > 0 {
        lemma_view_all_index(s.subrange(1, s.len() as int), i - 1);
    } else {
        lemma_view_all_len(s);
    }
}

pub broadcast proof fn lemma_view_all_len(s: Seq<Regex>)
    ensures
        #[trigger] view_all(s).len() == s.len(),
    decreases s.len(),
{
    if s.len() > 0 {
        lemma_view_all_len(s.subrange(1, s.len() as int));
    }
}

pub broadcast proof fn lemma_view_all_push(s: Seq<Regex>, r: Regex)
    ensures
        #[trigger] view_all(s.push(r)) == view_all(s).push(view_rx(r)),
    decreases s.len(),
{
    reveal_with_fuel(view_all, 3);
    if s.len() == 0 {
        assert(s.push(r).subrange(1, 1) =~= Seq::<Regex>::empty());
        assert(view_all(s.push(r)) =~= view_all(s).push(view_rx(r)));
    } else {
        lemma_view_all_push(s.subrange(1, s.len() as int), r);
        assert(s.push(r).subrange(1, s.len() as int + 1) =~= s.subrange(1, s.len() as int).push(r));
        assert(s.push(r)[0] == s[0]);
        assert(view_all(s.push(r)) == seq![view_rx(s[0])] + view_all(
            s.subrange(1, s.len() as int),
        ).push(view_rx(r)));
        assert(view_all(s) == seq![view_rx(s[0])] + view_all(s.subrange(1, s.len() as int)));
        assert(view_all(s.push(r)) =~= view_all(s).push(view_rx(r)));
    }
}

pub broadcast proof fn lemma_flags_all_index(s: Seq<Regex>, i: int)
    requires
        0 <= i < s.len(),
        flags_all(s),
    ensures
        flags_ok(#[trigger] s[i]),
    decreases s.len(),
{
    if i > 0 {
        lemma_flags_all_index(s.subrange(1, s.len() as int), i - 1);
    }
}

pub broadcast proof fn lemma_flags_all_push(s: Seq<Regex>, r: Regex)
    ensures
        #[trigger] flags_all(s.push(r)) == (flags_all(s) && flags_ok(r)),
    decreases s.len(),
{
    reveal_with_fuel(flags_all, 3);
    if s.len() == 0 {
        assert(s.push(r).subrange(1, 1) =~= Seq::<Regex>::empty());
    } else {
        lemma_flags_all_push(s.subrange(1, s.len() as int), r);
        assert(s.push(r).subrange(1, s.len() as int + 1) =~= s.subrange(1, s.len() as int).push(r));
        assert(s.push(r)[0] == s[0]);
        assert(flags_all(s.push(r)) == (flags_ok(s[0]) && flags_all(
            s.subrange(1, s.len() as int).push(r),
        )));
        assert(flags_all(s) == (flags_ok(s[0]) && flags_all(s.subrange(1, s.len() as int))));
    }
}

/// Structural well-formedness: literal runs are non-empty; alternations and
/// concatenations have at least two children; no branch of an alternation is
/// itself an alternation; no factor of a concatenation is an un-parenthesized
/// concatenation; no repetition directly wraps a repetition.
pub open spec fn wf_t(t: Tree) -> bool
    decreases size_t(t), 0nat, 0nat,
{
    match t {
        Tree::Lit { text, .. } => text.len() >= 1,
        Tree::Alt { branches } => branches.len() >= 2 && wf_branches(branches),
        Tree::Cat { factors, .. } => factors.len() >= 2 && wf_factors(factors),
        Tree::Star { body } => wf_t(*body) && !(*body matches Tree::Star { .. }),
    }
}

/// A tree allowed as the branch of an alternation: well-formed, not an
/// alternation itself.
pub open spec fn branch_ok(t: Tree) -> bool
    decreases size_t(t), 1nat, 0nat,
{
    wf_t(t) && !(t matches Tree::Alt { .. })
}

/// A tree allowed as the factor of a concatenation: well-formed, not an
/// un-parenthesized concatenation.
pub open spec fn factor_ok(t: Tree) -> bool
    decreases size_t(t), 1nat, 0nat,
{
    wf_t(t) && !(t matches Tree::Cat { paren: false, .. })
}

pub open spec fn wf_branches(s: Seq<Tree>) -> bool
    decreases size_all(s), 2nat, s.len(),
{
    if s.len() == 0 {
        true
    } else {
        branch_ok(s[0]) && wf_branches(s.subrange(1, s.len() as int))
    }
}

pub open spec fn wf_factors(s: Seq<Tree>) -> bool
    decreases size_all(s), 2nat, s.len(),
{
    if s.len() == 0 {
        true
    } else {
        factor_ok(s[0]) && wf_factors(s.subrange(1, s.len() as int))
    }
}

pub broadcast proof fn lemma_wf_branches_forall(s: Seq<Tree>)
    ensures
        #[trigger] wf_branches(s) <==> forall|i: int| 0 <= i < s.len() ==> branch_ok(#[trigger] s[i]),
    decreases s.len(),
{
    if s.len() > 0 {
        lemma_wf_branches_forall(s.subrange(1, s.len() as int));
        assert(forall|i: int|
            1 <= i < s.len() ==> s.subrange(1, s.len() as int)[i - 1] == #[trigger] s[i]);
        assert(forall|i: int|
            0 <= i < s.len() - 1 ==> #[trigger] s.subrange(1, s.len() as int)[i] == s[i + 1]);
    }
}

pub broadcast proof fn lemma_wf_factors_forall(s: Seq<Tree>)
    ensures
        #[trigger] wf_factors(s) <==> forall|i: int| 0 <= i < s.len() ==> factor_ok(#[trigger] s[i]),
    decreases s.len(),
{
    if s.len() > 0 {
        lemma_wf_factors_forall(s.subrange(1, s.len() as int));
        assert(forall|i: int|
            1 <= i < s.len() ==> s.subrange(1, s.len() as int)[i - 1] == #[trigger] s[i]);
        assert(forall|i: int|
            0 <= i < s.len() - 1 ==> #[trigger] s.subrange(1, s.len() as int)[i] == s[i + 1]);
    }
}

/// Nullability of a concatenation of two runs of branches.
pub proof fn lemma_any_null_concat(a: Seq<Tree>, b: Seq<Tree>)
    ensures
        any_null(a + b) == (any_null(a) || any_null(b)),
{
    lemma_any_null_exists(a);
    lemma_any_null_exists(b);
    lemma_any_null_exists(a + b);
    if any_null(a) {
        let i = choose|i: int| 0 <= i < a.len() && nullable_t(#[trigger] a[i]);
        assert((a + b)[i] == a[i]);
    }
    if any_null(b) {
        let i = choose|i: int| 0 <= i < b.len() && nullable_t(#[trigger] b[i]);
        assert((a + b)[a.len() + i] == b[i]);
    }
    if any_null(a + b) {
        let i = choose|i: int| 0 <= i < (a + b).len() && nullable_t(#[trigger] (a + b)[i]);
        if i < a.len() {
            assert((a + b)[i] == a[i]);
        } else {
            assert((a + b)[i] == b[i - a.len()]);
        }
    }
}

pub proof fn lemma_all_null_concat(a: Seq<Tree>, b: Seq<Tree>)
    ensures
        all_null(a + b) == (all_null(a) && all_null(b)),
{
    lemma_all_null_forall(a);
    lemma_all_null_forall(b);
    lemma_all_null_forall(a + b);
    assert(forall|i: int| 0 <= i < a.len() ==> (a + b)[i] == #[trigger] a[i]);
    assert(forall|i: int| 0 <= i < b.len() ==> (a + b)[a.len() + i] == #[trigger] b[i]);
    if all_null(a) && all_null(b) {
        assert forall|i: int| 0 <= i < (a + b).len() implies nullable_t(#[trigger] (a + b)[i]) by {
            if i < a.len() {
                assert((a + b)[i] == a[i]);
            } else {
                assert((a + b)[i] == b[i - a.len()]);
            }
        }
    }
}

pub proof fn lemma_view_all_concat(a: Seq<Regex>, b: Seq<Regex>)
    ensures
        view_all(a + b) == view_all(a) + view_all(b),
    decreases a.len(),
{
    lemma_view_all_len(a);
    lemma_view_all_len(b);
    lemma_view_all_len(a + b);
    if a.len() == 0 {
        assert(a + b =~= b);
        assert(view_all(a + b) =~= view_all(a) + view_all(b));
    } else {
        lemma_view_all_concat(a.subrange(1, a.len() as int), b);
        assert((a + b).subrange(1, (a + b).len() as int) =~= a.subrange(1, a.len() as int) + b);
        assert((a + b)[0] == a[0]);
        assert(view_all(a + b) == seq![view_rx(a[0])] + (view_all(a.subrange(1, a.len() as int))
            + view_all(b)));
        assert(view_all(a + b) =~= view_all(a) + view_all(b));
    }
}

pub proof fn lemma_flags_all_concat(a: Seq<Regex>, b: Seq<Regex>)
    ensures
        flags_all(a + b) == (flags_all(a) && flags_all(b)),
    decreases a.len(),
{
    if a.len() == 0 {
        assert(a + b =~= b);
    } else {
        lemma_flags_all_concat(a.subrange(1, a.len() as int), b);
        assert((a + b).subrange(1, (a + b).len() as int) =~= a.subrange(1, a.len() as int) + b);
        assert((a + b)[0] == a[0]);
    }
}

pub broadcast proof fn lemma_flags_all_forall(s: Seq<Regex>)
    ensures
        #[trigger] flags_all(s) <==> forall|i: int| 0 <= i < s.len() ==> flags_ok(#[trigger] s[i]),
    decreases s.len(),
{
    if s.len() > 0 {
        lemma_flags_all_forall(s.subrange(1, s.len() as int));
        assert(forall|i: int|
            1 <= i < s.len() ==> s.subrange(1, s.len() as int)[i - 1] == #[trigger] s[i]);
        assert(forall|i: int|
            0 <= i < s.len() - 1 ==> #[trigger] s.subrange(1, s.len() as int)[i] == s[i + 1]);
    }
}

pub proof fn lemma_size_t_pos(t: Tree)
    ensures
        size_t(t) >= 1,
{
    match t {
        Tree::Lit { .. } => {},
        Tree::Alt { .. } => {},
        Tree::Cat { .. } => {},
        Tree::Star { .. } => {},
    }
}

pub proof fn lemma_size_all_elem(s: Seq<Tree>, i: int)
    requires
        0 <= i < s.len(),
    ensures
        size_t(s[i]) <= size_all(s),
    decreases s.len(),
{
    if i > 0 {
        lemma_size_all_elem(s.subrange(1, s.len() as int), i - 1);
    }
}

pub proof fn lemma_all_null_push(s: Seq<Tree>, t: Tree)
    ensures
        all_null(s.push(t)) == (all_null(s) && nullable_t(t)),
{
    lemma_all_null_forall(s);
    lemma_all_null_forall(s.push(t));
    assert(s.push(t)[s.len() as int] == t);
    assert(forall|i: int| 0 <= i < s.len() ==> s.push(t)[i] == #[trigger] s[i]);
    if all_null(s) && nullable_t(t) {
        assert forall|i: int| 0 <= i < s.push(t).len() implies nullable_t(
            #[trigger] s.push(t)[i],
        ) by {
            if i < s.len() {
                assert(s.push(t)[i] == s[i]);
            }
        }
    }
}

pub proof fn lemma_any_null_push(s: Seq<Tree>, t: Tree)
    ensures
        any_null(s.push(t)) == (any_null(s) || nullable_t(t)),
{
    lemma_any_null_exists(s);
    lemma_any_null_exists(s.push(t));
    assert(s.push(t)[s.len() as int] == t);
    if any_null(s) {
        let i = choose|i: int| 0 <= i < s.len() && nullable_t(#[trigger] s[i]);
        assert(s.push(t)[i] == s[i]);
    }
    if any_null(s.push(t)) {
        let i = choose|i: int| 0 <= i < s.push(t).len() && nullable_t(#[trigger] s.push(t)[i]);
        if i < s.len() {
            assert(s.push(t)[i] == s[i]);
        } else {
            assert(s.push(t)[i] == t);
        }
    }
}

pub proof fn lemma_view_all_subrange(s: Seq<Regex>, a: int, b: int)
    requires
        0 <= a <= b <= s.len(),
    ensures
        view_all(s.subrange(a, b)) == view_all(s).subrange(a, b),
{
    assert forall|i: int| 0 <= i < b - a implies view_all(s.subrange(a, b))[i] == view_all(
        s,
    ).subrange(a, b)[i] by {
        lemma_view_all_index(s.subrange(a, b), i);
        lemma_view_all_index(s, a + i);
    }
    lemma_view_all_len(s.subrange(a, b));
    lemma_view_all_len(s);
    assert(view_all(s.subrange(a, b)) =~= view_all(s).subrange(a, b));
}

impl Regex {
    /// Whether this node's language contains the empty word, read from the
    /// node itself: the cached flag where one is stored, the constant
    /// otherwise.
    pub fn is_nullable(&self) -> (b: bool)
        requires
            flags_ok(*self),
        ensures
            b == nullable_t(self@),
    {
        match self {
            Regex::Literal { .. } => false,
            Regex::Alternation { nullable, .. } => *nullable,
            Regex::Concatenation { nullable, .. } => *nullable,
            Regex::Repetition { .. } => true,
        }
    }
}

} // verus!
