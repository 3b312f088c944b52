//! An edit script between two sequences of documents, found by way of
//! their longest common subsequence.

use vstd::prelude::*;
use vstd::std_specs::cmp::PartialEqSpec;
use crate::value::{lemma_values_view, values_view, Json, Value};

verus! {

/// One step of an edit script: a value to put in, or one to take out.
#[derive(Debug)]
pub enum VecDifference {
    Addition(Value),
    Removal(Value),
}

/// The model of a [`VecDifference`].
pub enum VecDifferenceView {
    Addition(Json),
    Removal(Json),
}

impl View for VecDifference {
    type V = VecDifferenceView;

    open spec fn view(&self) -> VecDifferenceView {
        match self {
            VecDifference::Addition(value) => VecDifferenceView::Addition(value@),
            VecDifference::Removal(value) => VecDifferenceView::Removal(value@),
        }
    }
}

impl PartialEq for VecDifference {
    fn eq(&self, other: &Self) -> (same: bool) {
        match self {
            VecDifference::Addition(a) => match other {
                VecDifference::Addition(b) => *a == *b,
                _ => false,
            },
            VecDifference::Removal(a) => match other {
                VecDifference::Removal(b) => *a == *b,
                _ => false,
            },
        }
    }
}

impl vstd::std_specs::cmp::PartialEqSpecImpl for VecDifference {
    open spec fn obeys_eq_spec() -> bool {
        true
    }

    open spec fn eq_spec(&self, other: &Self) -> bool {
        self@ == other@
    }
}

impl Eq for VecDifference {

}

/// The models of a sequence of steps.
pub open spec fn differences_view(steps: Seq<VecDifference>) -> Seq<VecDifferenceView> {
    steps.map_values(|d: VecDifference| d@)
}

/// The relation that `==` decides on `T`.
pub open spec fn eq_of<T: PartialEq>() -> spec_fn(T, T) -> bool {
    |x: T, y: T| x.eq_spec(&y)
}

/// Equality of documents.
pub open spec fn json_eq() -> spec_fn(Json, Json) -> bool {
    |x: Json, y: Json| x == y
}

/// The length of a longest common subsequence of `a` and `b`, where `same`
/// says which elements match: nothing is common with an empty sequence;
/// two last elements that match extend what the rest has in common by one;
/// otherwise one of the two last elements is left out, whichever leaves
/// more in common.
pub open spec fn lcs_len<T>(a: Seq<T>, b: Seq<T>, same: spec_fn(T, T) -> bool) -> nat
    decreases a.len() + b.len(),
{
    if a.len() == 0 || b.len() == 0 {
        0
    } else if same(a.last(), b.last()) {
        lcs_len(a.drop_last(), b.drop_last(), same) + 1
    } else {
        let without_a = lcs_len(a.drop_last(), b, same);
        let without_b = lcs_len(a, b.drop_last(), same);
        if without_a >= without_b {
            without_a
        } else {
            without_b
        }
    }
}

/// What two sequences have in common is no longer than the first.
pub proof fn lemma_lcs_len_bound<T>(a: Seq<T>, b: Seq<T>, same: spec_fn(T, T) -> bool)
    ensures
        lcs_len(a, b, same) <= a.len(),
    decreases a.len() + b.len(),
{
    if a.len() > 0 && b.len() > 0 {
        lemma_lcs_len_bound(a.drop_last(), b.drop_last(), same);
        lemma_lcs_len_bound(a.drop_last(), b, same);
        lemma_lcs_len_bound(a, b.drop_last(), same);
    }
}

/// The length of a longest common subsequence depends only on which
/// positions of the two sequences match.
pub proof fn lemma_lcs_len_by_matches<A, B>(
    a: Seq<A>,
    b: Seq<A>,
    f: spec_fn(A, A) -> bool,
    c: Seq<B>,
    d: Seq<B>,
    g: spec_fn(B, B) -> bool,
)
    requires
        a.len() == c.len(),
        b.len() == d.len(),
        forall|i: int, j: int|
            0 <= i < a.len() && 0 <= j < b.len() ==> f(a[i], b[j]) == g(c[i], d[j]),
    ensures
        lcs_len(a, b, f) == lcs_len(c, d, g),
    decreases a.len() + b.len(),
{
    if a.len() > 0 && b.len() > 0 {
        assert(f(a[a.len() - 1], b[b.len() - 1]) == g(c[c.len() - 1], d[d.len() - 1]));
        lemma_lcs_len_by_matches(a.drop_last(), b.drop_last(), f, c.drop_last(), d.drop_last(), g);
        lemma_lcs_len_by_matches(a.drop_last(), b, f, c.drop_last(), d, g);
        lemma_lcs_len_by_matches(a, b.drop_last(), f, c, d.drop_last(), g);
    }
}

/// The table of the lengths of the longest common subsequences of the
/// prefixes of `l1` and `l2`: the entry in row `i` and column `j` is for the
/// first `i` elements of `l1` and the first `j` of `l2`.
pub fn longest_common_subsequence<T: Eq>(l1: &[T], l2: &[T]) -> (grid: Vec<Vec<usize>>)
    requires
        l1@.len() < usize::MAX,
        l2@.len() < usize::MAX,
    ensures
        grid@.len() == l1@.len() + 1,
        forall|i: int| 0 <= i <= l1@.len() ==> (#[trigger] grid@[i])@.len() == l2@.len() + 1,
        T::obeys_eq_spec() ==> forall|i: int, j: int|
            0 <= i <= l1@.len() && 0 <= j <= l2@.len() ==> (#[trigger] grid@[i]@[j]) == lcs_len(
                l1@.take(i),
                l2@.take(j),
                eq_of::<T>(),
            ),
{
    let n = l1.len();
    let m = l2.len();
    let mut grid: Vec<Vec<usize>> = Vec::new();
    let mut i: usize = 0;
    while i <= n
        invariant
            n == l1@.len(),
            m == l2@.len(),
            n < usize::MAX,
            m < usize::MAX,
            i <= n + 1,
            grid@.len() == i,
            forall|r: int| 0 <= r < i ==> (#[trigger] grid@[r])@.len() == m + 1,
            forall|r: int, c: int| 0 <= r < i && 0 <= c <= m ==> (#[trigger] grid@[r]@[c]) <= r,
            T::obeys_eq_spec() ==> forall|r: int, c: int|
                0 <= r < i && 0 <= c <= m ==> (#[trigger] grid@[r]@[c]) == lcs_len(
                    l1@.take(r),
                    l2@.take(c),
                    eq_of::<T>(),
                ),
        decreases n + 1 - i,
    {
        let mut row: Vec<usize> = Vec::new();
        let mut j: usize = 0;
        while j <= m
            invariant
                n == l1@.len(),
                m == l2@.len(),
                n < usize::MAX,
                m < usize::MAX,
                i <= n,
                j <= m + 1,
                grid@.len() == i,
                row@.len() == j,
                forall|r: int| 0 <= r < i ==> (#[trigger] grid@[r])@.len() == m + 1,
                forall|r: int, c: int|
                    0 <= r < i && 0 <= c <= m ==> (#[trigger] grid@[r]@[c]) <= r,
                forall|c: int| 0 <= c < j ==> (#[trigger] row@[c]) <= i,
                T::obeys_eq_spec() ==> forall|r: int, c: int|
                    0 <= r < i && 0 <= c <= m ==> (#[trigger] grid@[r]@[c]) == lcs_len(
                        l1@.take(r),
                        l2@.take(c),
                        eq_of::<T>(),
                    ),
                T::obeys_eq_spec() ==> forall|c: int|
                    0 <= c < j ==> (#[trigger] row@[c]) == lcs_len(
                        l1@.take(i as int),
                        l2@.take(c),
                        eq_of::<T>(),
                    ),
            decreases m + 1 - j,
        {
            let ghost a = l1@.take(i as int);
            let ghost b = l2@.take(j as int);
            let cell: usize = if i == 0 || j == 0 {
                0
            } else {
                proof {
                    assert(a.drop_last() =~= l1@.take(i - 1));
                    assert(b.drop_last() =~= l2@.take(j - 1));
                    assert(a.last() == l1@[i - 1]);
                    assert(b.last() == l2@[j - 1]);
                    assert(grid@[i - 1]@[j - 1] <= i - 1);
                }
                if l1[i - 1] == l2[j - 1] {
                    1 + grid[i - 1][j - 1]
                } else {
                    let up = grid[i - 1][j];
                    let left = row[j - 1];
                    if up >= left {
                        up
                    } else {
                        left
                    }
                }
            };
            row.push(cell);
            j += 1;
        }
        grid.push(row);
        i += 1;
    }
    grid
}

/// The edit script from `before` to `after`, read off their table from the
/// ends of both toward their starts. Two last elements that are equal are
/// passed over. Otherwise the last element of `after` is an addition where
/// leaving out the last of `before` keeps no more in common than leaving
/// out the last of `after`, and the last element of `before` is a removal
/// where it keeps more. Once one sequence is used up, what is left of the
/// other is added or removed.
pub open spec fn edit_script(before: Seq<Json>, after: Seq<Json>) -> Seq<VecDifferenceView>
    decreases before.len() + after.len(),
{
    if before.len() == 0 && after.len() == 0 {
        Seq::empty()
    } else if before.len() == 0 {
        seq![VecDifferenceView::Addition(after.last())] + edit_script(before, after.drop_last())
    } else if after.len() == 0 {
        seq![VecDifferenceView::Removal(before.last())] + edit_script(before.drop_last(), after)
    } else if before.last() == after.last() {
        edit_script(before.drop_last(), after.drop_last())
    } else if lcs_len(before.drop_last(), after, json_eq()) <= lcs_len(
        before,
        after.drop_last(),
        json_eq(),
    ) {
        seq![VecDifferenceView::Addition(after.last())] + edit_script(before, after.drop_last())
    } else {
        seq![VecDifferenceView::Removal(before.last())] + edit_script(before.drop_last(), after)
    }
}

/// On documents, what `==` decides has in common what document equality
/// has.
proof fn lemma_lcs_len_of_values(a: Seq<Value>, b: Seq<Value>)
    ensures
        lcs_len(a, b, eq_of::<Value>()) == lcs_len(values_view(a), values_view(b), json_eq()),
{
    lemma_values_view(a);
    lemma_values_view(b);
    lemma_lcs_len_by_matches(a, b, eq_of::<Value>(), values_view(a), values_view(b), json_eq());
}

/// Computes the edit script from `before` to `after`.
pub fn diff(before: &[Value], after: &[Value]) -> (script: Vec<VecDifference>)
    requires
        before@.len() < usize::MAX,
        after@.len() < usize::MAX,
    ensures
        differences_view(script@) == edit_script(values_view(before@), values_view(after@)),
{
    let lcs_grid = longest_common_subsequence(before, after);
    let mut results: Vec<VecDifference> = Vec::new();
    let mut i: usize = before.len();
    let mut j: usize = after.len();
    let ghost b = values_view(before@);
    let ghost a = values_view(after@);
    proof {
        lemma_values_view(before@);
        lemma_values_view(after@);
        assert(b.take(i as int) =~= b);
        assert(a.take(j as int) =~= a);
        assert(differences_view(results@) + edit_script(b, a) =~= edit_script(b, a));
    }
    while i != 0 || j != 0
        invariant
            i <= before@.len(),
            j <= after@.len(),
            b == values_view(before@),
            a == values_view(after@),
            b.len() == before@.len(),
            a.len() == after@.len(),
            forall|k: int| 0 <= k < b.len() ==> #[trigger] b[k] == before@[k]@,
            forall|k: int| 0 <= k < a.len() ==> #[trigger] a[k] == after@[k]@,
            lcs_grid@.len() == before@.len() + 1,
            forall|r: int|
                0 <= r <= before@.len() ==> (#[trigger] lcs_grid@[r])@.len() == after@.len() + 1,
            forall|r: int, c: int|
                0 <= r <= before@.len() && 0 <= c <= after@.len() ==> (
                #[trigger] lcs_grid@[r]@[c]) == lcs_len(
                    before@.take(r),
                    after@.take(c),
                    eq_of::<Value>(),
                ),
            differences_view(results@) + edit_script(b.take(i as int), a.take(j as int))
                == edit_script(b, a),
        decreases i + j,
    {
        let ghost bi = b.take(i as int);
        let ghost aj = a.take(j as int);
        let ghost had = differences_view(results@);
        proof {
            if i > 0 {
                assert(bi.drop_last() =~= b.take(i - 1));
                assert(bi.last() == before@[i - 1]@);
            }
            if j > 0 {
                assert(aj.drop_last() =~= a.take(j - 1));
                assert(aj.last() == after@[j - 1]@);
            }
            if i > 0 && j > 0 {
                lemma_lcs_len_of_values(before@.take(i - 1), after@.take(j as int));
                lemma_lcs_len_of_values(before@.take(i as int), after@.take(j - 1));
                lemma_values_take(before@, i - 1);
                lemma_values_take(before@, i as int);
                lemma_values_take(after@, j - 1);
                lemma_values_take(after@, j as int);
            }
        }
        if i == 0 {
            results.push(VecDifference::Addition(after[j - 1].clone()));
            proof {
                assert(differences_view(results@) =~= had.push(
                    VecDifferenceView::Addition(aj.last()),
                ));
                assert(differences_view(results@) + edit_script(bi, aj.drop_last()) =~= had
                    + edit_script(bi, aj));
            }
            j -= 1;
        } else if j == 0 {
            results.push(VecDifference::Removal(before[i - 1].clone()));
            proof {
                assert(differences_view(results@) =~= had.push(
                    VecDifferenceView::Removal(bi.last()),
                ));
                assert(differences_view(results@) + edit_script(bi.drop_last(), aj) =~= had
                    + edit_script(bi, aj));
            }
            i -= 1;
        } else if before[i - 1] == after[j - 1] {
            i -= 1;
            j -= 1;
        } else if lcs_grid[i - 1][j] <= lcs_grid[i][j - 1] {
            results.push(VecDifference::Addition(after[j - 1].clone()));
            proof {
                assert(differences_view(results@) =~= had.push(
                    VecDifferenceView::Addition(aj.last()),
                ));
                assert(differences_view(results@) + edit_script(bi, aj.drop_last()) =~= had
                    + edit_script(bi, aj));
            }
            j -= 1;
        } else {
            results.push(VecDifference::Removal(before[i - 1].clone()));
            proof {
                assert(differences_view(results@) =~= had.push(
                    VecDifferenceView::Removal(bi.last()),
                ));
                assert(differences_view(results@) + edit_script(bi.drop_last(), aj) =~= had
                    + edit_script(bi, aj));
            }
            i -= 1;
        }
    }
    proof {
        assert(b.take(0) =~= Seq::<Json>::empty());
        assert(a.take(0) =~= Seq::<Json>::empty());
        assert(differences_view(results@) + Seq::<VecDifferenceView>::empty()
            =~= differences_view(results@));
    }
    results
}

/// The models of a prefix are the prefix of the models.
proof fn lemma_values_take(items: Seq<Value>, k: int)
    requires
        0 <= k <= items.len(),
    ensures
        values_view(items.take(k)) == values_view(items).take(k),
{
    lemma_values_view(items);
    lemma_values_view(items.take(k));
    assert(values_view(items.take(k)) =~= values_view(items).take(k));
}

} // verus!
