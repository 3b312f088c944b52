//! The table of `longest_common_subsequence` holds what its name says:
//! the length of a longest common subsequence.

use vstd::prelude::*;
use crate::diff::diff_vecs::{edit_script, json_eq, lcs_len, VecDifferenceView};
use crate::value::Json;

verus! {

/// Whether `picks` are increasing positions in a sequence of length `len`.
pub open spec fn increasing_within(picks: Seq<int>, len: nat) -> bool {
    &&& forall|t: int| 0 <= t < picks.len() ==> 0 <= #[trigger] picks[t] < len
    &&& forall|s: int, t: int| 0 <= s < t < picks.len() ==> picks[s] < picks[t]
}

/// Whether the elements of `a` at the positions `in_a` and those of `b` at
/// the positions `in_b` are a common subsequence: as many in the one as in
/// the other, in increasing positions, and matching pair by pair.
pub open spec fn common_subsequence<T>(
    a: Seq<T>,
    b: Seq<T>,
    same: spec_fn(T, T) -> bool,
    in_a: Seq<int>,
    in_b: Seq<int>,
) -> bool {
    &&& in_a.len() == in_b.len()
    &&& increasing_within(in_a, a.len())
    &&& increasing_within(in_b, b.len())
    &&& forall|t: int| 0 <= t < in_a.len() ==> same(a[#[trigger] in_a[t]], b[in_b[t]])
}

/// No common subsequence is longer than `lcs_len` says.
pub proof fn lemma_lcs_len_is_most<T>(
    a: Seq<T>,
    b: Seq<T>,
    same: spec_fn(T, T) -> bool,
    in_a: Seq<int>,
    in_b: Seq<int>,
)
    requires
        common_subsequence(a, b, same, in_a, in_b),
    ensures
        in_a.len() <= lcs_len(a, b, same),
    decreases a.len() + b.len(),
{
    if in_a.len() > 0 {
        let last = in_a.len() - 1;
        assert(0 <= in_a[last] < a.len());
        assert(0 <= in_b[last] < b.len());
        let shorter_a = a.drop_last();
        let shorter_b = b.drop_last();
        if same(a.last(), b.last()) {
            let rest_a = in_a.drop_last();
            let rest_b = in_b.drop_last();
            assert(common_subsequence(shorter_a, shorter_b, same, rest_a, rest_b)) by {
                assert forall|t: int| 0 <= t < rest_a.len() implies 0 <= #[trigger] rest_a[t]
                    < shorter_a.len() by {
                    assert(in_a[t] < in_a[last]);
                }
                assert forall|t: int| 0 <= t < rest_b.len() implies 0 <= #[trigger] rest_b[t]
                    < shorter_b.len() by {
                    assert(in_b[t] < in_b[last]);
                }
                assert forall|t: int| 0 <= t < rest_a.len() implies same(
                    shorter_a[#[trigger] rest_a[t]],
                    shorter_b[rest_b[t]],
                ) by {
                    assert(in_a[t] < in_a[last]);
                    assert(in_b[t] < in_b[last]);
                    assert(same(a[in_a[t]], b[in_b[t]]));
                }
            }
            lemma_lcs_len_is_most(shorter_a, shorter_b, same, rest_a, rest_b);
        } else if in_a[last] < a.len() - 1 {
            assert(common_subsequence(shorter_a, b, same, in_a, in_b)) by {
                assert forall|t: int| 0 <= t < in_a.len() implies 0 <= #[trigger] in_a[t]
                    < shorter_a.len() by {
                    if t < last {
                        assert(in_a[t] < in_a[last]);
                    }
                }
                assert forall|t: int| 0 <= t < in_a.len() implies same(
                    shorter_a[#[trigger] in_a[t]],
                    b[in_b[t]],
                ) by {
                    if t < last {
                        assert(in_a[t] < in_a[last]);
                    }
                    assert(same(a[in_a[t]], b[in_b[t]]));
                }
            }
            lemma_lcs_len_is_most(shorter_a, b, same, in_a, in_b);
        } else {
            assert(same(a[in_a[last]], b[in_b[last]]));
            assert(in_b[last] < b.len() - 1);
            assert(common_subsequence(a, shorter_b, same, in_a, in_b)) by {
                assert forall|t: int| 0 <= t < in_b.len() implies 0 <= #[trigger] in_b[t]
                    < shorter_b.len() by {
                    if t < last {
                        assert(in_b[t] < in_b[last]);
                    }
                }
                assert forall|t: int| 0 <= t < in_a.len() implies same(
                    a[#[trigger] in_a[t]],
                    shorter_b[in_b[t]],
                ) by {
                    if t < last {
                        assert(in_b[t] < in_b[last]);
                    }
                    assert(same(a[in_a[t]], b[in_b[t]]));
                }
            }
            lemma_lcs_len_is_most(a, shorter_b, same, in_a, in_b);
        }
    }
}

/// There is a common subsequence as long as `lcs_len` says: the positions
/// that this function returns.
pub proof fn lemma_lcs_len_is_reached<T>(a: Seq<T>, b: Seq<T>, same: spec_fn(T, T) -> bool) -> (picks:
    (Seq<int>, Seq<int>))
    ensures
        common_subsequence(a, b, same, picks.0, picks.1),
        picks.0.len() == lcs_len(a, b, same),
    decreases a.len() + b.len(),
{
    if a.len() == 0 || b.len() == 0 {
        (Seq::empty(), Seq::empty())
    } else if same(a.last(), b.last()) {
        let shorter = lemma_lcs_len_is_reached(a.drop_last(), b.drop_last(), same);
        let in_a = shorter.0.push(a.len() - 1);
        let in_b = shorter.1.push(b.len() - 1);
        assert forall|t: int| 0 <= t < in_a.len() implies same(a[#[trigger] in_a[t]], b[in_b[t]]) by {
            if t < shorter.0.len() {
                assert(in_a[t] == shorter.0[t]);
                assert(same(a.drop_last()[shorter.0[t]], b.drop_last()[shorter.1[t]]));
            }
        }
        assert(increasing_within(in_a, a.len())) by {
            assert forall|s: int, t: int| 0 <= s < t < in_a.len() implies in_a[s] < in_a[t] by {
                assert(0 <= shorter.0[s] < a.len() - 1);
            }
        }
        assert(increasing_within(in_b, b.len())) by {
            assert forall|s: int, t: int| 0 <= s < t < in_b.len() implies in_b[s] < in_b[t] by {
                assert(0 <= shorter.1[s] < b.len() - 1);
            }
        }
        (in_a, in_b)
    } else if lcs_len(a.drop_last(), b, same) >= lcs_len(a, b.drop_last(), same) {
        let picks = lemma_lcs_len_is_reached(a.drop_last(), b, same);
        assert forall|t: int| 0 <= t < picks.0.len() implies same(
            a[#[trigger] picks.0[t]],
            b[picks.1[t]],
        ) by {
            assert(same(a.drop_last()[picks.0[t]], b[picks.1[t]]));
        }
        picks
    } else {
        let picks = lemma_lcs_len_is_reached(a, b.drop_last(), same);
        assert forall|t: int| 0 <= t < picks.0.len() implies same(
            a[#[trigger] picks.0[t]],
            b[picks.1[t]],
        ) by {
            assert(0 <= picks.1[t] < b.len() - 1);
            assert(same(a[picks.0[t]], b.drop_last()[picks.1[t]]));
        }
        picks
    }
}

/// The number of removals in a script.
pub open spec fn removals_in(script: Seq<VecDifferenceView>) -> nat
    decreases script.len(),
{
    if script.len() == 0 {
        0
    } else {
        removals_in(script.drop_first()) + (if script[0] is Removal {
            1nat
        } else {
            0nat
        })
    }
}

/// The number of additions in a script.
pub open spec fn additions_in(script: Seq<VecDifferenceView>) -> nat
    decreases script.len(),
{
    if script.len() == 0 {
        0
    } else {
        additions_in(script.drop_first()) + (if script[0] is Addition {
            1nat
        } else {
            0nat
        })
    }
}

/// The edit script takes out of `before` and puts into `after` exactly what
/// a longest common subsequence leaves over: it removes as many elements as
/// `before` has beyond it and adds as many as `after` has beyond it, so no
/// script of additions and removals is shorter.
pub proof fn lemma_edit_script_is_minimal(before: Seq<Json>, after: Seq<Json>)
    ensures
        removals_in(edit_script(before, after)) == before.len() - lcs_len(
            before,
            after,
            json_eq(),
        ),
        additions_in(edit_script(before, after)) == after.len() - lcs_len(
            before,
            after,
            json_eq(),
        ),
    decreases before.len() + after.len(),
{
    let script = edit_script(before, after);
    if before.len() == 0 && after.len() == 0 {
    } else if before.len() == 0 {
        lemma_edit_script_is_minimal(before, after.drop_last());
        let rest = edit_script(before, after.drop_last());
        assert(script.drop_first() =~= rest);
        assert(script[0] is Addition);
    } else if after.len() == 0 {
        lemma_edit_script_is_minimal(before.drop_last(), after);
        let rest = edit_script(before.drop_last(), after);
        assert(script.drop_first() =~= rest);
        assert(script[0] is Removal);
    } else if before.last() == after.last() {
        lemma_edit_script_is_minimal(before.drop_last(), after.drop_last());
        assert(json_eq()(before.last(), after.last()));
    } else if lcs_len(before.drop_last(), after, json_eq()) <= lcs_len(
        before,
        after.drop_last(),
        json_eq(),
    ) {
        lemma_edit_script_is_minimal(before, after.drop_last());
        let rest = edit_script(before, after.drop_last());
        assert(script.drop_first() =~= rest);
        assert(script[0] is Addition);
        assert(!json_eq()(before.last(), after.last()));
    } else {
        lemma_edit_script_is_minimal(before.drop_last(), after);
        let rest = edit_script(before.drop_last(), after);
        assert(script.drop_first() =~= rest);
        assert(script[0] is Removal);
        assert(!json_eq()(before.last(), after.last()));
    }
}

} // verus!
