use crate::ledger::next_score;
use vstd::prelude::*;

verus! {

/// The score a freshly created record holds after the values of `vals` are
/// submitted for it in order: `create` starts the record at zero, and each
/// successful `submit` of a value `v` turns a score `s` into
/// `next_score(s, v)`, as the contracts of `Ledger::create`,
/// `Ledger::submit` and `ScoreRecord::submit_score` state.
pub open spec fn final_score(vals: Seq<u32>) -> u32
    decreases vals.len(),
{
    if vals.len() == 0 {
        0
    } else {
        next_score(final_score(vals.drop_last()), vals.last())
    }
}

/// After `create(p)` and any run of successful `submit(p, ..)` calls with
/// the values `vals`, the record's score is the maximum of zero and the
/// submitted values: no submitted value exceeds it, and it is either zero
/// or one of the submitted values.
pub proof fn lemma_final_score_is_max(vals: Seq<u32>)
    ensures
        forall|i: int| 0 <= i < vals.len() ==> vals[i] <= final_score(vals),
        final_score(vals) == 0 || exists|i: int|
            0 <= i < vals.len() && vals[i] == final_score(vals),
    decreases vals.len(),
{
    if vals.len() > 0 {
        let prefix = vals.drop_last();
        lemma_final_score_is_max(prefix);
        let prev = final_score(prefix);
        assert forall|i: int| 0 <= i < vals.len() implies vals[i] <= final_score(vals) by {
            if i < prefix.len() {
                assert(prefix[i] == vals[i]);
            }
        }
        if final_score(vals) != 0 {
            if vals.last() > prev {
                assert(vals[vals.len() - 1] == final_score(vals));
            } else {
                let j = choose|j: int| 0 <= j < prefix.len() && prefix[j] == prev;
                assert(vals[j] == final_score(vals));
            }
        }
    }
}

} // verus!
