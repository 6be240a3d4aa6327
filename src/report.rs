//! Ordering of match records for presentation.
use crate::scan::MatchRecord;
use vstd::prelude::*;

verus! {

/// Records are in ascending order of distance.
pub open spec fn sorted_by_distance(s: Seq<MatchRecord>) -> bool {
    forall|i: int, j: int| 0 <= i < j < s.len() ==> s[i].distance <= s[j].distance
}

/// Relies on `slice::sort_by_key`: it reorders the elements, so that the
/// same records remain, into ascending order of the key.
#[verifier::external_body]
fn sort_records_by_distance(records: &mut Vec<MatchRecord>)
    ensures
        final(records)@.to_multiset() == old(records)@.to_multiset(),
        sorted_by_distance(final(records)@),
{
    records.sort_by_key(|r| r.distance);
}

/// Puts the records in ascending order of distance, keeping every record.
pub fn sort_by_distance(records: &mut Vec<MatchRecord>)
    ensures
        final(records)@.to_multiset() == old(records)@.to_multiset(),
        final(records)@.len() == old(records)@.len(),
        sorted_by_distance(final(records)@),
{
    sort_records_by_distance(records);
    proof {
        vstd::seq_lib::to_multiset_len(old(records)@);
        vstd::seq_lib::to_multiset_len(records@);
    }
}

} // verus!
