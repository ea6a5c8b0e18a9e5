//! A verified core for a sighting-record fetch pipeline: an identifier
//! source, a ledger of permanently missing identifiers, a retry protocol
//! with exponential backoff, and result aggregation.
//!
//! The network, the clock, and the page extractor live outside this crate;
//! the decisions taken between their calls are verified here.
#![verifier::loop_isolation(false)]
use vstd::prelude::*;

pub mod protocol;
pub mod record;
pub mod scraper;

use crate::record::SightingRecord;

verus! {

/// Some record in `records` carries `sighting_id == Some(id)`.
pub open spec fn scraped_id_in(records: Seq<SightingRecord>, id: u64) -> bool {
    exists|i: int| 0 <= i < records.len() && records[i].sighting_id == Some(id)
}

/// The identifiers of `original` that no record in `records` carries, in
/// the order `original` gives them.
pub open spec fn failed_ids(original: Seq<u64>, records: Seq<SightingRecord>) -> Seq<u64>
    decreases original.len(),
{
    if original.len() == 0 {
        Seq::empty()
    } else {
        let rest = failed_ids(original.drop_last(), records);
        if scraped_id_in(records, original.last()) {
            rest
        } else {
            rest.push(original.last())
        }
    }
}

fn has_scraped_id(records: &Vec<SightingRecord>, id: u64) -> (b: bool)
    ensures
        b == scraped_id_in(records@, id),
{
    let mut i: usize = 0;
    while i < records.len()
        invariant
            i <= records@.len(),
            forall|j: int| 0 <= j < i ==> records@[j].sighting_id != Some(id),
        decreases records@.len() - i,
    {
        match records[i].sighting_id {
            Some(found) => {
                if found == id {
                    return true;
                }
            }
            None => {}
        }
        i += 1;
    }
    false
}

/// Every originally requested identifier that is absent from the successful
/// records' identifier set, in the original order.
pub fn get_failed_ids(original_ids: &Vec<u64>, scraped_records: &Vec<SightingRecord>) -> (r: Vec<
    u64,
>)
    ensures
        r@ == failed_ids(original_ids@, scraped_records@),
{
    let mut out: Vec<u64> = Vec::new();
    let mut i: usize = 0;
    while i < original_ids.len()
        invariant
            i <= original_ids@.len(),
            out@ == failed_ids(original_ids@.take(i as int), scraped_records@),
        decreases original_ids@.len() - i,
    {
        let id = original_ids[i];
        if !has_scraped_id(scraped_records, id) {
            out.push(id);
        }
        proof {
            assert(original_ids@.take(i + 1).drop_last() =~= original_ids@.take(i as int));
        }
        i += 1;
    }
    proof {
        assert(original_ids@.take(original_ids@.len() as int) =~= original_ids@);
    }
    out
}

/// The diff of failed identifiers is the original list filtered down to the
/// identifiers that the records do not carry: original order preserved, and
/// membership decided by the records' identifier set alone.
pub proof fn lemma_failed_ids_is_filter(original: Seq<u64>, records: Seq<SightingRecord>)
    ensures
        failed_ids(original, records) == original.filter(
            |id: u64| !scraped_id_in(records, id),
        ),
    decreases original.len(),
{
    reveal(Seq::filter);
    if original.len() > 0 {
        lemma_failed_ids_is_filter(original.drop_last(), records);
    }
}

} // verus!
