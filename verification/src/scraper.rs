//! The pipeline's configuration and the ledger of permanently missing
//! identifiers.
use vstd::prelude::*;

use crate::protocol::{
    protocol_record, run_protocol, sighting_url, sighting_url_spec, AttemptOutcome,
};
use crate::record::SightingRecord;

verus! {

/// No identifier occurs twice.
pub open spec fn unique_seq(s: Seq<u64>) -> bool {
    forall|i: int, j: int| 0 <= i < j < s.len() ==> s[i] != s[j]
}

/// Insert an identifier into the ledger contents: a no-op when it is
/// already present, an append otherwise.
pub open spec fn ledger_insert(s: Seq<u64>, id: u64) -> Seq<u64> {
    if s.contains(id) {
        s
    } else {
        s.push(id)
    }
}

/// Insert each identifier of `ids` in turn.
pub open spec fn ledger_insert_all(s: Seq<u64>, ids: Seq<u64>) -> Seq<u64>
    decreases ids.len(),
{
    if ids.len() == 0 {
        s
    } else {
        ledger_insert(ledger_insert_all(s, ids.drop_last()), ids.last())
    }
}

/// Inserting never makes a duplicate: the ledger stays unique, and the
/// inserted identifier is present afterwards.
pub proof fn lemma_ledger_insert_unique(s: Seq<u64>, id: u64)
    requires
        unique_seq(s),
    ensures
        unique_seq(ledger_insert(s, id)),
        ledger_insert(s, id).contains(id),
{
    let out = ledger_insert(s, id);
    if s.contains(id) {
    } else {
        assert(out[out.len() - 1] == id);
        assert forall|i: int, j: int| 0 <= i < j < out.len() implies out[i] != out[j] by {
            if j == out.len() - 1 {
                assert(out[i] == s[i]);
            }
        }
    }
}

/// Any sequence of inserts keeps the ledger free of duplicates.
pub proof fn lemma_ledger_insert_all_unique(s: Seq<u64>, ids: Seq<u64>)
    requires
        unique_seq(s),
    ensures
        unique_seq(ledger_insert_all(s, ids)),
    decreases ids.len(),
{
    if ids.len() > 0 {
        lemma_ledger_insert_all_unique(s, ids.drop_last());
        lemma_ledger_insert_unique(ledger_insert_all(s, ids.drop_last()), ids.last());
    }
}

/// A character between `'0'` and `'9'`.
pub open spec fn is_digit_char(c: char) -> bool {
    '0' <= c <= '9'
}

/// The numeric value of a digit character.
pub open spec fn digit_val(c: char) -> nat {
    (c as u32 - '0' as u32) as nat
}

/// Every character is a decimal digit.
pub open spec fn all_digits(s: Seq<char>) -> bool {
    forall|i: int| 0 <= i < s.len() ==> is_digit_char(#[trigger] s[i])
}

/// The value of a sequence of decimal digit characters, most significant
/// first.
pub open spec fn dec_value(s: Seq<char>) -> nat
    decreases s.len(),
{
    if s.len() == 0 {
        0
    } else {
        dec_value(s.drop_last()) * 10 + digit_val(s.last())
    }
}

/// What parsing one ledger line yields: the value of a nonempty string of
/// decimal digits, when that value fits in a `u64`; nothing otherwise.
pub open spec fn parse_u64_spec(s: Seq<char>) -> Option<u64> {
    if s.len() > 0 && all_digits(s) && dec_value(s) <= u64::MAX {
        Some(dec_value(s) as u64)
    } else {
        None
    }
}

proof fn lemma_dec_value_prefix_le(s: Seq<char>, i: int)
    requires
        0 <= i <= s.len(),
    ensures
        dec_value(s.take(i)) <= dec_value(s),
    decreases s.len() - i,
{
    if i < s.len() {
        assert(s.take(i + 1).drop_last() =~= s.take(i));
        assert(s.take(i + 1).last() == s[i]);
        assert(dec_value(s.take(i)) <= dec_value(s.take(i + 1)));
        lemma_dec_value_prefix_le(s, i + 1);
    } else {
        assert(s.take(i) =~= s);
    }
}

/// Parse a nonempty string of decimal digits into a `u64`; any other
/// string, and any value too large for a `u64`, is rejected.
pub fn parse_u64(s: &str) -> (r: Option<u64>)
    ensures
        r == parse_u64_spec(s@),
{
    let n = s.unicode_len();
    if n == 0 {
        return None;
    }
    let mut val: u64 = 0;
    let mut i: usize = 0;
    while i < n
        invariant
            i <= n,
            n == s@.len(),
            all_digits(s@.take(i as int)),
            val == dec_value(s@.take(i as int)),
        decreases n - i,
    {
        let c = s.get_char(i);
        let code = c as u32;
        proof {
            assert(s@.take(i + 1).drop_last() =~= s@.take(i as int));
            assert(s@.take(i + 1).last() == s@[i as int]);
        }
        if code < 48 || code > 57 {
            proof {
                assert(!is_digit_char(s@[i as int]));
            }
            return None;
        }
        let d = (code - 48) as u64;
        let scaled = match val.checked_mul(10) {
            Some(x) => x,
            None => {
                proof {
                    assert(dec_value(s@.take(i + 1)) > u64::MAX);
                    lemma_dec_value_prefix_le(s@, i + 1);
                }
                return None;
            }
        };
        let next = match scaled.checked_add(d) {
            Some(x) => x,
            None => {
                proof {
                    assert(dec_value(s@.take(i + 1)) > u64::MAX);
                    lemma_dec_value_prefix_le(s@, i + 1);
                }
                return None;
            }
        };
        val = next;
        i += 1;
    }
    proof {
        assert(s@.take(n as int) =~= s@);
    }
    Some(val)
}

/// A ledger line that could not be parsed as an identifier; `line_index`
/// says which line, counting from zero.
#[derive(Debug, PartialEq, Eq, Structural, Clone, Copy)]
pub struct LedgerParseError {
    pub line_index: usize,
}

/// Does some element of `v` equal `id`?
pub fn vec_contains_u64(v: &Vec<u64>, id: u64) -> (b: bool)
    ensures
        b == v@.contains(id),
{
    let mut i: usize = 0;
    while i < v.len()
        invariant
            i <= v@.len(),
            forall|j: int| 0 <= j < i ==> v@[j] != id,
        decreases v@.len() - i,
    {
        if v[i] == id {
            return true;
        }
        i += 1;
    }
    false
}

/// The fetch pipeline's configuration together with the ledger of
/// identifiers known to be permanently unresolvable. The durable mirror of
/// the ledger (one identifier per line in a plain text file) is written by
/// the caller; this type decides what its contents are.
pub struct ButterflyMothScraper {
    /// Base delay between requests, in milliseconds.
    pub base_delay: u64,
    /// How many retry attempts follow the first attempt.
    pub max_retries: u32,
    /// The ledger contents, in insertion order, without duplicates.
    pub missing_sightings: Vec<u64>,
    /// Where the durable mirror of the ledger lives, if anywhere.
    pub missing_sightings_file: Option<String>,
}

impl ButterflyMothScraper {
    /// The ledger holds no duplicate identifiers.
    pub open spec fn wf(self) -> bool {
        unique_seq(self.missing_sightings@)
    }

    /// The configuration fields of both values agree.
    pub open spec fn same_config(self, other: Self) -> bool {
        &&& self.base_delay == other.base_delay
        &&& self.max_retries == other.max_retries
        &&& self.missing_sightings_file == other.missing_sightings_file
    }

    /// The default configuration: a one-second base delay, three retries,
    /// an empty ledger, and no ledger file.
    pub fn new() -> (s: Self)
        ensures
            s.base_delay == 1000,
            s.max_retries == 3,
            s.missing_sightings@ == Seq::<u64>::empty(),
            s.missing_sightings_file is None,
            s.wf(),
    {
        ButterflyMothScraper {
            base_delay: 1000,
            max_retries: 3,
            missing_sightings: Vec::new(),
            missing_sightings_file: None,
        }
    }

    /// The same pipeline with another base delay.
    pub fn with_delay(self, delay_ms: u64) -> (s: Self)
        ensures
            s.base_delay == delay_ms,
            s.max_retries == self.max_retries,
            s.missing_sightings == self.missing_sightings,
            s.missing_sightings_file == self.missing_sightings_file,
    {
        let mut s = self;
        s.base_delay = delay_ms;
        s
    }

    /// The same pipeline with another retry budget.
    pub fn with_max_retries(self, retries: u32) -> (s: Self)
        ensures
            s.max_retries == retries,
            s.base_delay == self.base_delay,
            s.missing_sightings == self.missing_sightings,
            s.missing_sightings_file == self.missing_sightings_file,
    {
        let mut s = self;
        s.max_retries = retries;
        s
    }

    /// The same pipeline with a ledger file name recorded. Reading that
    /// file is the caller's work; its lines are handed to
    /// `load_missing_sightings`.
    pub fn with_missing_sightings_file(self, filename: &str) -> (s: Self)
        ensures
            s.missing_sightings_file is Some,
            s.missing_sightings_file->Some_0@ == filename@,
            s.base_delay == self.base_delay,
            s.max_retries == self.max_retries,
            s.missing_sightings == self.missing_sightings,
    {
        let mut s = self;
        s.missing_sightings_file = Some(filename.to_owned());
        s
    }

    /// Load ledger lines read from durable storage. Every line must be a
    /// decimal identifier; the first malformed line fails the load and
    /// leaves the ledger untouched. Identifiers already present are not
    /// duplicated.
    pub fn load_missing_sightings(&mut self, lines: &Vec<String>) -> (r: Result<
        (),
        LedgerParseError,
    >)
        requires
            old(self).wf(),
        ensures
            final(self).wf(),
            final(self).same_config(*old(self)),
            r is Ok <==> (forall|j: int|
                0 <= j < lines@.len() ==> parse_u64_spec(#[trigger] lines@[j]@) is Some),
            r is Ok ==> final(self).missing_sightings@ == ledger_insert_all(
                old(self).missing_sightings@,
                lines@.map_values(|l: String| parse_u64_spec(l@)->Some_0),
            ),
            r is Err ==> *final(self) == *old(self),
            r is Err ==> {
                let k = r->Err_0.line_index;
                &&& k < lines@.len()
                &&& parse_u64_spec(lines@[k as int]@) is None
                &&& forall|j: int| 0 <= j < k ==> parse_u64_spec(#[trigger] lines@[j]@) is Some
            },
    {
        let ghost parsed = lines@.map_values(|l: String| parse_u64_spec(l@)->Some_0);
        let mut ids: Vec<u64> = Vec::new();
        let mut i: usize = 0;
        while i < lines.len()
            invariant
                i <= lines@.len(),
                ids@.len() == i,
                forall|j: int| 0 <= j < i ==> parse_u64_spec(#[trigger] lines@[j]@) is Some,
                forall|j: int| 0 <= j < i ==> ids@[j] == parsed[j],
                self == old(self),
            decreases lines@.len() - i,
        {
            match parse_u64(lines[i].as_str()) {
                Some(id) => {
                    ids.push(id);
                }
                None => {
                    return Err(LedgerParseError { line_index: i });
                }
            }
            i += 1;
        }
        let mut k: usize = 0;
        proof {
            assert(ids@ =~= parsed);
        }
        while k < ids.len()
            invariant
                k <= ids@.len(),
                self.wf(),
                self.same_config(*old(self)),
                ids@ == parsed,
                self.missing_sightings@ == ledger_insert_all(
                    old(self).missing_sightings@,
                    ids@.take(k as int),
                ),
            decreases ids@.len() - k,
        {
            let id = ids[k];
            proof {
                assert(ids@.take(k + 1).drop_last() =~= ids@.take(k as int));
                assert(ids@.take(k + 1).last() == ids@[k as int]);
            }
            let _added = self.add_missing_sighting(id);
            k += 1;
        }
        proof {
            assert(ids@.take(ids@.len() as int) =~= ids@);
        }
        Ok(())
    }

    /// A copy of the ledger contents, in insertion order.
    pub fn get_missing_sightings(&self) -> (r: Vec<u64>)
        ensures
            r@ == self.missing_sightings@,
    {
        let mut out: Vec<u64> = Vec::new();
        let mut i: usize = 0;
        while i < self.missing_sightings.len()
            invariant
                i <= self.missing_sightings@.len(),
                out@ == self.missing_sightings@.take(i as int),
            decreases self.missing_sightings@.len() - i,
        {
            out.push(self.missing_sightings[i]);
            proof {
                assert(self.missing_sightings@.take(i + 1) =~= self.missing_sightings@.take(
                    i as int,
                ).push(self.missing_sightings@[i as int]));
            }
            i += 1;
        }
        proof {
            assert(self.missing_sightings@.take(self.missing_sightings@.len() as int)
                =~= self.missing_sightings@);
        }
        out
    }

    /// Empty the in-memory ledger. The durable mirror is not rewritten:
    /// clearing is an operator action on the running process only.
    pub fn clear_missing_sightings(&mut self)
        ensures
            final(self).missing_sightings@ == Seq::<u64>::empty(),
            final(self).same_config(*old(self)),
            final(self).wf(),
    {
        self.missing_sightings = Vec::new();
    }

    /// Is the identifier already recorded as missing?
    pub fn contains_missing_sighting(&self, sighting_id: u64) -> (b: bool)
        ensures
            b == self.missing_sightings@.contains(sighting_id),
    {
        vec_contains_u64(&self.missing_sightings, sighting_id)
    }

    /// Record an identifier as permanently missing. Re-adding an existing
    /// entry is a no-op; the return value says whether the entry is new, so
    /// that the caller appends one durable line per new entry.
    pub fn add_missing_sighting(&mut self, sighting_id: u64) -> (added: bool)
        requires
            old(self).wf(),
        ensures
            final(self).wf(),
            final(self).same_config(*old(self)),
            final(self).missing_sightings@ == ledger_insert(
                old(self).missing_sightings@,
                sighting_id,
            ),
            added == !old(self).missing_sightings@.contains(sighting_id),
            final(self).missing_sightings@.contains(sighting_id),
    {
        if self.contains_missing_sighting(sighting_id) {
            false
        } else {
            proof {
                lemma_ledger_insert_unique(self.missing_sightings@, sighting_id);
            }
            self.missing_sightings.push(sighting_id);
            true
        }
    }

    /// Process one batch of identifiers, the whole pipeline run as a
    /// function of the fetch outcomes. Identifiers in the ledger before the
    /// run are skipped; each other identifier runs the retry protocol over
    /// its script of attempt outcomes (one script per identifier, in
    /// order); failures go into the ledger, and the successful records come
    /// back stamped with identifier and URL, in completion order.
    pub fn process_batch(
        &mut self,
        sighting_ids: &Vec<u64>,
        scripts: Vec<Vec<AttemptOutcome>>,
    ) -> (records: Vec<SightingRecord>)
        requires
            old(self).wf(),
            scripts@.len() == sighting_ids@.len(),
            forall|i: int|
                0 <= i < scripts@.len() ==> (#[trigger] scripts@[i])@.len() > old(
                    self,
                ).max_retries,
        ensures
            final(self).wf(),
            final(self).same_config(*old(self)),
            ({
                let (pairs, missing) = batch_result(
                    sighting_ids@,
                    scripts@.map_values(|s: Vec<AttemptOutcome>| s@),
                    old(self).missing_sightings@,
                    old(self).max_retries as nat,
                );
                &&& final(self).missing_sightings@ == missing
                &&& records@.len() == pairs.len()
                &&& forall|j: int|
                    0 <= j < pairs.len() ==> is_stamped_from(
                        #[trigger] records@[j],
                        pairs[j].0,
                        pairs[j].1,
                    )
            }),
    {
        let ghost sv = scripts@.map_values(|s: Vec<AttemptOutcome>| s@);
        let ghost missing0 = self.missing_sightings@;
        let snapshot = self.get_missing_sightings();
        let mut scripts = scripts;
        let mut records: Vec<SightingRecord> = Vec::new();
        let ghost mut pairs: Seq<(SightingRecord, u64)> = Seq::empty();
        let mut i: usize = 0;
        while i < sighting_ids.len()
            invariant
                i <= sighting_ids@.len(),
                sighting_ids@.len() == sv.len(),
                scripts@.len() == sv.len() - i,
                forall|j: int| 0 <= j < scripts@.len() ==> (#[trigger] scripts@[j])@ == sv[i + j],
                forall|j: int|
                    0 <= j < sv.len() ==> (#[trigger] sv[j]).len() > old(self).max_retries,
                self.wf(),
                self.same_config(*old(self)),
                snapshot@ == missing0,
                missing0 == old(self).missing_sightings@,
                records@.len() == pairs.len(),
                forall|j: int|
                    0 <= j < pairs.len() ==> is_stamped_from(
                        #[trigger] records@[j],
                        pairs[j].0,
                        pairs[j].1,
                    ),
                batch_from(
                    sighting_ids@,
                    sv,
                    i as int,
                    pairs,
                    missing0,
                    self.missing_sightings@,
                    old(self).max_retries as nat,
                ) == batch_result(sighting_ids@, sv, missing0, old(self).max_retries as nat),
            decreases sighting_ids@.len() - i,
        {
            let id = sighting_ids[i];
            let script = scripts.remove(0);
            proof {
                assert(script@ == sv[i as int]);
                assert(forall|j: int|
                    0 <= j < scripts@.len() ==> (#[trigger] scripts@[j])@ == sv[i + 1 + j]);
            }
            if !vec_contains_u64(&snapshot, id) {
                let (_attempts, result) = run_protocol(script, self.max_retries);
                match result {
                    Some(rec) => {
                        let ghost grec = rec;
                        let url = sighting_url(id);
                        let stamped = rec.stamp(id, url);
                        records.push(stamped);
                        proof {
                            pairs = pairs.push((grec, id));
                        }
                    }
                    None => {
                        let _added = self.add_missing_sighting(id);
                    }
                }
            }
            i += 1;
        }
        records
    }

    /// The identifiers of `sighting_ids` that the ledger does not hold,
    /// in their original order: what a run actually dispatches.
    pub fn filter_missing_sightings(&self, sighting_ids: &Vec<u64>) -> (r: Vec<u64>)
        ensures
            r@ == kept_ids(sighting_ids@, self.missing_sightings@),
    {
        let mut out: Vec<u64> = Vec::new();
        let mut i: usize = 0;
        while i < sighting_ids.len()
            invariant
                i <= sighting_ids@.len(),
                out@ == kept_ids(sighting_ids@.take(i as int), self.missing_sightings@),
            decreases sighting_ids@.len() - i,
        {
            let id = sighting_ids[i];
            proof {
                assert(sighting_ids@.take(i + 1).drop_last() =~= sighting_ids@.take(i as int));
                assert(sighting_ids@.take(i + 1).last() == sighting_ids@[i as int]);
            }
            if !self.contains_missing_sighting(id) {
                out.push(id);
            }
            i += 1;
        }
        proof {
            assert(sighting_ids@.take(sighting_ids@.len() as int) =~= sighting_ids@);
        }
        out
    }
}

/// One output record carries the attributes of `extracted`, stamped with
/// the identifier and the identifier's URL.
pub open spec fn is_stamped_from(out: SightingRecord, extracted: SightingRecord, id: u64) -> bool {
    &&& out.same_attributes(extracted)
    &&& out.sighting_id == Some(id)
    &&& out.url is Some
    &&& out.url->Some_0@ == sighting_url_spec(id)
}

/// The batch run from index `i` on, given what has accumulated so far: the
/// (extracted record, identifier) pairs of the successes in completion
/// order, and the final ledger contents. `missing0` is the ledger as it
/// stood before the run: it alone decides which identifiers are skipped.
pub open spec fn batch_from(
    ids: Seq<u64>,
    scripts: Seq<Seq<AttemptOutcome>>,
    i: int,
    pairs: Seq<(SightingRecord, u64)>,
    missing0: Seq<u64>,
    missing: Seq<u64>,
    max_retries: nat,
) -> (Seq<(SightingRecord, u64)>, Seq<u64>)
    decreases ids.len() - i,
{
    if i < 0 || i >= ids.len() {
        (pairs, missing)
    } else {
        let id = ids[i];
        if missing0.contains(id) {
            batch_from(ids, scripts, i + 1, pairs, missing0, missing, max_retries)
        } else {
            match protocol_record(scripts[i], max_retries) {
                Some(rec) => batch_from(
                    ids,
                    scripts,
                    i + 1,
                    pairs.push((rec, id)),
                    missing0,
                    missing,
                    max_retries,
                ),
                None => batch_from(
                    ids,
                    scripts,
                    i + 1,
                    pairs,
                    missing0,
                    ledger_insert(missing, id),
                    max_retries,
                ),
            }
        }
    }
}

/// The whole batch: successes and final ledger, starting from the ledger
/// contents `missing0`.
pub open spec fn batch_result(
    ids: Seq<u64>,
    scripts: Seq<Seq<AttemptOutcome>>,
    missing0: Seq<u64>,
    max_retries: nat,
) -> (Seq<(SightingRecord, u64)>, Seq<u64>) {
    batch_from(ids, scripts, 0, Seq::empty(), missing0, missing0, max_retries)
}

proof fn lemma_batch_from_skips_known(
    ids: Seq<u64>,
    scripts: Seq<Seq<AttemptOutcome>>,
    i: int,
    pairs: Seq<(SightingRecord, u64)>,
    missing0: Seq<u64>,
    missing: Seq<u64>,
    max_retries: nat,
    id: u64,
)
    requires
        missing0.contains(id),
        forall|j: int| 0 <= j < pairs.len() ==> (#[trigger] pairs[j]).1 != id,
    ensures
        forall|j: int|
            0 <= j < batch_from(ids, scripts, i, pairs, missing0, missing, max_retries).0.len()
                ==> (#[trigger] batch_from(ids, scripts, i, pairs, missing0, missing, max_retries).0[j]).1
                != id,
    decreases ids.len() - i,
{
    if 0 <= i < ids.len() {
        if missing0.contains(ids[i]) {
            assert(batch_from(ids, scripts, i, pairs, missing0, missing, max_retries)
                == batch_from(ids, scripts, i + 1, pairs, missing0, missing, max_retries));
            lemma_batch_from_skips_known(ids, scripts, i + 1, pairs, missing0, missing, max_retries, id);
        } else {
            match protocol_record(scripts[i], max_retries) {
                Some(rec) => {
                    let pushed = pairs.push((rec, ids[i]));
                    assert(forall|j: int|
                        0 <= j < pushed.len() ==> (#[trigger] pushed[j]).1 != id) by {
                        assert(ids[i] != id);
                        assert(forall|j: int|
                            0 <= j < pairs.len() ==> pushed[j] == (#[trigger] pairs[j]));
                    }
                    assert(batch_from(ids, scripts, i, pairs, missing0, missing, max_retries)
                        == batch_from(ids, scripts, i + 1, pushed, missing0, missing, max_retries));
                    lemma_batch_from_skips_known(
                        ids,
                        scripts,
                        i + 1,
                        pushed,
                        missing0,
                        missing,
                        max_retries,
                        id,
                    );
                }
                None => {
                    assert(batch_from(ids, scripts, i, pairs, missing0, missing, max_retries)
                        == batch_from(
                        ids,
                        scripts,
                        i + 1,
                        pairs,
                        missing0,
                        ledger_insert(missing, ids[i]),
                        max_retries,
                    ));
                    lemma_batch_from_skips_known(
                        ids,
                        scripts,
                        i + 1,
                        pairs,
                        missing0,
                        ledger_insert(missing, ids[i]),
                        max_retries,
                        id,
                    );
                }
            }
        }
    }
}

/// An identifier in the ledger before a run is excluded from dispatch: no
/// record of the batch carries it, whatever its script says.
pub proof fn lemma_known_missing_yields_no_record(
    ids: Seq<u64>,
    scripts: Seq<Seq<AttemptOutcome>>,
    missing0: Seq<u64>,
    max_retries: nat,
    id: u64,
)
    requires
        missing0.contains(id),
    ensures
        forall|j: int|
            0 <= j < batch_result(ids, scripts, missing0, max_retries).0.len()
                ==> (#[trigger] batch_result(ids, scripts, missing0, max_retries).0[j]).1 != id,
{
    lemma_batch_from_skips_known(
        ids,
        scripts,
        0,
        Seq::empty(),
        missing0,
        missing0,
        max_retries,
        id,
    );
}

/// The contiguous identifier range `start_id..=end_id`: the default
/// identifier source.
pub fn sighting_id_range(start_id: u64, end_id: u64) -> (r: Vec<u64>)
    requires
        start_id <= end_id,
        end_id - start_id < usize::MAX,
    ensures
        r@.len() == end_id - start_id + 1,
        forall|j: int| 0 <= j < r@.len() ==> r@[j] == start_id + j,
{
    let n = ((end_id - start_id) as usize) + 1;
    let mut out: Vec<u64> = Vec::new();
    let mut j: usize = 0;
    while j < n
        invariant
            j <= n,
            n == end_id - start_id + 1,
            out@.len() == j,
            forall|k: int| 0 <= k < j ==> out@[k] == start_id + k,
        decreases n - j,
    {
        out.push(start_id + (j as u64));
        j += 1;
    }
    out
}

/// The views of the strings in `values`.
pub open spec fn string_views(values: Seq<String>) -> Seq<Seq<char>> {
    values.map_values(|s: String| s@)
}

/// How many distinct nonempty values occur in `vs`: every later duplicate,
/// and every empty value, counts zero.
pub open spec fn unique_nonempty_count(vs: Seq<Seq<char>>) -> nat
    decreases vs.len(),
{
    if vs.len() == 0 {
        0
    } else {
        let rest = unique_nonempty_count(vs.drop_last());
        if vs.last().len() == 0 || vs.drop_last().contains(vs.last()) {
            rest
        } else {
            rest + 1
        }
    }
}

/// How many distinct nonempty strings `values` holds: the number of
/// distinct species names in a run summary.
pub fn count_unique_nonempty(values: &Vec<String>) -> (n: usize)
    ensures
        n == unique_nonempty_count(string_views(values@)),
{
    let mut n: usize = 0;
    let mut i: usize = 0;
    while i < values.len()
        invariant
            i <= values@.len(),
            n <= i,
            n == unique_nonempty_count(string_views(values@.take(i as int))),
        decreases values@.len() - i,
    {
        proof {
            assert(string_views(values@.take(i + 1)).drop_last() =~= string_views(
                values@.take(i as int),
            ));
            assert(string_views(values@.take(i + 1)).last() == values@[i as int]@);
        }
        if !values[i].as_str().is_empty() {
            let mut seen = false;
            let mut j: usize = 0;
            while j < i
                invariant
                    j <= i,
                    i < values@.len(),
                    seen == exists|k: int| 0 <= k < j && (#[trigger] values@[k])@ == values@[i as int]@,
                decreases i - j,
            {
                if !seen && values[j] == values[i] {
                    seen = true;
                    proof {
                        assert(values@[j as int]@ == values@[i as int]@);
                    }
                }
                j += 1;
            }
            proof {
                let v = values@[i as int]@;
                let sv = string_views(values@.take(i as int));
                assert(sv.len() == i);
                assert(forall|k: int|
                    0 <= k < i ==> (#[trigger] sv[k]) == values@.take(i as int)[k]@);
                if seen {
                    let k = choose|k: int| 0 <= k < i && (#[trigger] values@[k])@ == v;
                    assert(sv[k] == v);
                    assert(sv.contains(v));
                } else {
                    assert(forall|k: int| 0 <= k < sv.len() ==> (#[trigger] sv[k]) != v);
                    assert(!sv.contains(v));
                }
            }
            if !seen {
                n += 1;
            }
        }
        i += 1;
    }
    proof {
        assert(values@.take(values@.len() as int) =~= values@);
    }
    n
}

/// How often `v` occurs in `vs`.
pub open spec fn occurrences(vs: Seq<Seq<char>>, v: Seq<char>) -> nat
    decreases vs.len(),
{
    if vs.len() == 0 {
        0
    } else if vs.last() == v {
        occurrences(vs.drop_last(), v) + 1
    } else {
        occurrences(vs.drop_last(), v)
    }
}

/// The distinct nonempty values of `vs`, in first-occurrence order.
pub open spec fn distinct_nonempty(vs: Seq<Seq<char>>) -> Seq<Seq<char>>
    decreases vs.len(),
{
    if vs.len() == 0 {
        Seq::empty()
    } else {
        let rest = distinct_nonempty(vs.drop_last());
        if vs.last().len() == 0 || vs.drop_last().contains(vs.last()) {
            rest
        } else {
            rest.push(vs.last())
        }
    }
}

/// The distinct values are exactly the nonempty members of `vs`.
pub proof fn lemma_distinct_nonempty_members(vs: Seq<Seq<char>>, v: Seq<char>)
    ensures
        distinct_nonempty(vs).contains(v) <==> (v.len() > 0 && vs.contains(v)),
    decreases vs.len(),
{
    let firsts = distinct_nonempty(vs);
    if vs.len() > 0 {
        lemma_distinct_nonempty_members(vs.drop_last(), v);
        let rest = distinct_nonempty(vs.drop_last());
        assert(vs.drop_last() =~= vs.take(vs.len() - 1));
        if vs.last().len() == 0 || vs.drop_last().contains(vs.last()) {
            if v.len() > 0 && vs.contains(v) {
                let k = choose|k: int| 0 <= k < vs.len() && vs[k] == v;
                if k < vs.len() - 1 {
                    assert(vs.drop_last()[k] == v);
                } else {
                    assert(vs.drop_last().contains(v) || vs.last().len() == 0);
                }
            }
            if firsts.contains(v) {
                assert(vs.drop_last().contains(v));
                let k = choose|k: int| 0 <= k < vs.drop_last().len() && vs.drop_last()[k] == v;
                assert(vs[k] == v);
            }
        } else {
            if v == vs.last() {
                assert(firsts[firsts.len() - 1] == v);
                assert(vs.contains(v)) by {
                    assert(vs[vs.len() - 1] == v);
                }
            } else {
                if firsts.contains(v) {
                    let k = choose|k: int| 0 <= k < firsts.len() && firsts[k] == v;
                    assert(k < rest.len());
                    assert(rest[k] == v);
                    assert(rest.contains(v));
                    let m = choose|m: int|
                        0 <= m < vs.drop_last().len() && vs.drop_last()[m] == v;
                    assert(vs[m] == v);
                }
                if v.len() > 0 && vs.contains(v) {
                    let k = choose|k: int| 0 <= k < vs.len() && vs[k] == v;
                    assert(k < vs.len() - 1);
                    assert(vs.drop_last()[k] == v);
                    assert(rest.contains(v));
                    let m = choose|m: int| 0 <= m < rest.len() && rest[m] == v;
                    assert(firsts[m] == v);
                }
            }
        }
    }
}

/// No value occurs twice among the distinct values.
pub proof fn lemma_distinct_nonempty_unique(vs: Seq<Seq<char>>)
    ensures
        forall|k1: int, k2: int|
            0 <= k1 < k2 < distinct_nonempty(vs).len() ==> distinct_nonempty(vs)[k1]
                != distinct_nonempty(vs)[k2],
    decreases vs.len(),
{
    if vs.len() > 0 {
        lemma_distinct_nonempty_unique(vs.drop_last());
        let rest = distinct_nonempty(vs.drop_last());
        let firsts = distinct_nonempty(vs);
        if !(vs.last().len() == 0 || vs.drop_last().contains(vs.last())) {
            lemma_distinct_nonempty_members(vs.drop_last(), vs.last());
            assert(!rest.contains(vs.last()));
            assert forall|k1: int, k2: int|
                0 <= k1 < k2 < firsts.len() implies firsts[k1] != firsts[k2] by {
                if k2 == firsts.len() - 1 {
                    assert(firsts[k1] == rest[k1]);
                    if firsts[k1] == vs.last() {
                        assert(rest.contains(vs.last()));
                    }
                }
            }
        }
    }
}

/// The distinct nonempty strings of `values`, each with how often it
/// occurs, in first-occurrence order: a summary's per-region tally.
pub fn tally_nonempty(values: &Vec<String>) -> (r: Vec<(String, usize)>)
    ensures
        ({
            let firsts = distinct_nonempty(string_views(values@));
            &&& r@.len() == firsts.len()
            &&& forall|k: int| 0 <= k < firsts.len() ==> (#[trigger] r@[k]).0@ == firsts[k]
            &&& forall|k: int|
                0 <= k < firsts.len() ==> (#[trigger] r@[k]).1 == occurrences(
                    string_views(values@),
                    firsts[k],
                )
        }),
{
    let mut out: Vec<(String, usize)> = Vec::new();
    let mut i: usize = 0;
    while i < values.len()
        invariant
            i <= values@.len(),
            ({
                let firsts = distinct_nonempty(string_views(values@.take(i as int)));
                &&& out@.len() == firsts.len()
                &&& forall|k: int| 0 <= k < firsts.len() ==> (#[trigger] out@[k]).0@ == firsts[k]
                &&& forall|k: int|
                    0 <= k < firsts.len() ==> (#[trigger] out@[k]).1 == occurrences(
                        string_views(values@.take(i as int)),
                        firsts[k],
                    )
                &&& forall|k: int| 0 <= k < firsts.len() ==> (#[trigger] out@[k]).1 <= i
            }),
        decreases values@.len() - i,
    {
        let ghost svi = string_views(values@.take(i as int));
        let ghost svi1 = string_views(values@.take(i + 1));
        proof {
            assert(svi1.drop_last() =~= svi);
            assert(svi1.last() == values@[i as int]@);
            lemma_distinct_nonempty_unique(svi);
        }
        let v = &values[i];
        if !v.as_str().is_empty() {
            let mut j: usize = 0;
            let mut found = false;
            let mut idx: usize = 0;
            let n_out = out.len();
            while j < n_out
                invariant
                    j <= n_out,
                    n_out == out@.len(),
                    !found ==> forall|k: int|
                        0 <= k < j ==> (#[trigger] out@[k]).0@ != values@[i as int]@,
                    found ==> idx < j && out@[idx as int].0@ == values@[i as int]@,
                decreases n_out - j,
            {
                if !found && string_eq(&out[j].0, v) {
                    found = true;
                    idx = j;
                }
                j += 1;
            }
            proof {
                let firsts = distinct_nonempty(svi);
                if found {
                    assert(firsts[idx as int] == values@[i as int]@);
                    assert(firsts.contains(values@[i as int]@));
                    lemma_distinct_nonempty_members(svi, values@[i as int]@);
                    assert(svi.contains(values@[i as int]@));
                } else {
                    if svi.contains(values@[i as int]@) {
                        lemma_distinct_nonempty_members(svi, values@[i as int]@);
                        let k = choose|k: int|
                            0 <= k < firsts.len() && firsts[k] == values@[i as int]@;
                        assert(out@[k].0@ == values@[i as int]@);
                    }
                }
            }
            if found {
                let count = out[idx].1;
                let name = out[idx].0.clone();
                out.set(idx, (name, count + 1));
                proof {
                    let firsts = distinct_nonempty(svi);
                    assert(distinct_nonempty(svi1) =~= firsts);
                    assert forall|k: int|
                        0 <= k < firsts.len() implies (#[trigger] out@[k]).1 == occurrences(
                        svi1,
                        firsts[k],
                    ) by {
                        if k == idx {
                            assert(firsts[k] == svi1.last());
                        } else {
                            assert(firsts[k] != firsts[idx as int]);
                            assert(firsts[k] != svi1.last());
                        }
                    }
                }
            } else {
                out.push((v.clone(), 1));
                proof {
                    let firsts = distinct_nonempty(svi);
                    let firsts1 = distinct_nonempty(svi1);
                    assert(firsts1 =~= firsts.push(values@[i as int]@));
                    assert forall|k: int|
                        0 <= k < firsts1.len() implies (#[trigger] out@[k]).1 == occurrences(
                        svi1,
                        firsts1[k],
                    ) by {
                        if k < firsts.len() {
                            assert(firsts1[k] == firsts[k]);
                            assert(out@[k] == out@.take(out@.len() - 1)[k]);
                            if firsts[k] == svi1.last() {
                                assert(firsts.contains(svi1.last()));
                                lemma_distinct_nonempty_members(svi, svi1.last());
                            }
                        } else {
                            assert(firsts1[k] == svi1.last());
                            assert(occurrences(svi, svi1.last()) == 0) by {
                                lemma_occurrences_absent(svi, svi1.last());
                            }
                        }
                    }
                }
            }
        } else {
            proof {
                assert(distinct_nonempty(svi1) =~= distinct_nonempty(svi));
                assert forall|k: int|
                    0 <= k < distinct_nonempty(svi).len() implies occurrences(
                    svi1,
                    #[trigger] distinct_nonempty(svi)[k],
                ) == occurrences(svi, distinct_nonempty(svi)[k]) by {
                    let f = distinct_nonempty(svi)[k];
                    assert(distinct_nonempty(svi).contains(f));
                    lemma_distinct_nonempty_members(svi, f);
                    assert(svi1.last() != f);
                }
            }
        }
        i += 1;
    }
    proof {
        assert(values@.take(values@.len() as int) =~= values@);
    }
    out
}

proof fn lemma_occurrences_absent(vs: Seq<Seq<char>>, v: Seq<char>)
    requires
        !vs.contains(v),
    ensures
        occurrences(vs, v) == 0,
    decreases vs.len(),
{
    if vs.len() > 0 {
        assert(vs[vs.len() - 1] != v);
        assert(forall|k: int| 0 <= k < vs.len() - 1 ==> vs.drop_last()[k] == vs[k]);
        lemma_occurrences_absent(vs.drop_last(), v);
    }
}

/// Are the two strings equal?
fn string_eq(a: &String, b: &String) -> (r: bool)
    ensures
        r == (a@ == b@),
{
    a.eq(b)
}

/// Lexicographic order on character sequences by code point, with a
/// shorter sequence before every extension of it: the order `min` and
/// `max` on strings go by.
pub open spec fn lex_le(a: Seq<char>, b: Seq<char>) -> bool
    decreases a.len(),
{
    if a.len() == 0 {
        true
    } else if b.len() == 0 {
        false
    } else if (a[0] as u32) == (b[0] as u32) {
        lex_le(a.skip(1), b.skip(1))
    } else {
        (a[0] as u32) < (b[0] as u32)
    }
}

/// The order is reflexive.
pub proof fn lemma_lex_refl(a: Seq<char>)
    ensures
        lex_le(a, a),
    decreases a.len(),
{
    if a.len() > 0 {
        lemma_lex_refl(a.skip(1));
    }
}

/// The order is total.
pub proof fn lemma_lex_total(a: Seq<char>, b: Seq<char>)
    ensures
        lex_le(a, b) || lex_le(b, a),
    decreases a.len(),
{
    if a.len() > 0 && b.len() > 0 && (a[0] as u32) == (b[0] as u32) {
        lemma_lex_total(a.skip(1), b.skip(1));
    }
}

/// The order is transitive.
pub proof fn lemma_lex_trans(a: Seq<char>, b: Seq<char>, c: Seq<char>)
    requires
        lex_le(a, b),
        lex_le(b, c),
    ensures
        lex_le(a, c),
    decreases a.len(),
{
    if a.len() > 0 && b.len() > 0 && c.len() > 0 && (a[0] as u32) == (b[0] as u32) && (b[0] as u32)
        == (c[0] as u32) {
        lemma_lex_trans(a.skip(1), b.skip(1), c.skip(1));
    }
}

/// Compare two strings in lexicographic order.
pub fn str_lex_le(a: &str, b: &str) -> (r: bool)
    ensures
        r == lex_le(a@, b@),
{
    let na = a.unicode_len();
    let nb = b.unicode_len();
    let mut i: usize = 0;
    proof {
        assert(a@.skip(0) =~= a@);
        assert(b@.skip(0) =~= b@);
    }
    loop
        invariant
            i <= na,
            i <= nb,
            na == a@.len(),
            nb == b@.len(),
            lex_le(a@, b@) == lex_le(a@.skip(i as int), b@.skip(i as int)),
        decreases na - i,
    {
        if i >= na {
            return true;
        }
        if i >= nb {
            return false;
        }
        let ca = a.get_char(i);
        let cb = b.get_char(i);
        proof {
            assert(a@.skip(i as int)[0] == a@[i as int]);
            assert(b@.skip(i as int)[0] == b@[i as int]);
        }
        if (ca as u32) != (cb as u32) {
            return (ca as u32) < (cb as u32);
        }
        proof {
            assert(a@.skip(i as int).skip(1) =~= a@.skip(i as int + 1));
            assert(b@.skip(i as int).skip(1) =~= b@.skip(i as int + 1));
        }
        i += 1;
    }
}

/// The least and greatest of `values` in lexicographic order: what a
/// summary's date range is. `None` exactly on an empty list.
pub fn lex_bounds(values: &Vec<String>) -> (r: Option<(String, String)>)
    ensures
        r is None <==> values@.len() == 0,
        r is Some ==> {
            let (lo, hi) = r->Some_0;
            &&& exists|i: int| 0 <= i < values@.len() && (#[trigger] values@[i])@ == lo@
            &&& exists|i: int| 0 <= i < values@.len() && (#[trigger] values@[i])@ == hi@
            &&& forall|i: int| 0 <= i < values@.len() ==> lex_le(lo@, (#[trigger] values@[i])@)
            &&& forall|i: int| 0 <= i < values@.len() ==> lex_le((#[trigger] values@[i])@, hi@)
        },
{
    if values.len() == 0 {
        return None;
    }
    let mut lo = values[0].clone();
    let mut hi = values[0].clone();
    let mut i: usize = 1;
    proof {
        lemma_lex_refl(lo@);
    }
    while i < values.len()
        invariant
            1 <= i <= values@.len(),
            exists|j: int| 0 <= j < i && (#[trigger] values@[j])@ == lo@,
            exists|j: int| 0 <= j < i && (#[trigger] values@[j])@ == hi@,
            forall|j: int| 0 <= j < i ==> lex_le(lo@, (#[trigger] values@[j])@),
            forall|j: int| 0 <= j < i ==> lex_le((#[trigger] values@[j])@, hi@),
        decreases values@.len() - i,
    {
        let v = &values[i];
        if str_lex_le(v.as_str(), lo.as_str()) {
            proof {
                let old_lo = lo@;
                assert forall|j: int| 0 <= j < i implies lex_le(v@, (#[trigger] values@[j])@) by {
                    lemma_lex_trans(v@, old_lo, values@[j]@);
                }
            }
            lo = v.clone();
            proof {
                lemma_lex_refl(lo@);
                assert(values@[i as int]@ == lo@);
            }
        } else {
            proof {
                lemma_lex_total(v@, lo@);
            }
        }
        if str_lex_le(hi.as_str(), v.as_str()) {
            proof {
                let old_hi = hi@;
                assert forall|j: int| 0 <= j < i implies lex_le((#[trigger] values@[j])@, v@) by {
                    lemma_lex_trans(values@[j]@, old_hi, v@);
                }
            }
            hi = v.clone();
            proof {
                lemma_lex_refl(hi@);
                assert(values@[i as int]@ == hi@);
            }
        } else {
            proof {
                lemma_lex_total(hi@, v@);
            }
        }
        i += 1;
    }
    Some((lo, hi))
}

/// The identifiers of `ids` not present in `missing`, in order.
pub open spec fn kept_ids(ids: Seq<u64>, missing: Seq<u64>) -> Seq<u64>
    decreases ids.len(),
{
    if ids.len() == 0 {
        Seq::empty()
    } else {
        let rest = kept_ids(ids.drop_last(), missing);
        if missing.contains(ids.last()) {
            rest
        } else {
            rest.push(ids.last())
        }
    }
}

/// An identifier in the ledger before a run is never dispatched: it does
/// not survive the pre-dispatch filter.
pub proof fn lemma_known_missing_never_dispatched(ids: Seq<u64>, missing: Seq<u64>, id: u64)
    requires
        missing.contains(id),
    ensures
        !kept_ids(ids, missing).contains(id),
    decreases ids.len(),
{
    if ids.len() > 0 {
        lemma_known_missing_never_dispatched(ids.drop_last(), missing, id);
        let rest = kept_ids(ids.drop_last(), missing);
        if !missing.contains(ids.last()) {
            assert(forall|j: int|
                0 <= j < rest.push(ids.last()).len() ==> rest.push(ids.last())[j] != id);
        }
    }
}

} // verus!
