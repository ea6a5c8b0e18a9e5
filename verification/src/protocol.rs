//! The per-identifier fetch protocol: status classification, the verdict
//! taken after each attempt, the retry protocol as a function of the
//! sequence of attempt outcomes, and the backoff delays.
use vstd::prelude::*;

use rand::Rng;
use vstd::arithmetic::power2::*;

use crate::record::SightingRecord;

verus! {

/// Classification of an HTTP status code, as the retry protocol sees it.
#[derive(PartialEq, Eq, Structural, Clone, Copy, Debug)]
pub enum StatusClass {
    /// A status in the success range (200 to 299): the body goes to the
    /// record extractor.
    Success,
    /// Status 429: the server asks the client to slow down; transient.
    RateLimited,
    /// Any other status: transient.
    OtherError,
}

/// Classify an HTTP status code for the retry protocol.
pub fn classify_status(status: u16) -> (c: StatusClass)
    ensures
        c == StatusClass::Success <==> 200 <= status <= 299,
        c == StatusClass::RateLimited <==> status == 429,
        c == StatusClass::OtherError <==> !(200 <= status <= 299) && status != 429,
{
    if status == 429 {
        StatusClass::RateLimited
    } else if 200 <= status && status <= 299 {
        StatusClass::Success
    } else {
        StatusClass::OtherError
    }
}

/// Everything one fetch attempt can come back with.
#[derive(Debug)]
pub enum AttemptOutcome {
    /// The request produced no response: connection error or timeout.
    TransportError,
    /// HTTP status 429.
    RateLimited,
    /// Any other status outside the success range.
    HttpError(u16),
    /// A success status whose body could not be read.
    SuccessBodyUnreadable,
    /// A success status in whose body the extractor found no record.
    SuccessNoRecord,
    /// A success status with an extracted record.
    SuccessRecord(SightingRecord),
}

/// What the protocol does after one attempt.
#[derive(Debug)]
pub enum Verdict {
    /// Stop with this record (still to be stamped).
    Success(SightingRecord),
    /// Stop and record the identifier as permanently missing.
    Missing,
    /// Sleep and try again.
    Retry,
}

/// An outcome that is retried while the budget lasts.
pub open spec fn is_transient(outcome: AttemptOutcome) -> bool {
    outcome is TransportError || outcome is RateLimited || outcome is HttpError
}

/// The verdict after attempt number `attempt` (counted from zero) came back
/// with `outcome`, under a budget of `max_retries` retries: an extracted
/// record is decisive success, an unreadable or unparsable success body is
/// decisive failure, and everything transient is retried until the budget
/// is spent.
pub open spec fn verdict_of(outcome: AttemptOutcome, attempt: nat, max_retries: nat) -> Verdict {
    match outcome {
        AttemptOutcome::SuccessRecord(rec) => Verdict::Success(rec),
        AttemptOutcome::SuccessBodyUnreadable => Verdict::Missing,
        AttemptOutcome::SuccessNoRecord => Verdict::Missing,
        AttemptOutcome::TransportError => if attempt < max_retries {
            Verdict::Retry
        } else {
            Verdict::Missing
        },
        AttemptOutcome::RateLimited => if attempt < max_retries {
            Verdict::Retry
        } else {
            Verdict::Missing
        },
        AttemptOutcome::HttpError(_) => if attempt < max_retries {
            Verdict::Retry
        } else {
            Verdict::Missing
        },
    }
}

/// The verdict after one attempt; consumes the outcome so that a record
/// moves out of it.
pub fn attempt_verdict(outcome: AttemptOutcome, attempt: u32, max_retries: u32) -> (v: Verdict)
    ensures
        v == verdict_of(outcome, attempt as nat, max_retries as nat),
{
    match outcome {
        AttemptOutcome::SuccessRecord(rec) => Verdict::Success(rec),
        AttemptOutcome::SuccessBodyUnreadable => Verdict::Missing,
        AttemptOutcome::SuccessNoRecord => Verdict::Missing,
        AttemptOutcome::TransportError => {
            if attempt < max_retries {
                Verdict::Retry
            } else {
                Verdict::Missing
            }
        }
        AttemptOutcome::RateLimited => {
            if attempt < max_retries {
                Verdict::Retry
            } else {
                Verdict::Missing
            }
        }
        AttemptOutcome::HttpError(_) => {
            if attempt < max_retries {
                Verdict::Retry
            } else {
                Verdict::Missing
            }
        }
    }
}

/// The whole protocol, run from attempt number `attempt` on, over the
/// outcomes that `script` holds (one per attempt that is made): how many
/// attempts happen in all, and which record comes out, if any.
pub open spec fn protocol_from(
    script: Seq<AttemptOutcome>,
    attempt: nat,
    max_retries: nat,
) -> (nat, Option<SightingRecord>)
    decreases max_retries - attempt,
{
    if attempt < script.len() {
        match verdict_of(script[attempt as int], attempt, max_retries) {
            Verdict::Success(rec) => ((attempt + 1) as nat, Some(rec)),
            Verdict::Missing => ((attempt + 1) as nat, None),
            Verdict::Retry => protocol_from(script, (attempt + 1) as nat, max_retries),
        }
    } else {
        (attempt, None)
    }
}

/// How many fetch attempts the protocol performs on `script`.
pub open spec fn protocol_attempts(script: Seq<AttemptOutcome>, max_retries: nat) -> nat {
    protocol_from(script, 0, max_retries).0
}

/// The record the protocol yields on `script`, if any.
pub open spec fn protocol_record(script: Seq<AttemptOutcome>, max_retries: nat) -> Option<
    SightingRecord,
> {
    protocol_from(script, 0, max_retries).1
}

/// Run the retry protocol for one identifier over the given attempt
/// outcomes: the number of attempts made and the record, if one came out.
/// The script must be long enough to cover the whole retry budget; every
/// outcome at the last budgeted attempt is decisive, so no more than
/// `max_retries + 1` of its entries are ever read.
pub fn run_protocol(script: Vec<AttemptOutcome>, max_retries: u32) -> (r: (
    usize,
    Option<SightingRecord>,
))
    requires
        script@.len() > max_retries,
    ensures
        r.0 as nat == protocol_attempts(script@, max_retries as nat),
        r.1 == protocol_record(script@, max_retries as nat),
{
    let ghost orig = script@;
    let mut script = script;
    let n0 = script.len();
    let mut attempt: u32 = 0;
    loop
        invariant
            attempt <= max_retries,
            orig.len() == n0 > max_retries,
            script@ == orig.skip(attempt as int),
            protocol_from(orig, attempt as nat, max_retries as nat) == protocol_from(
                orig,
                0,
                max_retries as nat,
            ),
        decreases max_retries - attempt,
    {
        let outcome = script.remove(0);
        proof {
            assert(outcome == orig[attempt as int]);
            assert(script@ =~= orig.skip(attempt as int + 1));
        }
        match attempt_verdict(outcome, attempt, max_retries) {
            Verdict::Success(rec) => {
                return (attempt as usize + 1, Some(rec));
            }
            Verdict::Missing => {
                return (attempt as usize + 1, None);
            }
            Verdict::Retry => {
                attempt = attempt + 1;
            }
        }
    }
}

proof fn lemma_transient_from(script: Seq<AttemptOutcome>, attempt: nat, max_retries: nat)
    requires
        attempt <= max_retries,
        script.len() > max_retries,
        forall|i: int| 0 <= i < script.len() ==> is_transient(#[trigger] script[i]),
    ensures
        protocol_from(script, attempt, max_retries) == (
            ((max_retries + 1) as nat),
            None::<SightingRecord>,
        ),
    decreases max_retries - attempt,
{
    if attempt < max_retries {
        lemma_transient_from(script, attempt + 1, max_retries);
    }
}

proof fn lemma_attempts_bounded_from(script: Seq<AttemptOutcome>, attempt: nat, max_retries: nat)
    requires
        attempt <= max_retries,
        script.len() > max_retries,
    ensures
        attempt + 1 <= protocol_from(script, attempt, max_retries).0 <= max_retries + 1,
    decreases max_retries - attempt,
{
    if attempt < max_retries {
        match verdict_of(script[attempt as int], attempt, max_retries) {
            Verdict::Retry => {
                lemma_attempts_bounded_from(script, attempt + 1, max_retries);
            }
            _ => {}
        }
    }
}

/// The retry budget is respected: the protocol always makes at least one
/// and at most `max_retries + 1` fetch attempts.
pub proof fn lemma_protocol_attempts_bounded(script: Seq<AttemptOutcome>, max_retries: nat)
    requires
        script.len() > max_retries,
    ensures
        1 <= protocol_attempts(script, max_retries) <= max_retries + 1,
{
    lemma_attempts_bounded_from(script, 0, max_retries);
}

/// A persistently transient-failing fetch performs exactly `max_retries + 1`
/// attempts, and yields no record.
pub proof fn lemma_transient_exhausts_budget(script: Seq<AttemptOutcome>, max_retries: nat)
    requires
        script.len() > max_retries,
        forall|i: int| 0 <= i < script.len() ==> is_transient(#[trigger] script[i]),
    ensures
        protocol_attempts(script, max_retries) == max_retries + 1,
        protocol_record(script, max_retries) is None,
{
    lemma_transient_from(script, 0, max_retries);
}

/// A success-status response whose body cannot be read, or in whose body
/// the extractor finds no record, is decisive on the spot: exactly one
/// attempt, no record, whatever the retry budget.
pub proof fn lemma_unparsable_success_is_terminal(script: Seq<AttemptOutcome>, max_retries: nat)
    requires
        script.len() > 0,
        script[0] is SuccessNoRecord || script[0] is SuccessBodyUnreadable,
    ensures
        protocol_attempts(script, max_retries) == 1,
        protocol_record(script, max_retries) is None,
{
}

/// An extracted record is decisive on the spot: exactly one attempt, and
/// the record comes out.
pub proof fn lemma_first_success_is_decisive(script: Seq<AttemptOutcome>, max_retries: nat)
    requires
        script.len() > 0,
        script[0] is SuccessRecord,
    ensures
        protocol_attempts(script, max_retries) == 1,
        protocol_record(script, max_retries) == Some(script[0]->SuccessRecord_0),
{
}

/// Relies on rand: `rand::rng().random_range(0..n)` draws a value uniformly
/// below `n`, and panics on an empty range, so `n` must be positive.
#[verifier::external_body]
fn random_below(n: u64) -> (r: u64)
    requires
        1 <= n,
    ensures
        r < n,
{
    rand::rng().random_range(0..n)
}

/// The jittered delay before a first attempt: the base delay plus a random
/// jitter below half the base delay.
pub fn initial_delay_ms(base_delay: u64) -> (d: u64)
    requires
        2 <= base_delay,
        base_delay + base_delay / 2 <= u64::MAX,
    ensures
        base_delay <= d < base_delay + base_delay / 2,
{
    base_delay + random_below(base_delay / 2)
}

/// The exponential-backoff delay before retry attempt `attempt`: two to
/// the power `attempt` times the base delay, plus a random jitter below the
/// base delay.
pub fn backoff_delay_ms(attempt: u32, base_delay: u64) -> (d: u64)
    requires
        1 <= attempt,
        1 <= base_delay,
        pow2(attempt as nat) * base_delay + base_delay <= u64::MAX,
    ensures
        pow2(attempt as nat) * base_delay <= d < pow2(attempt as nat) * base_delay + base_delay,
{
    proof {
        lemma2_to64();
        assert(pow2(attempt as nat) <= pow2(attempt as nat) * base_delay) by (nonlinear_arith)
            requires
                1 <= base_delay,
        ;
    }
    let mut factor: u64 = 1;
    let mut k: u32 = 0;
    while k < attempt
        invariant
            k <= attempt,
            factor == pow2(k as nat),
        decreases attempt - k,
    {
        proof {
            lemma_pow2_adds(k as nat, 1);
            if k + 1 < attempt {
                lemma_pow2_strictly_increases((k + 1) as nat, attempt as nat);
            }
            assert(pow2((k + 1) as nat) <= pow2(attempt as nat));
        }
        factor = factor * 2;
        k = k + 1;
    }
    let scaled = factor * base_delay;
    scaled + random_below(base_delay)
}

/// One digit as a character.
pub open spec fn digit_char(d: nat) -> char {
    if d == 0 {
        '0'
    } else if d == 1 {
        '1'
    } else if d == 2 {
        '2'
    } else if d == 3 {
        '3'
    } else if d == 4 {
        '4'
    } else if d == 5 {
        '5'
    } else if d == 6 {
        '6'
    } else if d == 7 {
        '7'
    } else if d == 8 {
        '8'
    } else {
        '9'
    }
}

/// The decimal digits of `n`, most significant first.
pub open spec fn decimal_digits(n: nat) -> Seq<char>
    decreases n,
{
    if n < 10 {
        seq![digit_char(n)]
    } else {
        decimal_digits(n / 10).push(digit_char(n % 10))
    }
}

/// The URL fetched for one identifier: the fixed sighting-details path with
/// the identifier's decimal digits at its end.
pub open spec fn sighting_url_spec(sighting_id: u64) -> Seq<char> {
    "https://www.butterfliesandmoths.org/sighting_details/"@ + decimal_digits(sighting_id as nat)
}

/// Relies on `format!` with `u64`'s `Display` implementation, which writes
/// the identifier's decimal digits, here after the fixed sighting-details
/// path.
#[verifier::external_body]
pub fn sighting_url(sighting_id: u64) -> (r: String)
    ensures
        r@ == sighting_url_spec(sighting_id),
{
    format!("https://www.butterfliesandmoths.org/sighting_details/{}", sighting_id)
}

} // verus!

