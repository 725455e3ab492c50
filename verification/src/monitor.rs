//! The decisions of the background jobs: where an incremental poll cycle
//! reads from and when the watermark advances, the backfill retry schedule,
//! and the two-tier user-name lookup.

use vstd::prelude::*;
use vstd::string::StringExecFns;
use crate::store::Store;
use crate::strutil::spec_decimal_str;
use crate::strutil::u64_to_string;

verus! {

/// The lower bound of an incremental cycle: the stored watermark, or the
/// cycle's own start where none has been written yet.
pub fn poll_since(last_poll: Option<i64>, cycle_start: i64) -> (r: i64)
    ensures
        r == (match last_poll {
            Some(t) => t,
            None => cycle_start,
        }),
{
    match last_poll {
        Some(t) => t,
        None => cycle_start,
    }
}

/// The sixty-second safety window subtracted from the incremental query's
/// lower bound, absorbing clock skew at the remote.
pub fn query_window_start(since: i64) -> (r: i64)
    ensures
        r == if since >= i64::MIN + 60 {
            since - 60
        } else {
            i64::MIN as int
        },
{
    if since >= i64::MIN + 60 {
        since - 60
    } else {
        i64::MIN
    }
}

/// The watermark after one poll cycle: it advances to the cycle's start
/// exactly on success, and stays put on failure.
pub open spec fn spec_cycle_watermark(before: Option<i64>, cycle_start: i64, success: bool) -> Option<
    i64,
> {
    if success {
        Some(cycle_start)
    } else {
        before
    }
}

/// Record the outcome of one poll cycle against the store's watermark.
pub fn apply_cycle_result(s: &mut Store, cycle_start: i64, success: bool)
    requires
        old(s).wf(),
    ensures
        final(s).wf(),
        final(s).facts() == old(s).facts(),
        final(s).cells() == old(s).cells(),
        final(s).watermark_of() == spec_cycle_watermark(
            old(s).watermark_of(),
            cycle_start,
            success,
        ),
{
    if success {
        s.set_watermark(cycle_start);
    }
}

/// Law: the watermark is monotonic across cycles. A successful cycle moves
/// it to the cycle's start, which is no earlier than any watermark written
/// before that cycle began; a failed cycle leaves it untouched.
pub proof fn lemma_watermark_monotonic(before: Option<i64>, cycle_start: i64, success: bool)
    requires
        before is Some ==> before->Some_0 <= cycle_start,
    ensures
        !success ==> spec_cycle_watermark(before, cycle_start, success) == before,
        before is Some ==> spec_cycle_watermark(before, cycle_start, success) is Some
            && before->Some_0 <= spec_cycle_watermark(before, cycle_start, success)->Some_0,
{
}

/// The exponential backoff schedule: half a second, doubled after each
/// failed attempt.
pub open spec fn spec_backoff_ms(attempt: int) -> int
    decreases attempt,
{
    if attempt <= 1 {
        500
    } else {
        2 * spec_backoff_ms(attempt - 1)
    }
}

proof fn lemma_backoff_pos(a: int)
    ensures
        spec_backoff_ms(a) >= 500,
    decreases a,
{
    if a > 1 {
        lemma_backoff_pos(a - 1);
    }
}

proof fn lemma_backoff_le(a: int, b: int)
    requires
        a <= b,
    ensures
        500 <= spec_backoff_ms(a) <= spec_backoff_ms(b),
    decreases b - a,
{
    lemma_backoff_pos(a);
    if a < b {
        lemma_backoff_le(a, b - 1);
        lemma_backoff_pos(b - 1);
    }
}

/// The delay before retry number `attempt` of a failed project fetch.
pub fn backoff_ms(attempt: u32) -> (r: u64)
    requires
        1 <= attempt <= 10,
    ensures
        r == spec_backoff_ms(attempt as int),
{
    proof {
        reveal_with_fuel(spec_backoff_ms, 11);
        assert(spec_backoff_ms(10) == 256000);
    }
    let mut ms: u64 = 500;
    let mut i: u32 = 1;
    while i < attempt
        invariant
            1 <= i <= attempt <= 10,
            ms == spec_backoff_ms(i as int),
        decreases attempt - i,
    {
        proof {
            reveal_with_fuel(spec_backoff_ms, 11);
            lemma_backoff_le(i as int, 10);
            assert(spec_backoff_ms(10) == 256000);
        }
        ms = ms * 2;
        i = i + 1;
    }
    ms
}

/// Whether a failed fetch is tried again: up to `max_retries` retries
/// follow the first attempt.
pub fn should_retry(attempt: u32, max_retries: u32) -> (r: bool)
    ensures
        r == (attempt <= max_retries),
{
    attempt <= max_retries
}

/// What one lookup attempt produced: a name, an answer without a user, or
/// a transport failure.
pub enum LookupOutcome {
    Found(String),
    NoUser,
    Failed,
}

/// Whether the REST fallback is consulted: after any GraphQL outcome but a
/// found name.
pub fn needs_rest_fallback(graphql: &LookupOutcome) -> (r: bool)
    ensures
        r == !(graphql is Found),
{
    match graphql {
        LookupOutcome::Found(_) => false,
        LookupOutcome::NoUser => true,
        LookupOutcome::Failed => true,
    }
}

/// The name the two-tier lookup settles on.
pub open spec fn spec_resolved_name(graphql: LookupOutcome, rest: LookupOutcome) -> Option<String> {
    if graphql is Found {
        Some(graphql->Found_0)
    } else if rest is Found {
        Some(rest->Found_0)
    } else {
        None
    }
}

/// Combine the GraphQL attempt with the REST fallback: the GraphQL name
/// wins, the REST name covers both a missing user and a failure, and
/// nothing is written otherwise.
pub fn resolved_user_name(graphql: LookupOutcome, rest: LookupOutcome) -> (r: Option<String>)
    ensures
        r == spec_resolved_name(graphql, rest),
{
    match graphql {
        LookupOutcome::Found(name) => Some(name),
        _ => match rest {
            LookupOutcome::Found(name) => Some(name),
            _ => None,
        },
    }
}

/// The global id the forge's node endpoint expects for a pipeline.
pub fn pipeline_gid(pipeline_id: u64) -> (r: String)
    ensures
        r@ == "gid://gitlab/Ci::Pipeline/"@ + spec_decimal_str(pipeline_id as int),
{
    let mut out = String::new();
    out.append("gid://gitlab/Ci::Pipeline/");
    let digits = u64_to_string(pipeline_id);
    out.append(digits.as_str());
    out
}


/// The cold-start backfill cutoff: the lookback window of whole days before
/// `now`.
pub fn backfill_cutoff(now: i64, backfill_days: i64) -> (r: i64)
    requires
        0 <= backfill_days <= 100000,
        -4611686018427387904 <= now <= 4611686018427387904,
    ensures
        r == now - backfill_days * 86400,
{
    now - backfill_days * 86400
}

} // verus!
