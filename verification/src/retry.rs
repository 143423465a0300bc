//! The retry policy: how long to wait before an attempt, and when to stop.

use vstd::prelude::*;

verus! {

/// The longest delay between two attempts, in milliseconds.
pub const MAX_DELAY_MS: u64 = 30000;

/// Two to the power of `n`.
pub open spec fn pow2(n: nat) -> nat
    decreases n,
{
    if n == 0 {
        1
    } else {
        2 * pow2((n - 1) as nat)
    }
}

/// The smaller of two numbers.
pub open spec fn smaller(a: nat, b: nat) -> nat {
    if a <= b {
        a
    } else {
        b
    }
}

/// The delay before attempt `attempt`, counted from one, without jitter:
/// the base delay doubled for every earlier attempt, capped at `max_delay`.
pub open spec fn expected_delay(attempt: nat, base_delay: nat, max_delay: nat) -> nat {
    smaller(base_delay * pow2((attempt - 1) as nat), max_delay)
}

/// The width of the range from which the jitter is drawn: twice a quarter
/// of the delay.
pub open spec fn jitter_span(delay: nat) -> nat {
    2 * (delay / 4)
}

/// A delay with its jitter: a quarter less than the delay, plus the jitter
/// drawn. The result stays within 64 bits.
pub open spec fn jittered(delay: nat, jitter: nat) -> nat {
    smaller((delay - delay / 4 + jitter) as nat, u64::MAX as nat)
}

/// Powers of two are positive and grow.
pub proof fn lemma_pow2_grows(a: nat, b: nat)
    requires
        a <= b,
    ensures
        0 < pow2(a) <= pow2(b),
    decreases b,
{
    if b > 0 {
        if a == b {
            lemma_pow2_grows((a - 1) as nat, (b - 1) as nat);
        } else {
            lemma_pow2_grows(a, (b - 1) as nat);
        }
    }
}

/// Whether the policy gives up at failure number `attempt`.
pub fn should_give_up(attempt: u32, max_attempts: u32) -> (stop: bool)
    ensures
        stop == (attempt > max_attempts),
{
    attempt > max_attempts
}

/// The delay before attempt `attempt`, without jitter.
pub fn base_backoff(attempt: u32, base_delay: u64, max_delay: u64) -> (delay: u64)
    requires
        attempt >= 1,
    ensures
        delay == expected_delay(attempt as nat, base_delay as nat, max_delay as nat),
{
    let mut delay: u64 = if base_delay <= max_delay {
        base_delay
    } else {
        max_delay
    };
    let mut done: u32 = 1;
    assert(base_delay * pow2(0) == base_delay) by (nonlinear_arith)
        requires
            pow2(0) == 1,
    ;
    while done < attempt && delay != 0 && delay < max_delay
        invariant
            1 <= done <= attempt,
            delay == expected_delay(done as nat, base_delay as nat, max_delay as nat),
        decreases attempt - done,
    {
        let ghost before = base_delay * pow2((done - 1) as nat);
        assert(before == delay);
        assert(base_delay * pow2(done as nat) == 2 * before) by (nonlinear_arith)
            requires
                pow2(done as nat) == 2 * pow2((done - 1) as nat),
                before == base_delay * pow2((done - 1) as nat),
        ;
        delay = if delay > max_delay / 2 {
            max_delay
        } else {
            delay * 2
        };
        done += 1;
    }
    proof {
        if done < attempt {
            lemma_pow2_grows((done - 1) as nat, (attempt - 1) as nat);
            let low = pow2((done - 1) as nat);
            let high = pow2((attempt - 1) as nat);
            if delay == 0 {
                if max_delay != 0 {
                    assert(base_delay * low == 0);
                    assert(base_delay == 0) by (nonlinear_arith)
                        requires
                            base_delay * low == 0,
                            low > 0,
                    ;
                    assert(base_delay * high == 0) by (nonlinear_arith)
                        requires
                            base_delay == 0,
                    ;
                } else {
                    assert(base_delay * high >= 0) by (nonlinear_arith)
                        requires
                            base_delay >= 0,
                            high >= 0,
                    ;
                }
            } else {
                assert(base_delay * low <= base_delay * high) by (nonlinear_arith)
                    requires
                        low <= high,
                        base_delay >= 0,
                ;
            }
        }
    }
    delay
}

/// Adds a jitter to a delay.
pub fn apply_jitter(delay: u64, jitter: u64) -> (waited: u64)
    requires
        jitter <= jitter_span(delay as nat),
    ensures
        waited == jittered(delay as nat, jitter as nat),
        3 * delay <= 4 * waited <= 5 * delay,
{
    let quarter: u64 = delay / 4;
    let low: u64 = delay - quarter;
    if jitter > u64::MAX - low {
        u64::MAX
    } else {
        low + jitter
    }
}

/// Trusted: `fastrand::u64` on the inclusive range from `low` to `high`. The
/// contract claims only that the number drawn lies in the range. The call
/// panics on an empty range, which `requires` leaves out.
#[verifier::external_body]
pub(crate) fn random_between(low: u64, high: u64) -> (drawn: u64)
    requires
        low <= high,
    ensures
        low <= drawn <= high,
{
    fastrand::u64(low..=high)
}

/// The delay before attempt `attempt` with the jitter taken from `draw`,
/// which may be any number: it is reduced to the width of the jitter range.
/// The same arguments give the same delay.
pub fn backoff_delay_with(attempt: u32, base_delay: u64, max_delay: u64, draw: u64) -> (waited: u64)
    requires
        attempt >= 1,
    ensures
        ({
            let delay = expected_delay(attempt as nat, base_delay as nat, max_delay as nat);
            &&& waited == jittered(delay, (draw as nat) % (jitter_span(delay) + 1))
            &&& 3 * delay <= 4 * waited <= 5 * delay
        }),
{
    let delay = base_backoff(attempt, base_delay, max_delay);
    let span: u64 = 2 * (delay / 4);
    apply_jitter(delay, draw % (span + 1))
}

/// The delay before attempt `attempt`: the expected delay with a jitter
/// drawn at random from a quarter below to a quarter above it.
pub fn backoff_delay(attempt: u32, base_delay: u64, max_delay: u64) -> (waited: u64)
    requires
        attempt >= 1,
    ensures
        ({
            let delay = expected_delay(attempt as nat, base_delay as nat, max_delay as nat);
            &&& exists|jitter: nat| jitter <= jitter_span(delay) && waited == #[trigger] jittered(delay, jitter)
            &&& 3 * delay <= 4 * waited <= 5 * delay
        }),
{
    let delay = base_backoff(attempt, base_delay, max_delay);
    let span: u64 = 2 * (delay / 4);
    let jitter = random_between(0, span);
    let waited = apply_jitter(delay, jitter);
    assert(waited == jittered(delay as nat, jitter as nat));
    waited
}

} // verus!
