//! The delay before an upload is tried again.

use vstd::prelude::*;

verus! {

/// The shortest delay, in milliseconds.
pub const BACKOFF_BASE_MS: i64 = 5_000;

/// The longest delay, in milliseconds: ten minutes.
pub const BACKOFF_MAX_MS: i64 = 600_000;

/// The number of failures after which the delay no longer doubles.
pub const BACKOFF_MAX_DOUBLINGS: u32 = 10;

/// Two to the power of `n`.
pub open spec fn pow2(n: nat) -> nat
    decreases n,
{
    if n == 0 {
        1
    } else {
        2 * pow2((n - 1) as nat)
    }
}

/// The delay after `retry` failed attempts: the base doubled for each
/// failure up to ten, and not more than the maximum.
pub open spec fn backoff_delay_ms(retry: nat) -> int {
    let doublings = if retry < BACKOFF_MAX_DOUBLINGS {
        retry
    } else {
        BACKOFF_MAX_DOUBLINGS as nat
    };
    let raw = BACKOFF_BASE_MS * pow2(doublings);
    if raw > BACKOFF_MAX_MS {
        BACKOFF_MAX_MS as int
    } else if raw < BACKOFF_BASE_MS {
        BACKOFF_BASE_MS as int
    } else {
        raw
    }
}

/// A higher power of two is not smaller.
pub proof fn lemma_pow2_monotonic(a: nat, b: nat)
    requires
        a <= b,
    ensures
        1 <= pow2(a) <= pow2(b),
    decreases b,
{
    if a < b {
        lemma_pow2_monotonic(a, (b - 1) as nat);
    } else if a > 0 {
        lemma_pow2_monotonic((a - 1) as nat, (a - 1) as nat);
    }
}

/// The delay never shrinks as failures add up, lies between base and
/// maximum, and is the maximum from the seventh failure on.
pub proof fn lemma_backoff_monotonic(a: nat, b: nat)
    requires
        a <= b,
    ensures
        backoff_delay_ms(a) <= backoff_delay_ms(b),
        BACKOFF_BASE_MS <= backoff_delay_ms(a) <= BACKOFF_MAX_MS,
        a >= 7 ==> backoff_delay_ms(a) == BACKOFF_MAX_MS,
{
    let da: nat = if a < 10 { a } else { 10 };
    let db: nat = if b < 10 { b } else { 10 };
    lemma_pow2_monotonic(da, db);
    assert(BACKOFF_BASE_MS * pow2(da) <= BACKOFF_BASE_MS * pow2(db)) by (nonlinear_arith)
        requires
            pow2(da) <= pow2(db),
    ;
    assert(BACKOFF_BASE_MS * pow2(da) >= BACKOFF_BASE_MS) by (nonlinear_arith)
        requires
            1 <= pow2(da),
    ;
    if a >= 7 {
        lemma_pow2_monotonic(7, da);
        assert(pow2(7) == 128) by {
            reveal_with_fuel(pow2, 8);
        }
        assert(BACKOFF_BASE_MS * pow2(da) >= 640_000) by (nonlinear_arith)
            requires
                pow2(da) >= 128,
        ;
    }
}

/// The time at which a job that has failed `retry` times at `now_ms` is due
/// again.
pub open spec fn due_after(now_ms: int, retry: nat) -> int {
    now_ms + backoff_delay_ms(retry)
}

/// The schedule of delays: the base doubled once for each failure below
/// seven, which is less than the maximum, and the maximum from seven
/// failures on.
pub proof fn lemma_backoff_schedule(retry: nat)
    ensures
        retry < 7 ==> backoff_delay_ms(retry) == BACKOFF_BASE_MS * pow2(retry) && BACKOFF_BASE_MS
            <= backoff_delay_ms(retry) < BACKOFF_MAX_MS,
        retry >= 7 ==> backoff_delay_ms(retry) == BACKOFF_MAX_MS,
{
    lemma_backoff_monotonic(retry, retry);
    if retry < 7 {
        lemma_pow2_monotonic(retry, 6);
        assert(pow2(6) == 64) by {
            reveal_with_fuel(pow2, 7);
        }
        assert(BACKOFF_BASE_MS * pow2(retry) <= 320_000) by (nonlinear_arith)
            requires
                pow2(retry) <= 64,
        ;
    }
}

/// The time at which a job is due again never moves back as its failures
/// add up, whatever the time of the failure; it lies the delay after that
/// time, which depends on the failures alone, and ten minutes after it from
/// seven failures on.
pub proof fn lemma_due_after(now_ms: int, other_ms: int, fewer: nat, more: nat)
    requires
        fewer <= more,
    ensures
        due_after(now_ms, fewer) <= due_after(now_ms, more),
        due_after(now_ms, fewer) - now_ms == due_after(other_ms, fewer) - other_ms,
        now_ms + BACKOFF_BASE_MS <= due_after(now_ms, fewer) <= now_ms + BACKOFF_MAX_MS,
        fewer >= 7 ==> due_after(now_ms, fewer) == now_ms + BACKOFF_MAX_MS,
        fewer < 7 ==> due_after(now_ms, fewer) == now_ms + BACKOFF_BASE_MS * pow2(fewer),
{
    lemma_backoff_monotonic(fewer, more);
    lemma_backoff_schedule(fewer);
}

/// The delay after `retry` failed attempts, in milliseconds.
pub fn backoff_delay(retry: u32) -> (delay: i64)
    ensures
        delay == backoff_delay_ms(retry as nat),
        BACKOFF_BASE_MS <= delay <= BACKOFF_MAX_MS,
        retry < 7 ==> delay == BACKOFF_BASE_MS * pow2(retry as nat) && delay < BACKOFF_MAX_MS,
        retry >= 7 ==> delay == BACKOFF_MAX_MS,
{
    proof {
        lemma_backoff_schedule(retry as nat);
    }
    let doublings: u32 = if retry < BACKOFF_MAX_DOUBLINGS {
        retry
    } else {
        BACKOFF_MAX_DOUBLINGS
    };
    let mut raw: i64 = BACKOFF_BASE_MS;
    let mut done: u32 = 0;
    while done < doublings
        invariant
            done <= doublings <= 10,
            raw == BACKOFF_BASE_MS * pow2(done as nat),
        decreases doublings - done,
    {
        proof {
            assert(pow2(10) == 1024) by {
                reveal_with_fuel(pow2, 11);
            }
            lemma_pow2_monotonic((done + 1) as nat, 10);
            let p = pow2(done as nat);
            assert(pow2((done + 1) as nat) == 2 * p);
            assert(BACKOFF_BASE_MS * (2 * p) == 2 * (BACKOFF_BASE_MS * p) && BACKOFF_BASE_MS * p
                <= 2_560_000 && 0 <= BACKOFF_BASE_MS * p) by (nonlinear_arith)
                requires
                    0 <= p <= 512,
            ;
        }
        raw = raw * 2;
        done += 1;
    }
    proof {
        lemma_backoff_monotonic(retry as nat, retry as nat);
    }
    if raw > BACKOFF_MAX_MS {
        BACKOFF_MAX_MS
    } else if raw < BACKOFF_BASE_MS {
        BACKOFF_BASE_MS
    } else {
        raw
    }
}

} // verus!
