use vstd::prelude::*;
use vstd::arithmetic::div_mod::{lemma_add_mod_noop, lemma_mod_mod, lemma_small_mod};
use std::time::{Duration, Instant};

verus! {

/// `std::time::Instant`, carried through the search as an opaque value.
#[verifier::external_type_specification]
#[verifier::external_body]
pub struct ExInstant(Instant);

/// `Instant::now`: the current time. Nothing is promised of it.
#[verifier::external_body]
pub(crate) fn now() -> Instant {
    Instant::now()
}

/// `Instant::elapsed`: the time since `start`. It depends on the clock, so nothing is promised
/// of it.
#[verifier::external_body]
fn elapsed(start: &Instant) -> Duration {
    start.elapsed()
}

/// `Duration::as_millis`: whole milliseconds. The value depends on the clock reading it came
/// from, so nothing is promised of it here.
#[verifier::external_body]
fn duration_millis(d: &Duration) -> u128 {
    d.as_millis()
}

/// Whether more than `time_limit_ms` milliseconds have passed, given the milliseconds
/// `elapsed_ms` read from the clock.
pub fn past_limit(elapsed_ms: u128, time_limit_ms: u128) -> (r: bool)
    ensures
        r == (elapsed_ms > time_limit_ms),
{
    elapsed_ms > time_limit_ms
}

/// Whether the search must stop: it looks at the clock only on every 2048th node, and stops
/// when the milliseconds passed since `start`, as read there, are past `time_limit_ms` (see
/// `past_limit`). The reading depends on the clock: what holds of every outcome is that a node
/// count that is not a multiple of 2048 never stops the search, and neither does the largest
/// limit, which no reading exceeds.
pub fn time_is_up(nodes: u64, start: &Instant, time_limit_ms: u128) -> (r: bool)
    ensures
        nodes & 2047 != 0 ==> !r,
        time_limit_ms == u128::MAX ==> !r,
{
    if (nodes & 2047) == 0 {
        let d = elapsed(start);
        let elapsed_ms = duration_millis(&d);
        past_limit(elapsed_ms, time_limit_ms)
    } else {
        false
    }
}

/// The node counter after `n` more nodes from `start`: it wraps round at 2^64.
pub open spec fn wrapped(start: u64, n: int) -> int {
    (start + n) % 0x1_0000_0000_0000_0000int
}

/// The `j`-th node counted after `start` is one at which the clock is read.
pub open spec fn clock_node(start: u64, j: int) -> bool {
    (start + j) % 2048 == 0
}

/// Counting `n` nodes from `start` passes a node at which the clock is read.
pub open spec fn reads_clock(start: u64, n: int) -> bool {
    exists|j: int| 1 <= j <= n && #[trigger] clock_node(start, j)
}

/// Counting `n` nodes and then `k` more is counting `n + k` nodes.
pub proof fn lemma_wrapped_add(a: u64, n: int, k: int)
    ensures
        0 <= wrapped(a, n) <= u64::MAX,
        wrapped(wrapped(a, n) as u64, k) == wrapped(a, n + k),
{
    let m = 0x1_0000_0000_0000_0000int;
    let x = wrapped(a, n);
    lemma_add_mod_noop(a + n, k, m);
    lemma_add_mod_noop(x, k, m);
    lemma_small_mod(x as nat, m as nat);
}

/// One step of the wrapping counter.
pub proof fn lemma_wrap_one(x: u64)
    ensures
        (if x + 1 > u64::MAX {
            x + 1 - 0x1_0000_0000_0000_0000int
        } else {
            x + 1
        }) == wrapped(x, 1),
{
    let m = 0x1_0000_0000_0000_0000int;
    if x + 1 < m {
        lemma_small_mod((x + 1) as nat, m as nat);
    }
}

proof fn lemma_low_bits(x: u64)
    by (bit_vector)
    ensures
        x & 2047 == x % 2048,
{
}

/// The counter after `j` nodes has its low eleven bits clear exactly at a clock node.
pub proof fn lemma_clock_node(a: u64, j: int, x: u64)
    requires
        x == wrapped(a, j),
    ensures
        (x & 2047 == 0) == clock_node(a, j),
{
    lemma_low_bits(x);
    lemma_mod_mod(a + j, 2048, 0x20_0000_0000_0000int);
    assert(2048 * 0x20_0000_0000_0000int == 0x1_0000_0000_0000_0000int);
}

/// A clock node among `k` nodes counted from the counter after `p` nodes is a clock node among
/// the first `p + k` nodes, and so among any more.
pub proof fn lemma_reads_sub(a: u64, p: int, k: int, x: u64, total: int)
    requires
        x == wrapped(a, p),
        0 <= p,
        p + k <= total,
        reads_clock(x, k),
    ensures
        reads_clock(a, total),
{
    let j = choose|j: int| 1 <= j <= k && #[trigger] clock_node(x, j);
    lemma_mod_mod(a + p, 2048, 0x20_0000_0000_0000int);
    assert(2048 * 0x20_0000_0000_0000int == 0x1_0000_0000_0000_0000int);
    lemma_add_mod_noop(x as int, j, 2048);
    lemma_add_mod_noop(a + p, j, 2048);
    assert(clock_node(a, p + j));
}

/// While the count fits in 64 bits the counter does not wrap: after `n >= 1` nodes it has
/// grown by exactly `n`.
pub proof fn lemma_counter_grows(a: u64, n: int)
    requires
        n >= 1,
        a + n <= u64::MAX,
    ensures
        wrapped(a, n) == a + n,
        wrapped(a, n) > a,
{
    lemma_small_mod((a + n) as nat, 0x1_0000_0000_0000_0000nat);
}

} // verus!
