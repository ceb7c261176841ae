//! What the daemon decides outside of its state.

use vstd::prelude::*;

verus! {

/// The pause before the first reconnection, in milliseconds.
pub const FIRST_BACKOFF_MS: u64 = 100;

/// The longest pause before a reconnection, in milliseconds.
pub const LONGEST_BACKOFF_MS: u64 = 5000;

/// Twice as long, up to the longest.
pub open spec fn doubled(backoff_ms: int) -> int {
    if 2 * backoff_ms < LONGEST_BACKOFF_MS {
        2 * backoff_ms
    } else {
        LONGEST_BACKOFF_MS as int
    }
}

/// The pause after this one: twice as long, up to the longest.
pub fn next_backoff(backoff_ms: u64) -> (next: u64)
    ensures
        next == doubled(backoff_ms as int),
{
    if backoff_ms < 2500 {
        2 * backoff_ms
    } else {
        LONGEST_BACKOFF_MS
    }
}

/// A pause is followed by one as long as two of it, or by the longest where that is shorter.
pub proof fn law_doubled(backoff_ms: int)
    ensures
        doubled(backoff_ms) <= 5000,
        2 * backoff_ms <= 5000 ==> doubled(backoff_ms) == backoff_ms + backoff_ms,
        2 * backoff_ms > 5000 ==> doubled(backoff_ms) == 5000,
{
}

/// The pause after so many reconnections.
pub open spec fn backoff_after(reconnections: nat) -> int
    decreases reconnections,
{
    if reconnections == 0 {
        FIRST_BACKOFF_MS as int
    } else {
        doubled(backoff_after((reconnections - 1) as nat))
    }
}

/// The pauses never get shorter nor longer than the longest, and reach it with the sixth
/// reconnection.
pub proof fn law_backoff(reconnections: nat)
    ensures
        FIRST_BACKOFF_MS <= backoff_after(reconnections) <= LONGEST_BACKOFF_MS,
        backoff_after(reconnections) <= backoff_after(reconnections + 1),
        reconnections >= 6 ==> backoff_after(reconnections) == LONGEST_BACKOFF_MS,
    decreases reconnections,
{
    if reconnections == 0 {
    } else if reconnections <= 6 {
        reveal_with_fuel(backoff_after, 8);
    } else {
        law_backoff((reconnections - 1) as nat);
    }
}

/// Whether there is something to switch between: two layouts, or a keymap file in
/// their place.
pub fn can_switch(layout_count: usize, kb_file_is_set: bool) -> (yes: bool)
    ensures
        yes == (layout_count >= 2 || kb_file_is_set),
{
    layout_count >= 2 || kb_file_is_set
}

} // verus!
