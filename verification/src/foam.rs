//! The water-foam record pool: a ring of slots split in two partitions. The active mover
//! allocates from `[0, SELF_SLOTS)` and every other unit from `[SELF_SLOTS, POOL_SIZE)`, so the
//! others never evict the mover's records; inside a partition the next slot is the oldest one.
use vstd::prelude::*;

verus! {

/// Slots in the whole record pool.
pub const POOL_SIZE: usize = 128;

/// Slots reserved for the active mover, at the front of the pool.
pub const SELF_SLOTS: usize = 32;

/// The slot a partition starting at `base` hands out when its cursor stands at `cursor`.
pub open spec fn slot_at(base: int, cursor: int) -> int {
    base + cursor
}

/// Where a partition's cursor moves after one allocation: one on, wrapping at `len`.
pub open spec fn cursor_after(cursor: int, len: int) -> int {
    (cursor + 1) % len
}

/// Takes the next slot of the partition `[base, base + len)`, its oldest record, and moves the
/// cursor on by one, wrapping at the partition's length.
pub fn alloc_slot(cursor: &mut usize, base: usize, len: usize) -> (slot: usize)
    requires
        len > 0,
        base + *old(cursor) <= usize::MAX,
        *old(cursor) < usize::MAX,
    ensures
        slot == slot_at(base as int, *old(cursor) as int),
        *final(cursor) == cursor_after(*old(cursor) as int, len as int),
{
    let i = base + *cursor;
    *cursor = (*cursor + 1) % len;
    i
}

/// A cursor inside its partition stays inside it, and the slot it hands out lies in the
/// partition: the mover's slots are all below `SELF_SLOTS`, everyone else's at or above it and
/// below `POOL_SIZE`, so the two never share a slot.
pub proof fn lemma_partitions_never_overlap(self_cursor: int, other_cursor: int)
    requires
        0 <= self_cursor < SELF_SLOTS,
        0 <= other_cursor < POOL_SIZE - SELF_SLOTS,
    ensures
        0 <= slot_at(0, self_cursor) < SELF_SLOTS,
        SELF_SLOTS <= slot_at(SELF_SLOTS as int, other_cursor) < POOL_SIZE,
        0 <= cursor_after(self_cursor, SELF_SLOTS as int) < SELF_SLOTS,
        0 <= cursor_after(other_cursor, (POOL_SIZE - SELF_SLOTS) as int) < POOL_SIZE - SELF_SLOTS,
{
}

/// The cursor of a partition after `n` allocations from a fresh start: `n` wrapped at the
/// partition's length, so `len + k` allocations leave it at `k` and the `k` oldest records
/// have been overwritten.
pub open spec fn cursor_after_n(len: int, n: nat) -> int
    decreases n,
{
    if n == 0 {
        0
    } else {
        cursor_after(cursor_after_n(len, (n - 1) as nat), len)
    }
}

/// Allocation from a fresh partition counts modulo its length.
pub proof fn lemma_cursor_counts_modulo(len: int, n: nat)
    requires
        len > 0,
    ensures
        cursor_after_n(len, n) == (n as int) % len,
    decreases n,
{
    if n == 0 {
        vstd::arithmetic::div_mod::lemma_small_mod(0, len as nat);
    } else {
        lemma_cursor_counts_modulo(len, (n - 1) as nat);
        let m = (n - 1) as int;
        assert(((m % len) + 1) % len == (m + 1) % len) by {
            vstd::arithmetic::div_mod::lemma_add_mod_noop(m, 1, len);
            vstd::arithmetic::div_mod::lemma_add_mod_noop(m % len, 1, len);
            vstd::arithmetic::div_mod::lemma_mod_twice(m, len);
        }
    }
}

} // verus!
