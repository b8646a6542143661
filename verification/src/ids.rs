//! State ids: allocating the first free id at or above a cursor.

use vstd::prelude::*;

verus! {

/// The first id at or above `s` that is not yet a state (65536 when there is none).
pub open spec fn next_free(states: Set<u16>, s: int) -> int
    decreases 0x10000 - s,
{
    if s < 0 || s >= 0x10000 {
        0x10000
    } else if states.contains(s as u16) {
        next_free(states, s + 1)
    } else {
        s
    }
}

/// How many ids at or above `s` are not yet states.
pub open spec fn free_count(states: Set<u16>, s: int) -> nat
    decreases 0x10000 - s,
{
    if s < 0 || s >= 0x10000 {
        0
    } else if states.contains(s as u16) {
        free_count(states, s + 1)
    } else {
        1 + free_count(states, s + 1)
    }
}

pub proof fn lemma_free_count_insert_below(states: Set<u16>, x: u16, t: int)
    requires
        x < t,
    ensures
        free_count(states.insert(x), t) == free_count(states, t),
    decreases 0x10000 - t,
{
    if 0 <= t < 0x10000 {
        lemma_free_count_insert_below(states, x, t + 1);
        assert(states.insert(x).contains(t as u16) == states.contains(t as u16));
    }
}

pub proof fn lemma_alloc(states: Set<u16>, s: int)
    requires
        0 <= s,
        free_count(states, s) > 0,
    ensures
        s <= next_free(states, s) < 0x10000,
        !states.contains(next_free(states, s) as u16),
        forall|i: int| s <= i < next_free(states, s) ==> states.contains(#[trigger] (i as u16)),
        free_count(states.insert(next_free(states, s) as u16), next_free(states, s)) + 1
            == free_count(states, s),
    decreases 0x10000 - s,
{
    if states.contains(s as u16) {
        lemma_alloc(states, s + 1);
    } else {
        lemma_free_count_insert_below(states, s as u16, s + 1);
        assert(states.insert(s as u16).contains(s as u16));
    }
}

} // verus!
