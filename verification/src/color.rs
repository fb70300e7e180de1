//! The colour sequence: arcs are numbered in the order in which they are drawn.

use vstd::prelude::*;

verus! {

/// Hands out colour ordinals, one per drawn arc.
#[derive(Debug)]
pub struct ColorCounter {
    next: u64,
}

impl ColorCounter {
    /// The ordinal that the next arc receives.
    pub closed spec fn upcoming(&self) -> u64 {
        self.next
    }

    /// A counter that starts at ordinal zero.
    pub fn new() -> (counter: ColorCounter)
        ensures
            counter.upcoming() == 0,
    {
        ColorCounter { next: 0 }
    }

    /// The ordinal that the next arc receives.
    pub fn peek(&self) -> (ordinal: u64)
        ensures
            ordinal == self.upcoming(),
    {
        self.next
    }
}

/// The ordinal `steps` places after `first`; the sequence wraps round after
/// `u64::MAX`.
pub open spec fn color_after(first: u64, steps: nat) -> u64 {
    ((first as nat + steps) % 0x1_0000_0000_0000_0000) as u64
}

/// Going on by `more` from the ordinal `steps` after `first` leads to the
/// ordinal `steps + more` after `first`.
pub proof fn lemma_color_after_sum(first: u64, steps: nat, more: nat)
    ensures
        color_after(color_after(first, steps), more) == color_after(first, steps + more),
        color_after(first, 0) == first,
{
    let modulus = 0x1_0000_0000_0000_0000int;
    let base = first as int + steps as int;
    vstd::arithmetic::div_mod::lemma_add_mod_noop(base, more as int, modulus);
    vstd::arithmetic::div_mod::lemma_add_mod_noop(base % modulus, more as int, modulus);
    vstd::arithmetic::div_mod::lemma_mod_twice(base, modulus);
    vstd::arithmetic::div_mod::lemma_small_mod(first as nat, modulus as nat);
}

/// Takes the next ordinal of the sequence.
pub fn next_color_count(counter: &mut ColorCounter) -> (ordinal: u64)
    ensures
        ordinal == old(counter).upcoming(),
        final(counter).upcoming() == color_after(old(counter).upcoming(), 1),
{
    let ordinal: u64 = counter.next;
    counter.next = if ordinal == u64::MAX { 0 } else { ordinal + 1 };
    ordinal
}

/// Starts the sequence again at zero, as is done before each frame.
pub fn reset_color_count(counter: &mut ColorCounter)
    ensures
        final(counter).upcoming() == 0,
{
    counter.next = 0;
}

} // verus!
