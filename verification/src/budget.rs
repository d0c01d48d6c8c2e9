//! How many bytes a capture may read, per entry and in all.
use vstd::prelude::*;

verus! {

/// The most bytes that one entry may hold.
pub const MAX_ENTRY_BYTES: usize = 1024 * 1024;

/// The most bytes that all entries of a snapshot may hold together.
pub const MAX_TOTAL_BYTES: usize = 64 * 1024 * 1024;

/// The limits that a snapshot was taken under.
#[derive(Debug, Clone, Copy)]
pub struct Limits {
    pub max_entry_bytes: usize,
    pub max_total_bytes: usize,
}

impl Default for Limits {
    fn default() -> (limits: Self)
        ensures
            limits.max_entry_bytes == MAX_ENTRY_BYTES,
            limits.max_total_bytes == MAX_TOTAL_BYTES,
            limits.max_entry_bytes == 1_048_576,
            limits.max_total_bytes == 64 * limits.max_entry_bytes,
    {
        Limits { max_entry_bytes: MAX_ENTRY_BYTES, max_total_bytes: MAX_TOTAL_BYTES }
    }
}

/// The smaller of two numbers of bytes.
pub open spec fn at_most(bytes: nat, limit: nat) -> nat {
    if bytes <= limit {
        bytes
    } else {
        limit
    }
}

/// What is left of `remaining` once `bytes` of it are used.
pub open spec fn less_by(remaining: nat, bytes: nat) -> nat {
    if bytes <= remaining {
        (remaining - bytes) as nat
    } else {
        0
    }
}

/// The smaller of two numbers is one of them, and neither is smaller.
pub proof fn at_most_is_the_smaller(bytes: nat, limit: nat)
    ensures
        at_most(bytes, limit) <= bytes,
        at_most(bytes, limit) <= limit,
        at_most(bytes, limit) == bytes || at_most(bytes, limit) == limit,
{
}

/// What is used and what is left come to what there was, as long as there was enough;
/// otherwise nothing is left. It makes no difference whether bytes are used at once or one
/// part after the other.
pub proof fn what_is_used_is_gone(remaining: nat, bytes: nat, more: nat)
    ensures
        bytes <= remaining ==> less_by(remaining, bytes) + bytes == remaining,
        bytes >= remaining ==> less_by(remaining, bytes) == 0,
        less_by(less_by(remaining, bytes), more) == less_by(remaining, bytes + more),
{
}

/// The bytes that may still be read.
#[derive(Debug)]
pub struct Budget {
    remaining: usize,
}

impl View for Budget {
    type V = nat;

    closed spec fn view(&self) -> nat {
        self.remaining as nat
    }
}

impl Budget {
    pub fn new(bytes: usize) -> (budget: Self)
        ensures
            budget@ == bytes,
    {
        Budget { remaining: bytes }
    }

    /// The bytes that are left.
    pub fn remaining(&self) -> (bytes: usize)
        ensures
            bytes == self@,
    {
        self.remaining
    }

    pub fn exhausted(&self) -> (exhausted: bool)
        ensures
            exhausted <==> self@ == 0,
    {
        self.remaining == 0
    }

    /// How many bytes the next entry may hold: no more than are left, and no more
    /// than an entry may hold.
    pub fn allowance(&self, max_entry_bytes: usize) -> (bytes: usize)
        ensures
            bytes == at_most(self@, max_entry_bytes as nat),
            bytes <= self@,
            bytes <= max_entry_bytes,
            bytes == self@ || bytes == max_entry_bytes,
    {
        if self.remaining <= max_entry_bytes {
            self.remaining
        } else {
            max_entry_bytes
        }
    }

    /// Takes `bytes` off what is left, down to nothing.
    pub fn consume(&mut self, bytes: usize)
        ensures
            final(self)@ == less_by(old(self)@, bytes as nat),
            bytes <= old(self)@ ==> final(self)@ + bytes == old(self)@,
            bytes >= old(self)@ ==> final(self)@ == 0,
    {
        self.remaining = self.remaining.saturating_sub(bytes);
    }
}

} // verus!
