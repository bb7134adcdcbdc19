use vstd::prelude::*;

verus! {

/// The count after one more negation sign.
///
/// The count wraps at `u32::MAX`; since `2^32` is even, parity still flips.
pub open spec fn bump(count: u32) -> u32 {
    if count == u32::MAX {
        0
    } else {
        (count + 1) as u32
    }
}

/// Whether a count of negation signs inverts a truth value.
pub open spec fn odd(count: u32) -> bool {
    count % 2 == 1
}

/// Two counts of negation signs together, wrapping as the counts do.
pub open spec fn merge(a: u32, b: u32) -> u32 {
    ((a as int + b as int) % 0x1_0000_0000) as u32
}

pub proof fn lemma_bump_flips(count: u32)
    ensures
        odd(bump(count)) == !odd(count),
{
}

/// The number of negation signs attached to a node.
///
/// Only the parity of the count matters for truth; the exact count is kept
/// so that printing reproduces every sign that was written or added.
#[derive(Debug, Clone, Copy, PartialEq, Eq, Structural)]
pub struct Negation {
    count: u32,
}

impl View for Negation {
    type V = u32;

    closed spec fn view(&self) -> u32 {
        self.count
    }
}

impl Negation {
    /// A negation with the given number of signs.
    pub fn new(count: u32) -> (r: Self)
        ensures
            r@ == count,
    {
        Negation { count }
    }

    /// No negation sign at all.
    pub fn none() -> (r: Self)
        ensures
            r@ == 0,
    {
        Negation { count: 0 }
    }

    /// Adds one negation sign.
    pub fn deny(&mut self)
        ensures
            final(self)@ == bump(old(self)@),
    {
        self.count = if self.count == u32::MAX {
            0
        } else {
            self.count + 1
        };
    }

    /// Adds two negation signs; the truth value is unchanged.
    pub fn double_deny(&mut self)
        ensures
            final(self)@ == bump(bump(old(self)@)),
    {
        self.deny();
        self.deny();
    }

    /// Adds one negation sign (the same as `deny`).
    pub fn negate(&mut self)
        ensures
            final(self)@ == bump(old(self)@),
    {
        self.deny();
    }

    /// Adds two negation signs (the same as `double_deny`).
    pub fn double_negate(&mut self)
        ensures
            final(self)@ == bump(bump(old(self)@)),
    {
        self.double_deny();
    }

    /// Reduces the count to 0 or 1, keeping its parity.
    pub fn reduce(&mut self)
        ensures
            final(self)@ == old(self)@ % 2,
    {
        self.count = self.count % 2;
    }

    /// Whether the count is odd.
    pub fn is_denied(&self) -> (r: bool)
        ensures
            r == odd(self@),
    {
        self.count % 2 == 1
    }

    /// The truth contribution: true when the count is even.
    pub fn tval(&self) -> (r: bool)
        ensures
            r == !odd(self@),
    {
        self.count % 2 != 1
    }

    /// The signs of both negations together.
    pub fn combine(a: Negation, b: Negation) -> (r: Negation)
        ensures
            r@ == merge(a@, b@),
    {
        Negation { count: ((a.count as u64 + b.count as u64) % 0x1_0000_0000u64) as u32 }
    }

    /// The number of negation signs.
    pub fn count(&self) -> (r: u32)
        ensures
            r == self@,
    {
        self.count
    }
}

impl Default for Negation {
    fn default() -> (r: Self)
        ensures
            r@ == 0,
    {
        Negation { count: 0 }
    }
}

} // verus!
