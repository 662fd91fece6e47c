//! Wrapping 32-bit sequence numbers.

use vstd::prelude::*;
use core::cmp::Ordering;

verus! {

/// A per-packet counter that wraps from `u32::MAX` back to zero.
///
/// Ordering and equality are those of the underlying unsigned value; no
/// sliding-window comparison is implied.
#[derive(Debug, Clone, Copy, PartialEq, Eq, Ord, Hash, Structural)]
pub struct SequenceNumber(u32);

impl PartialOrd for SequenceNumber {
    /// Sequence numbers order as their values do.
    fn partial_cmp(&self, other: &Self) -> (order: Option<Ordering>)
    {
        if self.0 < other.0 {
            Some(Ordering::Less)
        } else if self.0 > other.0 {
            Some(Ordering::Greater)
        } else {
            Some(Ordering::Equal)
        }
    }
}

impl vstd::std_specs::cmp::PartialOrdSpecImpl for SequenceNumber {
    open spec fn obeys_partial_cmp_spec() -> bool {
        true
    }

    open spec fn partial_cmp_spec(&self, other: &Self) -> Option<Ordering> {
        if self@ < other@ {
            Some(Ordering::Less)
        } else if self@ > other@ {
            Some(Ordering::Greater)
        } else {
            Some(Ordering::Equal)
        }
    }
}

impl View for SequenceNumber {
    type V = u32;

    closed spec fn view(&self) -> u32 {
        self.0
    }
}

impl SequenceNumber {
    /// The sequence number whose value is `value`.
    pub closed spec fn spec_new(value: u32) -> Self {
        SequenceNumber(value)
    }

    /// The value reached from `self` after `count` wrapping steps.
    pub open spec fn advanced(self, count: nat) -> u32 {
        ((self@ + count) % 0x1_0000_0000) as u32
    }

    /// The sequence number whose value is `value`.
    #[verifier::when_used_as_spec(spec_new)]
    pub fn new(value: u32) -> (number: Self)
        ensures
            number == Self::spec_new(value),
            number@ == value,
    {
        Self(value)
    }

    /// The value of this sequence number.
    pub fn value(self) -> (value: u32)
        ensures
            value == self@,
    {
        self.0
    }

    /// The wrapping successor: `u32::MAX` is followed by zero.
    pub fn next(self) -> (successor: Self)
        ensures
            successor@ == self.advanced(1),
            self@ < u32::MAX ==> successor@ == self@ + 1,
            self@ == u32::MAX ==> successor@ == 0,
    {
        Self(self.0.wrapping_add(1))
    }

    /// A sequence number is determined by its value.
    pub proof fn lemma_value_determines(a: Self, b: Self)
        ensures
            a@ == b@ <==> a == b,
            Self::spec_new(a@) == a,
    {
    }

    /// The value of a freshly made sequence number is the one it was made from.
    pub proof fn lemma_new_value(value: u32)
        ensures
            Self::spec_new(value)@ == value,
    {
    }

    /// Stepping `first` times and then `second` times is stepping
    /// `first + second` times.
    pub proof fn lemma_advanced_twice(self, first: nat, second: nat)
        ensures
            Self::spec_new(self.advanced(first)).advanced(second) == self.advanced(first + second),
    {
    }
}

} // verus!
