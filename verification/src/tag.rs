//! The closed set of value types a scan can target, with their byte
//! widths, display suffixes, and the canonical tie-break order used by
//! the merged result iteration.

use vstd::prelude::*;

verus! {

/// The twelve value types an operand can have. `B<n>` is the unsigned
/// integer of `n` bytes, `B<n>S` its signed counterpart; `F` and `D` are
/// the 4-byte and 8-byte IEEE-754 floats, carried through the store as
/// their raw bit patterns.
#[derive(Clone, Copy, PartialEq, Eq, Structural, Debug)]
pub enum Datatype {
    B16,
    B16S,
    B8,
    B8S,
    B4,
    B4S,
    B2,
    B2S,
    B1,
    B1S,
    D,
    F,
}

impl Datatype {
    /// Width in bytes of a value of this type.
    pub open spec fn spec_width(self) -> usize {
        match self {
            Datatype::B1 | Datatype::B1S => 1,
            Datatype::B2 | Datatype::B2S => 2,
            Datatype::B4 | Datatype::B4S | Datatype::F => 4,
            Datatype::B8 | Datatype::B8S | Datatype::D => 8,
            Datatype::B16 | Datatype::B16S => 16,
        }
    }

    /// Width in bytes of a value of this type.
    #[verifier::when_used_as_spec(spec_width)]
    pub fn width(self) -> (w: usize)
        ensures
            w == self.spec_width(),
    {
        match self {
            Datatype::B1 | Datatype::B1S => 1,
            Datatype::B2 | Datatype::B2S => 2,
            Datatype::B4 | Datatype::B4S | Datatype::F => 4,
            Datatype::B8 | Datatype::B8S | Datatype::D => 8,
            Datatype::B16 | Datatype::B16S => 16,
        }
    }

    /// Position in the canonical tie-break order: when several types hold
    /// an entry at the same address, the one with the smaller rank comes
    /// first in the merged iteration.
    pub open spec fn spec_rank(self) -> usize {
        match self {
            Datatype::B16S => 0,
            Datatype::B16 => 1,
            Datatype::B8S => 2,
            Datatype::B8 => 3,
            Datatype::B4S => 4,
            Datatype::B4 => 5,
            Datatype::B2S => 6,
            Datatype::B2 => 7,
            Datatype::B1S => 8,
            Datatype::B1 => 9,
            Datatype::D => 10,
            Datatype::F => 11,
        }
    }

    /// Position in the canonical tie-break order.
    #[verifier::when_used_as_spec(spec_rank)]
    pub fn rank(self) -> (r: usize)
        ensures
            r == self.spec_rank(),
    {
        match self {
            Datatype::B16S => 0,
            Datatype::B16 => 1,
            Datatype::B8S => 2,
            Datatype::B8 => 3,
            Datatype::B4S => 4,
            Datatype::B4 => 5,
            Datatype::B2S => 6,
            Datatype::B2 => 7,
            Datatype::B1S => 8,
            Datatype::B1 => 9,
            Datatype::D => 10,
            Datatype::F => 11,
        }
    }

    /// True of the two types whose values are float bit patterns.
    pub open spec fn spec_is_float(self) -> bool {
        self == Datatype::F || self == Datatype::D
    }

    /// True of the two types whose values are float bit patterns.
    #[verifier::when_used_as_spec(spec_is_float)]
    pub fn is_float(self) -> (r: bool)
        ensures
            r == self.spec_is_float(),
    {
        match self {
            Datatype::F | Datatype::D => true,
            _ => false,
        }
    }

    /// True of the five signed integer types.
    pub open spec fn spec_is_signed(self) -> bool {
        match self {
            Datatype::B1S | Datatype::B2S | Datatype::B4S | Datatype::B8S | Datatype::B16S => true,
            _ => false,
        }
    }

    /// True of the five signed integer types.
    #[verifier::when_used_as_spec(spec_is_signed)]
    pub fn is_signed(self) -> (r: bool)
        ensures
            r == self.spec_is_signed(),
    {
        match self {
            Datatype::B1S | Datatype::B2S | Datatype::B4S | Datatype::B8S | Datatype::B16S => true,
            _ => false,
        }
    }
}

/// The type at a given position of the canonical tie-break order.
pub open spec fn spec_tag_of_rank(r: usize) -> Datatype {
    if r == 0 {
        Datatype::B16S
    } else if r == 1 {
        Datatype::B16
    } else if r == 2 {
        Datatype::B8S
    } else if r == 3 {
        Datatype::B8
    } else if r == 4 {
        Datatype::B4S
    } else if r == 5 {
        Datatype::B4
    } else if r == 6 {
        Datatype::B2S
    } else if r == 7 {
        Datatype::B2
    } else if r == 8 {
        Datatype::B1S
    } else if r == 9 {
        Datatype::B1
    } else if r == 10 {
        Datatype::D
    } else {
        Datatype::F
    }
}

/// The type at a given position of the canonical tie-break order.
#[verifier::when_used_as_spec(spec_tag_of_rank)]
pub fn tag_of_rank(r: usize) -> (t: Datatype)
    requires
        r < 12,
    ensures
        t == spec_tag_of_rank(r),
{
    if r == 0 {
        Datatype::B16S
    } else if r == 1 {
        Datatype::B16
    } else if r == 2 {
        Datatype::B8S
    } else if r == 3 {
        Datatype::B8
    } else if r == 4 {
        Datatype::B4S
    } else if r == 5 {
        Datatype::B4
    } else if r == 6 {
        Datatype::B2S
    } else if r == 7 {
        Datatype::B2
    } else if r == 8 {
        Datatype::B1S
    } else if r == 9 {
        Datatype::B1
    } else {
        if r == 10 {
            Datatype::D
        } else {
            Datatype::F
        }
    }
}

/// Rank and type position are inverse to each other.
pub proof fn lemma_rank_of_tag_of_rank(r: usize)
    requires
        r < 12,
    ensures
        spec_tag_of_rank(r).spec_rank() == r,
{
}

/// Rank and type position are inverse to each other.
pub proof fn lemma_tag_of_rank_of_tag(t: Datatype)
    ensures
        spec_tag_of_rank(t.spec_rank()) == t,
{
}

} // verus!
