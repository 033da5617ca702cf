//! Page-table entry flag bits.

use vstd::prelude::*;

verus! {

pub const PRESENT: u64 = 0x1;

pub const WRITABLE: u64 = 0x2;

pub const USER: u64 = 0x4;

pub const WRITE_THROUGH: u64 = 0x8;

pub const NO_CACHE: u64 = 0x10;

pub const ACCESSED: u64 = 0x20;

pub const DIRTY: u64 = 0x40;

pub const HUGE: u64 = 0x80;

pub const GLOBAL: u64 = 0x100;

pub const NO_EXECUTE: u64 = 0x8000_0000_0000_0000;

/// The bits of a 64-bit entry word that hold flags rather than the address.
pub const FLAGS_MASK: u64 = 0x8000_0000_0000_01ff;

/// The permission and attribute bits of one page-table entry.
#[derive(Clone, Copy, PartialEq, Eq, Structural, Debug)]
pub struct EntryFlags {
    pub bits: u64,
}

impl EntryFlags {
    pub fn new(bits: u64) -> (r: EntryFlags)
        ensures
            r.bits == bits,
    {
        EntryFlags { bits }
    }

    pub fn bits(self) -> (r: u64)
        ensures
            r == self.bits,
    {
        self.bits
    }

    pub open spec fn spec_is_present(self) -> bool {
        self.bits & PRESENT != 0
    }

    pub fn is_present(self) -> (r: bool)
        ensures
            r == self.spec_is_present(),
    {
        self.bits & PRESENT != 0
    }

    pub open spec fn spec_is_writable(self) -> bool {
        self.bits & WRITABLE != 0
    }

    pub fn is_writable(self) -> (r: bool)
        ensures
            r == self.spec_is_writable(),
    {
        self.bits & WRITABLE != 0
    }

    pub open spec fn spec_is_huge(self) -> bool {
        self.bits & HUGE != 0
    }

    pub fn is_huge(self) -> (r: bool)
        ensures
            r == self.spec_is_huge(),
    {
        self.bits & HUGE != 0
    }

    /// Executable means the no-execute bit is clear.
    pub open spec fn spec_is_executable(self) -> bool {
        self.bits & NO_EXECUTE == 0
    }

    pub fn is_executable(self) -> (r: bool)
        ensures
            r == self.spec_is_executable(),
    {
        self.bits & NO_EXECUTE == 0
    }

    /// The union of two flag sets.
    pub fn or(self, other: EntryFlags) -> (r: EntryFlags)
        ensures
            r.bits == self.bits | other.bits,
    {
        EntryFlags { bits: self.bits | other.bits }
    }

    /// These flags with the no-execute bit cleared; intermediate table
    /// entries must never set no-execute.
    pub fn without_no_execute(self) -> (r: EntryFlags)
        ensures
            r.bits == self.bits & !NO_EXECUTE,
            r.bits & NO_EXECUTE == 0,
    {
        proof {
            let b = self.bits;
            assert((b & !0x8000_0000_0000_0000u64) & 0x8000_0000_0000_0000u64 == 0)
                by (bit_vector);
        }
        EntryFlags { bits: self.bits & !NO_EXECUTE }
    }
}

impl Default for EntryFlags {
    /// No bits set.
    fn default() -> (r: EntryFlags)
        ensures
            r.bits == 0,
    {
        EntryFlags { bits: 0 }
    }
}

} // verus!
