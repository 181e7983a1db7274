//! Flag words for operating-system page mappings.
//!
//! The arena's blocks are realised as anonymous, private, read-write page
//! mappings.  The page-mapping system call itself is an external
//! collaborator and lives outside the library; what the library pins down
//! are the protection and sharing words such a call takes, so that every
//! caller hands it exactly the intended bits.

use vstd::prelude::*;

verus! {

/// Memory-protection word for a page mapping.  Not an enum: read, write
/// and execute permissions are independent and combine with
/// [`MmapProt::union`].
#[derive(Copy, Clone)]
pub struct MmapProt(i32);

impl MmapProt {
    /// The raw protection bits, as a specification-level value.
    pub closed spec fn spec_bits(&self) -> i32 {
        self.0
    }

    /// no permissions
    pub fn none() -> (r: Self)
        ensures
            r.spec_bits() == 0x00,
    {
        MmapProt(0x00)
    }

    /// pages can be read
    pub fn read() -> (r: Self)
        ensures
            r.spec_bits() == 0x01,
    {
        MmapProt(0x01)
    }

    /// pages can be written
    pub fn write() -> (r: Self)
        ensures
            r.spec_bits() == 0x02,
    {
        MmapProt(0x02)
    }

    /// pages can be executed
    pub fn execute() -> (r: Self)
        ensures
            r.spec_bits() == 0x04,
    {
        MmapProt(0x04)
    }

    /// Both protections at once.
    pub fn union(self, other: Self) -> (r: Self)
        ensures
            r.spec_bits() == self.spec_bits() | other.spec_bits(),
    {
        MmapProt(self.0 | other.0)
    }

    /// The raw protection bits.
    pub fn bits(self) -> (r: i32)
        ensures
            r == self.spec_bits(),
    {
        self.0
    }
}

/// Sharing and placement word for a page mapping, combining with
/// [`MmapFlags::union`].
#[derive(Copy, Clone)]
pub struct MmapFlags(i32);

impl MmapFlags {
    /// The raw flag bits, as a specification-level value.
    pub closed spec fn spec_bits(&self) -> i32 {
        self.0
    }

    /// share changes
    pub fn shared() -> (r: Self)
        ensures
            r.spec_bits() == 0x0001,
    {
        MmapFlags(0x0001)
    }

    /// changes are private
    pub fn private() -> (r: Self)
        ensures
            r.spec_bits() == 0x0002,
    {
        MmapFlags(0x0002)
    }

    /// map addr must be exactly as requested
    pub fn fixed() -> (r: Self)
        ensures
            r.spec_bits() == 0x0010,
    {
        MmapFlags(0x0010)
    }

    /// fail if address not available
    pub fn noreplace() -> (r: Self)
        ensures
            r.spec_bits() == 0x100000,
    {
        MmapFlags(0x100000)
    }

    /// allocated from memory, swap space
    pub fn anonymous() -> (r: Self)
        ensures
            r.spec_bits() == 0x20,
    {
        MmapFlags(0x20)
    }

    /// mapping is used for stack
    pub fn stack() -> (r: Self)
        ensures
            r.spec_bits() == 0x4000,
    {
        MmapFlags(0x4000)
    }

    /// omit from dumps
    pub fn conceal() -> (r: Self)
        ensures
            r.spec_bits() == 0x8000,
    {
        MmapFlags(0x8000)
    }

    /// Both flags at once.
    pub fn union(self, other: Self) -> (r: Self)
        ensures
            r.spec_bits() == self.spec_bits() | other.spec_bits(),
    {
        MmapFlags(self.0 | other.0)
    }

    /// The raw flag bits.
    pub fn bits(self) -> (r: i32)
        ensures
            r == self.spec_bits(),
    {
        self.0
    }
}

} // verus!
