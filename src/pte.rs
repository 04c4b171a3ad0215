//! Page table entries: a physical page number and eight flag bits in one word.
use vstd::prelude::*;

verus! {

/// Valid.
pub const PTE_V: u8 = 1;
/// Readable.
pub const PTE_R: u8 = 2;
/// Writable.
pub const PTE_W: u8 = 4;
/// Executable.
pub const PTE_X: u8 = 8;
/// Reachable from user mode.
pub const PTE_U: u8 = 16;
/// Global.
pub const PTE_G: u8 = 32;
/// Accessed.
pub const PTE_A: u8 = 64;
/// Dirty.
pub const PTE_D: u8 = 128;


/// Largest physical page number plus one.
pub open spec fn ppn_limit() -> nat {
    0x1000_0000_0000
}

/// The physical page number held in the word `bits`.
pub open spec fn bits_ppn(bits: u64) -> u64 {
    (bits >> 10u64) & 0xfff_ffff_ffffu64
}

/// The flag byte held in the word `bits`.
pub open spec fn bits_flags(bits: u64) -> u8 {
    (bits & 0xffu64) as u8
}

/// The entry that packs `ppn` and `flags`.
pub open spec fn pte_of(ppn: u64, flags: u8) -> PageTableEntry {
    PageTableEntry { bits: ppn << 10u64 | flags as u64 }
}

/// What `pte_of` packs can be read back.
pub proof fn lemma_pte_of(ppn: u64, flags: u8)
    requires
        ppn < ppn_limit(),
    ensures
        pte_of(ppn, flags).view_ppn() == ppn,
        pte_of(ppn, flags).view_flags() == flags,
{
    let f = flags as u64;
    assert(((ppn << 10u64 | f) >> 10u64) & 0xfff_ffff_ffffu64 == ppn) by (bit_vector)
        requires
            ppn < 0x1000_0000_0000u64,
            f < 256u64,
    ;
    assert((ppn << 10u64 | f) & 0xffu64 == f) by (bit_vector)
        requires
            f < 256u64,
    ;
}

/// A page table entry.
#[derive(Clone, Copy)]
pub struct PageTableEntry {
    /// The packed word.
    pub bits: u64,
}

impl PageTableEntry {
    /// The physical page number this entry points to.
    pub open spec fn view_ppn(self) -> u64 {
        bits_ppn(self.bits)
    }

    /// The flag byte of this entry.
    pub open spec fn view_flags(self) -> u8 {
        bits_flags(self.bits)
    }

    /// Whether the valid bit is set.
    pub open spec fn valid(self) -> bool {
        self.view_flags() & PTE_V != 0
    }

    /// Packs `ppn` and `flags` into one entry.
    pub fn new(ppn: u64, flags: u8) -> (r: Self)
        requires
            ppn < ppn_limit(),
        ensures
            r == pte_of(ppn, flags),
            r.view_ppn() == ppn,
            r.view_flags() == flags,
    {
        let bits: u64 = ppn << 10u64 | flags as u64;
        proof {
            lemma_pte_of(ppn, flags);
        }
        PageTableEntry { bits }
    }

    /// The entry with no page and no flag.
    pub fn empty() -> (r: Self)
        ensures
            r.bits == 0,
            r.view_ppn() == 0,
            r.view_flags() == 0,
            !r.valid(),
    {
        let r = PageTableEntry { bits: 0 };
        assert((0u64 >> 10u64) & 0xfff_ffff_ffffu64 == 0u64) by (bit_vector);
        assert(0u64 & 0xffu64 == 0u64) by (bit_vector);
        assert(0u8 & 1u8 == 0u8) by (bit_vector);
        r
    }

    /// The physical page number.
    pub fn ppn(&self) -> (r: u64)
        ensures
            r == self.view_ppn(),
            r < ppn_limit(),
    {
        let b = self.bits;
        assert((b >> 10u64) & 0xfff_ffff_ffffu64 < 0x1000_0000_0000u64) by (bit_vector);
        (self.bits >> 10u64) & 0xfff_ffff_ffffu64
    }

    /// The flag byte.
    pub fn flags(&self) -> (r: u8)
        ensures
            r == self.view_flags(),
    {
        (self.bits & 0xffu64) as u8
    }

    /// Whether the valid bit is set.
    pub fn is_valid(&self) -> (r: bool)
        ensures
            r == (self.view_flags() & PTE_V != 0),
    {
        self.flags() & PTE_V != 0
    }

    /// Whether the read bit is set.
    pub fn readable(&self) -> (r: bool)
        ensures
            r == (self.view_flags() & PTE_R != 0),
    {
        self.flags() & PTE_R != 0
    }

    /// Whether the write bit is set.
    pub fn writable(&self) -> (r: bool)
        ensures
            r == (self.view_flags() & PTE_W != 0),
    {
        self.flags() & PTE_W != 0
    }

    /// Whether the execute bit is set.
    pub fn executable(&self) -> (r: bool)
        ensures
            r == (self.view_flags() & PTE_X != 0),
    {
        self.flags() & PTE_X != 0
    }
}

} // verus!
