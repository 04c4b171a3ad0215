//! A three-level page table. A virtual page number of 27 bits is cut into
//! three 9-bit indexes; the last one addresses the leaf entry.
use vstd::prelude::*;
use crate::frame::FrameAllocator;
use crate::pte::{PageTableEntry, pte_of, ppn_limit, PTE_V};

verus! {

/// Entries in one table.
pub const ENTRIES: usize = 512;
/// Virtual page numbers are below this bound.
pub const VPN_LIMIT: usize = 134217728;

/// Index into the root table.
pub open spec fn idx0(vpn: nat) -> nat {
    vpn / 262144
}

/// Index into the middle table.
pub open spec fn idx1(vpn: nat) -> nat {
    (vpn / 512) % 512
}

/// Index into the leaf table.
pub open spec fn idx2(vpn: nat) -> nat {
    vpn % 512
}

/// Two page numbers with the same three indexes are equal.
pub proof fn lemma_indexes_determine(a: nat, b: nat)
    requires
        idx0(a) == idx0(b),
        idx1(a) == idx1(b),
        idx2(a) == idx2(b),
    ensures
        a == b,
{
    assert(a == 262144 * idx0(a) + 512 * idx1(a) + idx2(a)) by {
        vstd::arithmetic::div_mod::lemma_fundamental_div_mod(a as int, 512);
        vstd::arithmetic::div_mod::lemma_fundamental_div_mod((a / 512) as int, 512);
        vstd::arithmetic::div_mod::lemma_div_denominator(a as int, 512, 512);
        assert(512 * (512 * ((a / 512) / 512) + (a / 512) % 512) == 262144 * ((a / 512) / 512) + 512 * ((a / 512) % 512)) by (nonlinear_arith);
    }
    assert(b == 262144 * idx0(b) + 512 * idx1(b) + idx2(b)) by {
        vstd::arithmetic::div_mod::lemma_fundamental_div_mod(b as int, 512);
        vstd::arithmetic::div_mod::lemma_fundamental_div_mod((b / 512) as int, 512);
        vstd::arithmetic::div_mod::lemma_div_denominator(b as int, 512, 512);
        assert(512 * (512 * ((b / 512) / 512) + (b / 512) % 512) == 262144 * ((b / 512) / 512) + 512 * ((b / 512) % 512)) by (nonlinear_arith);
    }
}

/// `b` maps every page but `w` as `a` does.
pub open spec fn changes_only(a: PageTable, b: PageTable, w: nat) -> bool {
    forall|v: nat| v != w ==> #[trigger] b.lookup(v) == a.lookup(v)
}

/// A page keeps its translation through any run of maps and unmaps of
/// other pages: `ts` are the tables one after another, and step `i`
/// touched only page `ws[i]`.
pub proof fn lemma_translation_persists(ts: Seq<PageTable>, ws: Seq<nat>, vpn: nat)
    requires
        ts.len() == ws.len() + 1,
        forall|i: int| 0 <= i < ws.len() ==> #[trigger] ws[i] != vpn && changes_only(ts[i], ts[i + 1], ws[i]),
    ensures
        ts.last().lookup(vpn) == ts[0].lookup(vpn),
    decreases ws.len(),
{
    if ws.len() > 0 {
        let n = ws.len() as int;
        lemma_translation_persists(ts.drop_last(), ws.drop_last(), vpn);
        assert(ws[n - 1] != vpn && changes_only(ts[n - 1], ts[n], ws[n - 1]));
        assert(ts.drop_last().last() == ts[n - 1]);
    }
}

/// A table of leaf entries, held in frame `ppn`.
pub struct LeafTable {
    pub ppn: u64,
    pub entries: Vec<PageTableEntry>,
}

/// A middle table, held in frame `ppn`; a `None` slot is an invalid entry.
pub struct Directory {
    pub ppn: u64,
    pub entries: Vec<Option<LeafTable>>,
}

/// The tables of one address space and the frames they occupy.
pub struct PageTable {
    pub root_ppn: u64,
    pub root: Vec<Option<Directory>>,
    pub frames: Vec<u64>,
}

impl LeafTable {
    fn new(ppn: u64) -> (r: Self)
        ensures
            r.ppn == ppn,
            r.entries@.len() == ENTRIES,
            forall|i: int| 0 <= i < ENTRIES ==> !(#[trigger] r.entries@[i]).valid(),
    {
        let mut entries: Vec<PageTableEntry> = Vec::new();
        while entries.len() < ENTRIES
            invariant
                entries@.len() <= ENTRIES,
                forall|i: int| 0 <= i < entries@.len() ==> !(#[trigger] entries@[i]).valid(),
            decreases ENTRIES - entries@.len(),
        {
            entries.push(PageTableEntry::empty());
        }
        LeafTable { ppn, entries }
    }
}

impl Directory {
    pub open spec fn wf(self) -> bool {
        &&& self.entries@.len() == ENTRIES
        &&& forall|j: int| 0 <= j < ENTRIES && (#[trigger] self.entries@[j]) is Some
            ==> self.entries@[j]->0.entries@.len() == ENTRIES
    }

    fn new(ppn: u64) -> (r: Self)
        ensures
            r.ppn == ppn,
            r.wf(),
            forall|j: int| 0 <= j < ENTRIES ==> (#[trigger] r.entries@[j]) is None,
    {
        let mut entries: Vec<Option<LeafTable>> = Vec::new();
        while entries.len() < ENTRIES
            invariant
                entries@.len() <= ENTRIES,
                forall|j: int| 0 <= j < entries@.len() ==> (#[trigger] entries@[j]) is None,
            decreases ENTRIES - entries@.len(),
        {
            entries.push(None);
        }
        Directory { ppn, entries }
    }
}

impl PageTable {
    pub open spec fn wf(self) -> bool {
        &&& self.root_ppn < ppn_limit()
        &&& self.root@.len() == ENTRIES
        &&& forall|i: int| 0 <= i < ENTRIES && (#[trigger] self.root@[i]) is Some
            ==> self.root@[i]->0.wf()
    }

    /// The leaf entry that the walk for `vpn` reaches, if every level on the
    /// way is present.
    pub open spec fn entry(self, vpn: nat) -> Option<PageTableEntry> {
        let i0 = idx0(vpn) as int;
        let i1 = idx1(vpn) as int;
        let i2 = idx2(vpn) as int;
        if 0 <= i0 < self.root@.len() && self.root@[i0] is Some {
            let d = self.root@[i0]->0;
            if 0 <= i1 < d.entries@.len() && d.entries@[i1] is Some {
                let l = d.entries@[i1]->0;
                if 0 <= i2 < l.entries@.len() {
                    Some(l.entries@[i2])
                } else {
                    None
                }
            } else {
                None
            }
        } else {
            None
        }
    }

    /// The valid leaf entry of `vpn`, if `vpn` is mapped.
    pub open spec fn lookup(self, vpn: nat) -> Option<PageTableEntry> {
        match self.entry(vpn) {
            Some(e) => if e.valid() { Some(e) } else { None },
            None => None,
        }
    }

    /// How many table levels the walk for `vpn` finds missing: a map of
    /// `vpn` creates that many.
    pub open spec fn missing_levels(self, vpn: nat) -> nat {
        let i0 = idx0(vpn) as int;
        let i1 = idx1(vpn) as int;
        if !(0 <= i0 < self.root@.len()) || self.root@[i0] is None {
            2
        } else if !(0 <= i1 < self.root@[i0]->0.entries@.len()) || self.root@[i0]->0.entries@[i1] is None {
            1
        } else {
            0
        }
    }

    /// The frames that hold this table's levels.
    pub open spec fn table_frames(self) -> Set<u64> {
        self.frames@.to_set()
    }

    /// A table with an empty root in a fresh frame; `None` when no frame is free.
    pub fn new(fa: &mut FrameAllocator) -> (r: Option<Self>)
        requires
            old(fa).wf(),
        ensures
            final(fa).wf(),
            final(fa).end == old(fa).end,
            match r {
                Some(pt) => {
                    &&& pt.wf()
                    &&& forall|v: nat| (#[trigger] pt.lookup(v)) is None
                    &&& old(fa).free().contains(pt.root_ppn)
                    &&& pt.table_frames() == set![pt.root_ppn]
                    &&& final(fa).free() == old(fa).free().remove(pt.root_ppn)
                    &&& final(fa).free_count() + 1 == old(fa).free_count()
                },
                None => old(fa).free_count() == 0 && final(fa).free() == old(fa).free(),
            },
    {
        match fa.frame_alloc() {
            None => None,
            Some(f) => {
                let mut root: Vec<Option<Directory>> = Vec::new();
                while root.len() < ENTRIES
                    invariant
                        root@.len() <= ENTRIES,
                        forall|i: int| 0 <= i < root@.len() ==> (#[trigger] root@[i]) is None,
                    decreases ENTRIES - root@.len(),
                {
                    root.push(None);
                }
                let mut frames: Vec<u64> = Vec::new();
                frames.push(f);
                let pt = PageTable { root_ppn: f, root, frames };
                proof {
                    assert(pt.table_frames() =~= set![f]) by {
                        assert(pt.frames@[0] == f);
                    }
                }
                Some(pt)
            },
        }
    }

    /// The token of this address space: the addressing-mode tag 8 in the
    /// top four bits, the root frame number in the low 44.
    pub fn token(&self) -> (r: u64)
        requires
            self.wf(),
        ensures
            r == (8u64 << 60u64) | self.root_ppn,
            r & 0xfff_ffff_ffffu64 == self.root_ppn,
            r >> 60u64 == 8,
    {
        let p = self.root_ppn;
        assert(((8u64 << 60u64) | p) & 0xfff_ffff_ffffu64 == p && ((8u64 << 60u64) | p) >> 60u64 == 8u64) by (bit_vector)
            requires
                p < 0x1000_0000_0000u64,
        ;
        (8u64 << 60u64) | self.root_ppn
    }

    /// The leaf entry of `vpn` if `vpn` is mapped; the walk allocates nothing.
    pub fn translate(&self, vpn: usize) -> (r: Option<PageTableEntry>)
        requires
            self.wf(),
        ensures
            r == self.lookup(vpn as nat),
    {
        let i0 = vpn / 262144;
        let i1 = (vpn / 512) % 512;
        let i2 = vpn % 512;
        if i0 >= ENTRIES {
            return None;
        }
        match &self.root[i0] {
            None => None,
            Some(d) => match &d.entries[i1] {
                None => None,
                Some(l) => {
                    let e = l.entries[i2];
                    if e.is_valid() {
                        Some(e)
                    } else {
                        None
                    }
                },
            },
        }
    }
    /// Records `f` as a frame of this table.
    fn add_frame(&mut self, f: u64)
        ensures
            final(self).root == old(self).root,
            final(self).root_ppn == old(self).root_ppn,
            final(self).table_frames() == old(self).table_frames().insert(f),
            final(self).frames@ == old(self).frames@.push(f),
    {
        self.frames.push(f);
        proof {
            let s = self.frames@;
            assert(s.to_set() =~= old(self).frames@.to_set().insert(f)) by {
                assert(s[s.len() - 1] == f);
                assert forall|x: u64| s.to_set().contains(x) implies old(self).frames@.to_set().insert(f).contains(x) by {
                    let k = choose|k: int| 0 <= k < s.len() && s[k] == x;
                    if k < old(self).frames@.len() {
                        assert(old(self).frames@[k] == x);
                    }
                }
                assert forall|x: u64| old(self).frames@.to_set().contains(x) implies s.to_set().contains(x) by {
                    let k = choose|k: int| 0 <= k < old(self).frames@.len() && old(self).frames@[k] == x;
                    assert(s[k] == x);
                }
            }
        }
    }

    /// Maps `vpn` to frame `ppn` with `flags` and the valid bit, creating the
    /// missing levels on the way. Fails, changing no mapping, when `vpn` is
    /// already mapped or when no frame is left for a missing level.
    pub fn map(&mut self, vpn: usize, ppn: u64, flags: u8, fa: &mut FrameAllocator) -> (r: bool)
        requires
            old(self).wf(),
            old(fa).wf(),
            vpn < VPN_LIMIT,
            ppn < ppn_limit(),
        ensures
            final(self).wf(),
            final(fa).wf(),
            final(fa).end == old(fa).end,
            final(self).root_ppn == old(self).root_ppn,
            old(self).lookup(vpn as nat) is Some ==> !r && *final(self) == *old(self) && *final(fa) == *old(fa),
            old(self).lookup(vpn as nat) is None && old(fa).free_count() >= old(self).missing_levels(vpn as nat) ==> r,
            old(self).missing_levels(vpn as nat) <= 2,
            r ==> final(fa).free_count() + old(self).missing_levels(vpn as nat) == old(fa).free_count()
                && final(self).frames@ == old(self).frames@ + final(self).frames@.subrange(
                    old(self).frames@.len() as int,
                    final(self).frames@.len() as int,
                ) && final(self).frames@.len() == old(self).frames@.len() + old(self).missing_levels(vpn as nat),
            changes_only(*old(self), *final(self), vpn as nat),
            forall|v: nat| #[trigger] final(self).lookup(v) == if r && v == vpn {
                Some(pte_of(ppn, flags | PTE_V))
            } else {
                old(self).lookup(v)
            },
            final(fa).free().subset_of(old(fa).free()),
            old(self).table_frames().subset_of(final(self).table_frames()),
            final(fa).free_count() + 2 >= old(fa).free_count(),
            forall|f: u64| #[trigger] final(self).table_frames().contains(f) && !old(self).table_frames().contains(f)
                ==> !final(fa).free().contains(f),
            final(fa).free().union(final(self).table_frames())
                == old(fa).free().union(old(self).table_frames()),
    {
        if self.translate(vpn).is_some() {
            return false;
        }
        let i0 = vpn / 262144;
        let i1 = (vpn / 512) % 512;
        let i2 = vpn % 512;
        let ghost v0 = vpn as nat;
        let ghost fa0 = *fa;
        let ghost self0 = *self;
        let mut d = match self.root[i0].take() {
            Some(d) => d,
            None => match fa.frame_alloc() {
                Some(f) => {
                    self.add_frame(f);
                    Directory::new(f)
                },
                None => {
                    proof {
                        assert forall|v: nat| #[trigger] self.lookup(v) == old(self).lookup(v) by {
                            if idx0(v) != i0 {
                                if idx0(v) < ENTRIES {
                                    assert(self.root@[idx0(v) as int] == old(self).root@[idx0(v) as int]);
                                }
                            }
                        }
                        assert(self.table_frames() == old(self).table_frames());
                        assert(fa.free().union(self.table_frames()) =~= old(fa).free().union(old(self).table_frames()));
                    }
                    return false;
                },
            },
        };
        let ghost fa1 = *fa;
        let ghost frames1 = self.table_frames();
        let mut l = match d.entries[i1].take() {
            Some(l) => l,
            None => match fa.frame_alloc() {
                Some(f) => {
                    self.add_frame(f);
                    LeafTable::new(f)
                },
                None => {
                    self.root.set(i0, Some(d));
                    proof {
                        assert forall|v: nat| #[trigger] self.lookup(v) == old(self).lookup(v) by {
                            if idx0(v) != i0 {
                                if idx0(v) < ENTRIES {
                                    assert(self.root@[idx0(v) as int] == old(self).root@[idx0(v) as int]);
                                }
                            } else if old(self).root@[i0 as int] is Some {
                                if idx1(v) != i1 {
                                    assert(d.entries@[idx1(v) as int] == old(self).root@[i0 as int]->0.entries@[idx1(v) as int]);
                                }
                            }
                        }
                        assert(self.wf()) by {
                            assert forall|i: int| 0 <= i < ENTRIES && (#[trigger] self.root@[i]) is Some
                                implies self.root@[i]->0.wf() by {
                                if i != i0 {
                                    assert(self.root@[i] == self0.root@[i]);
                                }
                            }
                        }
                        assert(fa.free().union(self.table_frames()) =~= old(fa).free().union(old(self).table_frames()));
                    }
                    return false;
                },
            },
        };
        let e = PageTableEntry::new(ppn, flags | PTE_V);
        l.entries.set(i2, e);
        d.entries.set(i1, Some(l));
        self.root.set(i0, Some(d));
        proof {
            assert forall|v: nat| #[trigger] self.lookup(v) == if v == v0 {
                Some(pte_of(ppn, flags | PTE_V))
            } else {
                old(self).lookup(v)
            } by {
                if v == v0 {
                    assert(e.valid()) by {
                        assert((flags | 1u8) & 1u8 != 0u8) by (bit_vector);
                    }
                } else if idx0(v) != i0 {
                    if idx0(v) < ENTRIES {
                        assert(self.root@[idx0(v) as int] == old(self).root@[idx0(v) as int]);
                    }
                } else if idx1(v) != i1 {
                    if old(self).root@[i0 as int] is Some {
                        assert(d.entries@[idx1(v) as int] == old(self).root@[i0 as int]->0.entries@[idx1(v) as int]);
                    }
                } else {
                    if idx2(v) == i2 {
                        lemma_indexes_determine(v, v0);
                    }
                }
            }
            assert(self.wf()) by {
                assert forall|i: int| 0 <= i < ENTRIES && (#[trigger] self.root@[i]) is Some
                    implies self.root@[i]->0.wf() by {
                    if i != i0 {
                        assert(self.root@[i] == self0.root@[i]);
                    } else {
                        assert forall|j: int| 0 <= j < ENTRIES && (#[trigger] d.entries@[j]) is Some
                            implies d.entries@[j]->0.entries@.len() == ENTRIES by {
                        }
                    }
                }
            }
            assert(fa.free().union(self.table_frames()) =~= old(fa).free().union(old(self).table_frames()));
        }
        true
    }

    /// Clears the leaf entry of `vpn`. Fails, changing nothing, when `vpn` is
    /// not mapped.
    pub fn unmap(&mut self, vpn: usize) -> (r: bool)
        requires
            old(self).wf(),
        ensures
            final(self).wf(),
            final(self).root_ppn == old(self).root_ppn,
            final(self).table_frames() == old(self).table_frames(),
            r == old(self).lookup(vpn as nat) is Some,
            !r ==> *final(self) == *old(self),
            changes_only(*old(self), *final(self), vpn as nat),
            forall|v: nat| #[trigger] final(self).lookup(v) == if v == vpn {
                None
            } else {
                old(self).lookup(v)
            },
    {
        if self.translate(vpn).is_none() {
            return false;
        }
        let i0 = vpn / 262144;
        let i1 = (vpn / 512) % 512;
        let i2 = vpn % 512;
        let ghost v0 = vpn as nat;
        let ghost self0 = *self;
        let mut d = self.root[i0].take().unwrap();
        let mut l = d.entries[i1].take().unwrap();
        let e = PageTableEntry::empty();
        l.entries.set(i2, e);
        d.entries.set(i1, Some(l));
        self.root.set(i0, Some(d));
        proof {
            assert forall|v: nat| #[trigger] self.lookup(v) == if v == v0 {
                None
            } else {
                old(self).lookup(v)
            } by {
                if v == v0 {
                } else if idx0(v) != i0 {
                    if idx0(v) < ENTRIES {
                        assert(self.root@[idx0(v) as int] == old(self).root@[idx0(v) as int]);
                    }
                } else if idx1(v) != i1 {
                    assert(d.entries@[idx1(v) as int] == old(self).root@[i0 as int]->0.entries@[idx1(v) as int]);
                } else {
                    if idx2(v) == i2 {
                        lemma_indexes_determine(v, v0);
                    }
                }
            }
            assert(self.wf()) by {
                assert forall|i: int| 0 <= i < ENTRIES && (#[trigger] self.root@[i]) is Some
                    implies self.root@[i]->0.wf() by {
                    if i != i0 {
                        assert(self.root@[i] == self0.root@[i]);
                    } else {
                        assert forall|j: int| 0 <= j < ENTRIES && (#[trigger] d.entries@[j]) is Some
                            implies d.entries@[j]->0.entries@.len() == ENTRIES by {
                            if j != i1 {
                                assert(d.entries@[j] == self0.root@[i0 as int]->0.entries@[j]);
                            }
                        }
                    }
                }
            }
        }
        true
    }
}

/// The frame that holds virtual address `vaddr`, if its page is mapped.
pub fn tran_vir_to_phy(pt: &PageTable, vaddr: usize) -> (r: Option<u64>)
    requires
        pt.wf(),
    ensures
        r == match pt.lookup((vaddr / 4096) as nat) {
            Some(e) => Some(e.view_ppn()),
            None => None,
        },
{
    match pt.translate(vaddr / 4096) {
        Some(e) => Some(e.ppn()),
        None => None,
    }
}

} // verus!
