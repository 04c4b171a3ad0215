//! Memory regions of one address space: `mmap` and `munmap` over the page
//! table, with one physical frame per page of a region.
use vstd::prelude::*;
use crate::frame::FrameAllocator;
use crate::page_table::{PageTable, VPN_LIMIT};
use crate::pte::{lemma_pte_of, pte_of, ppn_limit, PTE_V};

verus! {

/// Whether `p` is the part `[s, e)` of region `a`.
pub open spec fn is_piece(p: MapArea, a: MapArea, s: nat, e: nat) -> bool {
    &&& p.start_vpn == s
    &&& p.end_vpn == e
    &&& p.perm == a.perm
    &&& p.frames@ == a.frames@.subrange(s - a.start_vpn, e - a.start_vpn)
}

/// A contiguous range of virtual pages `[start_vpn, end_vpn)` with one
/// permission; page `start_vpn + i` is backed by `frames[i]`.
pub struct MapArea {
    pub start_vpn: usize,
    pub end_vpn: usize,
    pub perm: u8,
    pub frames: Vec<u64>,
}

impl MapArea {
    pub open spec fn wf(self) -> bool {
        &&& self.start_vpn <= self.end_vpn <= VPN_LIMIT
        &&& self.frames@.len() == self.end_vpn - self.start_vpn
    }

    /// Whether page `v` lies in this region.
    pub open spec fn contains(self, v: nat) -> bool {
        self.start_vpn <= v < self.end_vpn
    }
}

/// An address space: its page table, the frame allocator it draws from, and
/// its regions.
pub struct MemorySet {
    pub page_table: PageTable,
    pub frame_allocator: FrameAllocator,
    pub areas: Vec<MapArea>,
}

impl MemorySet {
    /// The frames not held by any region: free ones and those of the table.
    pub open spec fn spare(self) -> Set<u64> {
        self.frame_allocator.free().union(self.page_table.table_frames())
    }

    /// Whether page `v` is mapped.
    pub open spec fn lookup_valid(self, v: nat) -> bool {
        self.page_table.lookup(v) is Some
    }

    pub open spec fn wf(self) -> bool {
        &&& self.page_table.wf()
        &&& self.frame_allocator.wf()
        &&& forall|k: int| 0 <= k < self.areas@.len() ==> (#[trigger] self.areas@[k]).wf()
        &&& forall|k: int, i: int| 0 <= k < self.areas@.len() && 0 <= i < self.areas@[k].frames@.len()
            ==> self.page_table.lookup((self.areas@[k].start_vpn + i) as nat)
                == Some(pte_of(#[trigger] self.areas@[k].frames@[i], self.areas@[k].perm | PTE_V))
        &&& forall|k1: int, k2: int, v: nat| 0 <= k1 < self.areas@.len() && 0 <= k2 < self.areas@.len()
            && k1 != k2 && #[trigger] self.areas@[k1].contains(v) ==> !(#[trigger] self.areas@[k2].contains(v))
        &&& forall|k: int, i: int| 0 <= k < self.areas@.len() && 0 <= i < self.areas@[k].frames@.len()
            ==> {
                let f = #[trigger] self.areas@[k].frames@[i];
                &&& f < self.frame_allocator.end
                &&& !self.frame_allocator.free().contains(f)
                &&& !self.page_table.table_frames().contains(f)
            }
        &&& forall|k1: int, i1: int, k2: int, i2: int|
            0 <= k1 < self.areas@.len() && 0 <= i1 < self.areas@[k1].frames@.len()
            && 0 <= k2 < self.areas@.len() && 0 <= i2 < self.areas@[k2].frames@.len()
            && #[trigger] self.areas@[k1].frames@[i1] == #[trigger] self.areas@[k2].frames@[i2]
            ==> k1 == k2 && i1 == i2
        &&& forall|f: u64| #[trigger] self.page_table.table_frames().contains(f)
            ==> !self.frame_allocator.free().contains(f)
        &&& forall|v: nat| #[trigger] self.page_table.lookup(v) is Some ==> self.in_some_region(v)
    }

    /// Whether some region holds page `v`.
    pub open spec fn in_some_region(self, v: nat) -> bool {
        exists|k: int| 0 <= k < self.areas@.len() && #[trigger] self.areas@[k].contains(v)
    }

    /// `new` is this address space after a region `[start, end)` with
    /// permission `perm` was added, each of its pages mapped to a fresh frame.
    pub open spec fn mmap_result(self, new: MemorySet, start: nat, end: nat, perm: u8) -> bool {
        let a = new.areas@.last();
        &&& new.areas@.len() == self.areas@.len() + 1
        &&& new.areas@ == self.areas@.push(a)
        &&& a.start_vpn == start
        &&& a.end_vpn == end
        &&& a.perm == perm
        &&& a.frames@.len() == end - start
        &&& forall|v: nat| start <= v < end ==> #[trigger] self.page_table.lookup(v) is None
        &&& forall|v: nat| #[trigger] new.page_table.lookup(v) == if start <= v < end {
            Some(pte_of(a.frames@[v - start], perm | PTE_V))
        } else {
            self.page_table.lookup(v)
        }
        &&& a.frames@.to_set().subset_of(self.frame_allocator.free())
        &&& new.spare() == self.spare().difference(a.frames@.to_set())
    }

    /// `new` is this address space after pages `[start, end)` of region
    /// `k` were unmapped and their frames given back. What the region held
    /// before and after the range stays, as regions of their own at the end
    /// of the list.
    pub open spec fn munmap_result(self, new: MemorySet, k: int, start: nat, end: nat) -> bool {
        let a = self.areas@[k];
        let m = self.areas@.len() - 1;
        let has_left = a.start_vpn < start;
        let has_right = end < a.end_vpn;
        let right_at = m + if has_left { 1int } else { 0int };
        &&& 0 <= k < self.areas@.len()
        &&& a.start_vpn <= start < end <= a.end_vpn
        &&& new.areas@.len() == right_at + if has_right { 1int } else { 0int }
        &&& new.areas@.subrange(0, m) == self.areas@.remove(k)
        &&& has_left ==> is_piece(new.areas@[m], a, a.start_vpn as nat, start)
        &&& has_right ==> is_piece(new.areas@[right_at], a, end, a.end_vpn as nat)
        &&& forall|v: nat| #[trigger] new.page_table.lookup(v) == if start <= v < end {
            None
        } else {
            self.page_table.lookup(v)
        }
        &&& new.spare() == self.spare().union(
            a.frames@.subrange(start - a.start_vpn, end - a.start_vpn).to_set(),
        )
    }

    /// The frames that the mapped pages of `[s, e)` point to.
    pub open spec fn range_frames(self, s: nat, e: nat) -> Set<u64> {
        Set::new(|f: u64| exists|v: nat| s <= v < e && #[trigger] self.page_table.lookup(v) is Some
            && self.page_table.lookup(v)->0.view_ppn() == f)
    }

    /// `new` is this address space with pages `[s, e)` unmapped and their
    /// frames given back; every other page keeps its mapping.
    pub open spec fn unmap_result(self, new: MemorySet, s: nat, e: nat) -> bool {
        &&& forall|v: nat| #[trigger] new.page_table.lookup(v) == if s <= v < e {
            None
        } else {
            self.page_table.lookup(v)
        }
        &&& new.spare() == self.spare().union(self.range_frames(s, e))
    }

    /// Whether one region holds every page of the nonempty range `[start, end)`.
    pub open spec fn covers(self, start: nat, end: nat) -> bool {
        start < end && exists|k: int| 0 <= k < self.areas@.len() && #[trigger] self.areas@[k].start_vpn <= start
            && end <= self.areas@[k].end_vpn
    }

    /// An address space with no region.
    pub fn new(fa: FrameAllocator) -> (r: Option<Self>)
        requires
            fa.wf(),
        ensures
            r is Some ==> r->0.wf() && r->0.areas@.len() == 0
                && forall|v: nat| #[trigger] r->0.page_table.lookup(v) is None,
            r is None <==> fa.free_count() == 0,
            r is Some ==> r->0.frame_allocator.free_count() + 1 == fa.free_count(),
    {
        let mut fa = fa;
        match PageTable::new(&mut fa) {
            None => None,
            Some(pt) => {
                let ms = MemorySet { page_table: pt, frame_allocator: fa, areas: Vec::new() };
                Some(ms)
            },
        }
    }
    /// Unmaps pages `[start_vpn, start_vpn + frames.len())`, mapped to
    /// `frames` by an `mmap` that ran out of frames, and gives the frames back.
    fn undo_pages(
        &mut self,
        start_vpn: usize,
        frames: &Vec<u64>,
        Ghost(pt0): Ghost<PageTable>,
        Ghost(spare0): Ghost<Set<u64>>,
        Ghost(free0): Ghost<Set<u64>>,
    )
        requires
            old(self).page_table.wf(),
            old(self).frame_allocator.wf(),
            start_vpn + frames@.len() <= VPN_LIMIT,
            forall|j: int| 0 <= j < frames@.len() ==> #[trigger] old(self).page_table.lookup((start_vpn + j) as nat)
                is Some,
            forall|u: nat| !(start_vpn <= u < start_vpn + frames@.len()) ==> #[trigger] old(self).page_table.lookup(u)
                == pt0.lookup(u),
            forall|u: nat| start_vpn <= u < start_vpn + frames@.len() ==> #[trigger] pt0.lookup(u) is None,
            forall|j: int| 0 <= j < frames@.len() ==> {
                let f = #[trigger] frames@[j];
                &&& free0.contains(f)
                &&& f < old(self).frame_allocator.end
                &&& !old(self).frame_allocator.free().contains(f)
                &&& !old(self).page_table.table_frames().contains(f)
            },
            frames@.no_duplicates(),
            old(self).spare() == spare0.difference(frames@.to_set()),
            old(self).frame_allocator.free().subset_of(free0),
            free0.subset_of(spare0),
            forall|f: u64| #[trigger] old(self).page_table.table_frames().contains(f)
                ==> !old(self).frame_allocator.free().contains(f),
        ensures
            final(self).page_table.wf(),
            final(self).frame_allocator.wf(),
            final(self).frame_allocator.end == old(self).frame_allocator.end,
            final(self).areas == old(self).areas,
            final(self).page_table.table_frames() == old(self).page_table.table_frames(),
            forall|u: nat| #[trigger] final(self).page_table.lookup(u) == pt0.lookup(u),
            final(self).spare() == spare0,
            final(self).frame_allocator.free().subset_of(free0),
            forall|f: u64| #[trigger] final(self).page_table.table_frames().contains(f)
                ==> !final(self).frame_allocator.free().contains(f),
    {
        let n = frames.len();
        let mut j: usize = 0;
        while j < n
            invariant
                j <= n,
                n == frames@.len(),
                start_vpn + n <= VPN_LIMIT,
                self.page_table.wf(),
                self.frame_allocator.wf(),
                self.frame_allocator.end == old(self).frame_allocator.end,
                self.areas == old(self).areas,
                self.page_table.table_frames() == old(self).page_table.table_frames(),
                forall|u: nat| #[trigger] self.page_table.lookup(u) == if start_vpn <= u < start_vpn + j {
                    None
                } else {
                    old(self).page_table.lookup(u)
                },
                forall|g: u64| #[trigger] self.frame_allocator.free().contains(g) <==> (old(self).frame_allocator.free().contains(g)
                    || exists|k: int| 0 <= k < j && frames@[k] == g),
                forall|k: int| 0 <= k < n ==> #[trigger] old(self).page_table.lookup((start_vpn + k) as nat) is Some,
                forall|k: int| 0 <= k < n ==> {
                    let f = #[trigger] frames@[k];
                    &&& free0.contains(f)
                    &&& f < old(self).frame_allocator.end
                    &&& !old(self).frame_allocator.free().contains(f)
                    &&& !old(self).page_table.table_frames().contains(f)
                },
                frames@.no_duplicates(),
            decreases n - j,
        {
            let ghost pt1 = self.page_table;
            let ok = self.page_table.unmap(start_vpn + j);
            let f = frames[j];
            proof {
                if exists|k: int| 0 <= k < j && frames@[k] == f {
                    let k = choose|k: int| 0 <= k < j && frames@[k] == f;
                    assert(frames@[k] == frames@[j as int]);
                }
            }
            self.frame_allocator.frame_dealloc(f);
            proof {
                assert forall|g: u64| #[trigger] self.frame_allocator.free().contains(g) <==> (old(self).frame_allocator.free().contains(g)
                    || exists|k: int| 0 <= k < j + 1 && frames@[k] == g) by {
                    if g == f {
                        assert(frames@[j as int] == g);
                    } else if exists|k: int| 0 <= k < j + 1 && frames@[k] == g {
                        let k = choose|k: int| 0 <= k < j + 1 && frames@[k] == g;
                        assert(k < j);
                    }
                }
                assert forall|u: nat| #[trigger] self.page_table.lookup(u) == if start_vpn <= u < start_vpn + j + 1 {
                    None
                } else {
                    old(self).page_table.lookup(u)
                } by {
                    assert(self.page_table.lookup(u) == if u == start_vpn + j { None } else { pt1.lookup(u) });
                }
            }
            j = j + 1;
        }
        proof {
            assert forall|g: u64| #[trigger] self.frame_allocator.free().contains(g) <==> (old(self).frame_allocator.free().contains(g)
                || frames@.to_set().contains(g)) by {
                if frames@.to_set().contains(g) {
                    let k = choose|k: int| 0 <= k < n && frames@[k] == g;
                    assert(frames@[k] == g);
                }
            }
            assert forall|u: nat| #[trigger] self.page_table.lookup(u) == pt0.lookup(u) by {
                if start_vpn <= u < start_vpn + n {
                    assert(pt0.lookup(u) is None);
                }
            }
            assert forall|g: u64| frames@.to_set().contains(g) implies spare0.contains(g) by {
                let k = choose|k: int| 0 <= k < n && frames@[k] == g;
                assert(frames@[k] == g);
            }
            assert forall|g: u64| self.spare().contains(g) <==> spare0.contains(g) by {
                if frames@.to_set().contains(g) {
                    assert(spare0.contains(g));
                } else {
                    assert(self.spare().contains(g) <==> old(self).spare().contains(g));
                }
            }
            assert(self.spare() =~= spare0);
            assert forall|g: u64| #[trigger] self.page_table.table_frames().contains(g)
                implies !self.frame_allocator.free().contains(g) by {
                if frames@.to_set().contains(g) {
                    let k = choose|k: int| 0 <= k < n && frames@[k] == g;
                    assert(frames@[k] == g);
                }
            }
        }
    }

    /// An address space whose regions, mappings and spare frames are those
    /// of a well-formed one, with no more free frames, is well formed.
    proof fn lemma_undone_wf(self, o: MemorySet)
        requires
            o.wf(),
            self.page_table.wf(),
            self.frame_allocator.wf(),
            self.frame_allocator.end == o.frame_allocator.end,
            self.areas == o.areas,
            forall|u: nat| #[trigger] self.page_table.lookup(u) == o.page_table.lookup(u),
            self.spare() == o.spare(),
            self.frame_allocator.free().subset_of(o.frame_allocator.free()),
            forall|f: u64| #[trigger] self.page_table.table_frames().contains(f)
                ==> !self.frame_allocator.free().contains(f),
        ensures
            self.wf(),
    {
        assert forall|k: int, i: int| 0 <= k < self.areas@.len() && 0 <= i < self.areas@[k].frames@.len()
            implies {
                let f = #[trigger] self.areas@[k].frames@[i];
                &&& f < self.frame_allocator.end
                &&& !self.frame_allocator.free().contains(f)
                &&& !self.page_table.table_frames().contains(f)
            } by {
            let f = self.areas@[k].frames@[i];
            assert(o.areas@[k].frames@[i] == f);
            assert(!o.spare().contains(f));
        }
        assert forall|v: nat| #[trigger] self.page_table.lookup(v) is Some implies self.in_some_region(v) by {
            assert(o.page_table.lookup(v) is Some);
        }
    }

    /// Adds the region `[start_vpn, start_vpn + npages)` with permission
    /// `perm`, one fresh frame per page. Fails, changing nothing, when the
    /// range is empty or leaves the address space or a page of it is already
    /// mapped. When frames run out on the way, the pages mapped so far are
    /// unmapped and their frames given back; table levels created on the way
    /// stay. With three free frames per page it never runs out (a page may
    /// need two new table levels besides its own frame).
    pub fn mmap(&mut self, start_vpn: usize, npages: usize, perm: u8) -> (r: bool)
        requires
            old(self).wf(),
        ensures
            final(self).wf(),
            ({
                let ok = {
                    &&& 0 < npages
                    &&& start_vpn + npages <= VPN_LIMIT
                    &&& forall|v: nat| start_vpn <= v < start_vpn + npages ==> !old(self).lookup_valid(v)
                };
                &&& r ==> ok
                &&& ok && old(self).frame_allocator.free_count() >= 3 * npages ==> r
                &&& !ok ==> *final(self) == *old(self)
            }),
            r ==> old(self).mmap_result(*final(self), start_vpn as nat, (start_vpn + npages) as nat, perm),
            final(self).frame_allocator.free_count() + 3 * npages >= old(self).frame_allocator.free_count(),
            !r ==> final(self).areas == old(self).areas && final(self).spare() == old(self).spare()
                && forall|v: nat| #[trigger] final(self).page_table.lookup(v) == old(self).page_table.lookup(v),
    {
        if npages == 0 || npages > VPN_LIMIT || start_vpn > VPN_LIMIT - npages {
            return false;
        }
        let end_vpn = start_vpn + npages;
        let mut v: usize = start_vpn;
        while v < end_vpn
            invariant
                self.wf(),
                start_vpn <= v <= end_vpn,
                end_vpn == start_vpn + npages,
                end_vpn <= VPN_LIMIT,
                forall|u: nat| start_vpn <= u < v ==> #[trigger] self.page_table.lookup(u) is None,
            decreases end_vpn - v,
        {
            if self.page_table.translate(v).is_some() {
                assert(old(self).lookup_valid(v as nat));
                return false;
            }
            v = v + 1;
        }
        let ghost old_spare = self.spare();
        let ghost old_free = self.frame_allocator.free();
        let ghost old_table = self.page_table.table_frames();
        let ghost pt0 = self.page_table;
        let mut frames: Vec<u64> = Vec::new();
        let mut i: usize = 0;
        while i < npages
            invariant
                self.areas == old(self).areas,
                self.page_table.wf(),
                self.frame_allocator.wf(),
                self.frame_allocator.end == old(self).frame_allocator.end,
                old(self).wf(),
                pt0 == old(self).page_table,
                old_free == old(self).frame_allocator.free(),
                old_table == old(self).page_table.table_frames(),
                old_spare == old(self).spare(),
                end_vpn == start_vpn + npages,
                end_vpn <= VPN_LIMIT,
                i <= npages,
                frames@.len() == i,
                old(self).frame_allocator.free_count() >= 3 * npages ==> self.frame_allocator.free_count() >= 3 * (npages
                    - i),
                self.frame_allocator.free_count() + 3 * i >= old(self).frame_allocator.free_count(),
                forall|u: nat| start_vpn <= u < end_vpn ==> !#[trigger] old(self).lookup_valid(u),
                forall|j: int| 0 <= j < i ==> self.page_table.lookup((start_vpn + j) as nat)
                    == Some(pte_of(#[trigger] frames@[j], perm | PTE_V)),
                forall|u: nat| start_vpn + i <= u < end_vpn ==> self.page_table.lookup(u) is None,
                forall|u: nat| start_vpn <= u < end_vpn ==> #[trigger] pt0.lookup(u) is None,
                forall|u: nat| !(start_vpn <= u < start_vpn + i) ==> #[trigger] self.page_table.lookup(u)
                    == pt0.lookup(u),
                forall|j: int| 0 <= j < i ==> {
                    let f = #[trigger] frames@[j];
                    &&& old_free.contains(f)
                    &&& !self.frame_allocator.free().contains(f)
                    &&& !self.page_table.table_frames().contains(f)
                },
                frames@.no_duplicates(),
                self.frame_allocator.free().subset_of(old_free),
                old_table.subset_of(self.page_table.table_frames()),
                self.spare() == old_spare.difference(frames@.to_set()),
                forall|f: u64| #[trigger] self.page_table.table_frames().contains(f)
                    ==> !self.frame_allocator.free().contains(f),
            decreases npages - i,
        {
            let ghost free1 = self.frame_allocator.free();
            let ghost table1 = self.page_table.table_frames();
            let ghost spare1 = self.spare();
            let ghost pt1 = self.page_table;
            let f = match self.frame_allocator.frame_alloc() {
                Some(f) => f,
                None => {
                    proof {
                    assert forall|j: int| 0 <= j < frames@.len() implies #[trigger] self.page_table.lookup(
                        (start_vpn + j) as nat) is Some by {
                        assert(self.page_table.lookup((start_vpn + j) as nat) == Some(pte_of(frames@[j], perm | PTE_V)));
                    }
                    }
                    self.undo_pages(start_vpn, &frames, Ghost(pt0), Ghost(old_spare), Ghost(old_free));
                    proof {
                        self.lemma_undone_wf(*old(self));
                    }
                    return false;
                },
            };
            let ghost free2 = self.frame_allocator.free();
            let ok = self.page_table.map(start_vpn + i, f, perm | PTE_V, &mut self.frame_allocator);
            if !ok {
                proof {
                    assert(!table1.contains(f));
                    assert(!free2.contains(f));
                    assert(!free2.union(table1).contains(f));
                    assert(!self.page_table.table_frames().contains(f)) by {
                        assert(self.frame_allocator.free().union(self.page_table.table_frames()) == free2.union(table1));
                    }
                }
                let ghost free_m = self.frame_allocator.free();
                let ghost table_m = self.page_table.table_frames();
                proof {
                    assert(free1.contains(f));
                    assert(free2 =~= free1.remove(f));
                }
                self.frame_allocator.frame_dealloc(f);
                proof {
                    assert forall|g: u64| self.spare().contains(g) <==> spare1.contains(g) by {
                        assert(self.frame_allocator.free().contains(g) <==> (g == f || free_m.contains(g)));
                        assert(free_m.union(table_m).contains(g) == free2.union(table1).contains(g));
                    }
                    assert forall|j: int| 0 <= j < frames@.len() implies {
                        let g = #[trigger] frames@[j];
                        &&& old_free.contains(g)
                        &&& g < self.frame_allocator.end
                        &&& !self.frame_allocator.free().contains(g)
                        &&& !self.page_table.table_frames().contains(g)
                    } by {
                        let g = frames@[j];
                        assert(!free1.contains(g) && !table1.contains(g));
                        assert(!free2.union(table1).contains(g));
                        assert(!free_m.union(table_m).contains(g));
                        assert(old(self).frame_allocator.wf());
                        assert(g < old(self).frame_allocator.end);
                    }
                    assert forall|j: int| 0 <= j < frames@.len() implies #[trigger] self.page_table.lookup(
                        (start_vpn + j) as nat) is Some by {
                        assert(pt1.lookup((start_vpn + j) as nat) == Some(pte_of(frames@[j], perm | PTE_V)));
                    }
                    assert(self.spare() =~= spare1);
                    assert forall|g: u64| #[trigger] self.page_table.table_frames().contains(g)
                        implies !self.frame_allocator.free().contains(g) by {
                        if table1.contains(g) {
                            assert(!free1.contains(g));
                        }
                    }
                }
                self.undo_pages(start_vpn, &frames, Ghost(pt0), Ghost(old_spare), Ghost(old_free));
                proof {
                    self.lemma_undone_wf(*old(self));
                }
                return false;
            }
            let ghost fs0 = frames@;
            frames.push(f);
            proof {
                assert(!table1.contains(f));
                assert(!self.page_table.table_frames().contains(f)) by {
                    assert(free2.union(table1).contains(f) == false);
                    assert(self.frame_allocator.free().union(self.page_table.table_frames()) == free2.union(table1));
                }
                assert(pte_of(f, (perm | PTE_V) | PTE_V) == pte_of(f, perm | PTE_V)) by {
                    assert((perm | 1u8) | 1u8 == perm | 1u8) by (bit_vector);
                }
                assert forall|j: int| 0 <= j < i + 1 implies self.page_table.lookup((start_vpn + j) as nat)
                    == Some(pte_of(#[trigger] frames@[j], perm | PTE_V)) by {
                    if j < i {
                        assert(frames@[j] == fs0[j]);
                    }
                }
                assert(!fs0.contains(f)) by {
                    if fs0.contains(f) {
                        let j = choose|j: int| 0 <= j < fs0.len() && fs0[j] == f;
                        assert(!free1.contains(fs0[j]));
                    }
                }
                assert(frames@.no_duplicates()) by {
                    assert forall|a: int, b: int| 0 <= a < frames@.len() && 0 <= b < frames@.len() && a != b
                        implies frames@[a] != frames@[b] by {
                        if a < i && b < i {
                            assert(frames@[a] == fs0[a] && frames@[b] == fs0[b]);
                        } else if a < i {
                            assert(frames@[a] == fs0[a]);
                            assert(fs0.contains(fs0[a]));
                        } else if b < i {
                            assert(frames@[b] == fs0[b]);
                            assert(fs0.contains(fs0[b]));
                        }
                    }
                }
                assert forall|j: int| 0 <= j < i + 1 implies {
                    let g = #[trigger] frames@[j];
                    &&& old_free.contains(g)
                    &&& !self.frame_allocator.free().contains(g)
                    &&& !self.page_table.table_frames().contains(g)
                } by {
                    if j < i {
                        let g = frames@[j];
                        assert(g == fs0[j]);
                        assert(!free1.contains(g) && !table1.contains(g));
                        assert(!self.frame_allocator.free().union(self.page_table.table_frames()).contains(g));
                    }
                }
                assert(frames@.to_set() =~= fs0.to_set().insert(f)) by {
                    assert forall|x: u64| frames@.to_set().contains(x) implies fs0.to_set().insert(f).contains(x) by {
                        let k = choose|k: int| 0 <= k < frames@.len() && frames@[k] == x;
                        if k < i {
                            assert(fs0[k] == x);
                        }
                    }
                    assert forall|x: u64| fs0.to_set().insert(f).contains(x) implies frames@.to_set().contains(x) by {
                        if x == f {
                            assert(frames@[i as int] == f);
                        } else {
                            let k = choose|k: int| 0 <= k < fs0.len() && fs0[k] == x;
                            assert(frames@[k] == x);
                        }
                    }
                }
                assert(free2 == free1.remove(f));
                assert(free2.union(table1) =~= spare1.remove(f));
                assert(self.spare() == free2.union(table1));
                assert(self.spare() =~= old_spare.difference(frames@.to_set()));
                assert forall|u: nat| !(start_vpn <= u < start_vpn + i + 1) implies #[trigger] self.page_table.lookup(u)
                    == pt0.lookup(u) by {
                    assert(self.page_table.lookup(u) == pt1.lookup(u));
                }
                assert forall|g: u64| #[trigger] self.page_table.table_frames().contains(g)
                    implies !self.frame_allocator.free().contains(g) by {
                    if table1.contains(g) {
                        assert(!free1.contains(g));
                    }
                }
            }
            i = i + 1;
        }
        let area = MapArea { start_vpn, end_vpn, perm, frames };
        let ghost areas0 = self.areas@;
        self.areas.push(area);
        proof {
            let a = self.areas@.last();
            assert(a == area);
            assert(self.areas@ == areas0.push(a));
            let n = areas0.len() as int;
            assert forall|k: int| 0 <= k < self.areas@.len() implies (#[trigger] self.areas@[k]).wf() by {
                if k < n {
                    assert(self.areas@[k] == areas0[k]);
                }
            }
            assert forall|k: int, j: int| 0 <= k < self.areas@.len() && 0 <= j < self.areas@[k].frames@.len()
                implies self.page_table.lookup((self.areas@[k].start_vpn + j) as nat)
                == Some(pte_of(#[trigger] self.areas@[k].frames@[j], self.areas@[k].perm | PTE_V)) by {
                if k < n {
                    let b = areas0[k];
                    assert(self.areas@[k] == b);
                    let u = (b.start_vpn + j) as nat;
                    assert(pt0.lookup(u) == Some(pte_of(b.frames@[j], b.perm | PTE_V)));
                    assert(!(start_vpn <= u < end_vpn));
                }
            }
            assert forall|k1: int, k2: int, u: nat| 0 <= k1 < self.areas@.len() && 0 <= k2 < self.areas@.len()
                && k1 != k2 && #[trigger] self.areas@[k1].contains(u) implies !(#[trigger] self.areas@[k2].contains(u)) by {
                if k1 < n && k2 < n {
                    assert(self.areas@[k1] == areas0[k1] && self.areas@[k2] == areas0[k2]);
                } else {
                    let k = if k1 < n { k1 } else { k2 };
                    let b = areas0[k];
                    assert(self.areas@[k] == b);
                    if b.contains(u) && start_vpn <= u < end_vpn {
                        let j = u - b.start_vpn;
                        assert(b.frames@[j] == old(self).areas@[k].frames@[j]);
                        assert(pt0.lookup((b.start_vpn + j) as nat) is Some);
                    }
                }
            }
            assert forall|k: int, j: int| 0 <= k < self.areas@.len() && 0 <= j < self.areas@[k].frames@.len()
                implies {
                    let g = #[trigger] self.areas@[k].frames@[j];
                    &&& g < self.frame_allocator.end
                    &&& !self.frame_allocator.free().contains(g)
                    &&& !self.page_table.table_frames().contains(g)
                } by {
                let g = self.areas@[k].frames@[j];
                if k < n {
                    assert(self.areas@[k] == areas0[k]);
                    assert(!old_spare.contains(g));
                    assert(!self.spare().contains(g));
                } else {
                    assert(self.areas@[k] == area);
                    assert(old_free.contains(g));
                }
            }
            assert forall|k1: int, i1: int, k2: int, i2: int|
                0 <= k1 < self.areas@.len() && 0 <= i1 < self.areas@[k1].frames@.len()
                && 0 <= k2 < self.areas@.len() && 0 <= i2 < self.areas@[k2].frames@.len()
                && #[trigger] self.areas@[k1].frames@[i1] == #[trigger] self.areas@[k2].frames@[i2]
                implies k1 == k2 && i1 == i2 by {
                if k1 < n && k2 < n {
                    assert(self.areas@[k1] == areas0[k1] && self.areas@[k2] == areas0[k2]);
                    assert(old(self).areas@[k1].frames@[i1] == old(self).areas@[k2].frames@[i2]);
                } else if k1 < n {
                    assert(self.areas@[k1] == areas0[k1] && self.areas@[k2] == area);
                    assert(old_free.contains(area.frames@[i2]));
                } else if k2 < n {
                    assert(self.areas@[k2] == areas0[k2] && self.areas@[k1] == area);
                    assert(old_free.contains(area.frames@[i1]));
                } else {
                    assert(self.areas@[k1] == area && self.areas@[k2] == area);
                    assert(area.frames@.no_duplicates());
                    assert(area.frames@[i1] == area.frames@[i2]);
                }
            }
            assert forall|u: nat| #[trigger] self.page_table.lookup(u) == if start_vpn <= u < end_vpn {
                Some(pte_of(a.frames@[u - start_vpn], perm | PTE_V))
            } else {
                old(self).page_table.lookup(u)
            } by {
                if start_vpn <= u < end_vpn {
                    let j = u - start_vpn;
                    assert(self.page_table.lookup((start_vpn + j) as nat) == Some(pte_of(area.frames@[j], perm | PTE_V)));
                }
            }
            assert(a.frames@.to_set().subset_of(old_free));
            assert forall|u: nat| start_vpn <= u < start_vpn + npages implies !old(self).lookup_valid(u) by {
                assert(pt0.lookup(u) is None);
            }
            assert forall|u: nat| #[trigger] self.page_table.lookup(u) is Some implies self.in_some_region(u) by {
                if start_vpn <= u < end_vpn {
                    assert(self.areas@[n].contains(u));
                } else {
                    assert(old(self).page_table.lookup(u) is Some);
                    let k = choose|k: int| 0 <= k < old(self).areas@.len() && #[trigger] old(self).areas@[k].contains(u);
                    assert(self.areas@[k] == areas0[k]);
                    assert(self.areas@[k].contains(u));
                }
            }
        }
        true
    }
    /// Unmaps pages `[start_vpn, end_vpn)` and gives their frames back; each
    /// region the range touches keeps, as regions of their own, its pages
    /// before and after the range. Fails, changing nothing, when a page of
    /// the range is not mapped.
    pub fn munmap(&mut self, start_vpn: usize, end_vpn: usize) -> (r: bool)
        requires
            old(self).wf(),
        ensures
            final(self).wf(),
            r == forall|v: nat| start_vpn <= v < end_vpn ==> #[trigger] old(self).lookup_valid(v),
            r ==> old(self).unmap_result(*final(self), start_vpn as nat, end_vpn as nat),
            !r ==> *final(self) == *old(self),
    {
        let mut v: usize = start_vpn;
        while v < end_vpn
            invariant
                start_vpn <= v,
                v <= end_vpn || v == start_vpn,
                self.wf(),
                forall|u: nat| start_vpn <= u < v ==> #[trigger] self.page_table.lookup(u) is Some,
            decreases end_vpn - v,
        {
            if self.page_table.translate(v).is_none() {
                assert(!old(self).lookup_valid(v as nat));
                return false;
            }
            v = v + 1;
        }
        proof {
            assert forall|u: nat| start_vpn <= u < end_vpn implies #[trigger] old(self).lookup_valid(u) by {}
        }
        if start_vpn >= end_vpn {
            proof {
                assert(old(self).range_frames(start_vpn as nat, end_vpn as nat) =~= Set::empty());
                assert(self.spare() =~= self.spare().union(Set::empty()));
            }
            return true;
        }
        let mut cur: usize = start_vpn;
        proof {
            assert(old(self).range_frames(start_vpn as nat, start_vpn as nat) =~= Set::empty());
            assert(self.spare() =~= self.spare().union(Set::empty()));
        }
        while cur < end_vpn
            invariant
                old(self).wf(),
                self.wf(),
                start_vpn <= cur <= end_vpn,
                forall|u: nat| start_vpn <= u < end_vpn ==> #[trigger] old(self).page_table.lookup(u) is Some,
                forall|u: nat| #[trigger] self.page_table.lookup(u) == if start_vpn <= u < cur {
                    None
                } else {
                    old(self).page_table.lookup(u)
                },
                self.spare() == old(self).spare().union(old(self).range_frames(start_vpn as nat, cur as nat)),
            decreases end_vpn - cur,
        {
            proof {
                assert(self.page_table.lookup(cur as nat) is Some);
                assert(self.in_some_region(cur as nat));
            }
            let mut k: usize = 0;
            while k < self.areas.len()
                invariant
                    k <= self.areas@.len(),
                    forall|j: int| 0 <= j < k ==> !(#[trigger] self.areas@[j]).contains(cur as nat),
                ensures
                    k <= self.areas@.len(),
                    forall|j: int| 0 <= j < k ==> !(#[trigger] self.areas@[j]).contains(cur as nat),
                    k < self.areas@.len() ==> self.areas@[k as int].contains(cur as nat),
                decreases self.areas@.len() - k,
            {
                if self.areas[k].start_vpn <= cur && cur < self.areas[k].end_vpn {
                    break;
                }
                k = k + 1;
            }
            if k == self.areas.len() {
                proof {
                    let j = choose|j: int| 0 <= j < self.areas@.len() && #[trigger] self.areas@[j].contains(cur as nat);
                    assert(false);
                }
                return false;
            }
            let ce = if end_vpn < self.areas[k].end_vpn { end_vpn } else { self.areas[k].end_vpn };
            let ghost before = *self;
            proof {
                assert(before.covers(cur as nat, ce as nat));
            }
            let ok = self.unmap_in_region(cur, ce);
            if !ok {
                proof {
                    assert(false);
                }
                return false;
            }
            proof {
                let kk = choose|kk: int| before.munmap_result(*self, kk, cur as nat, ce as nat);
                let a = before.areas@[kk];
                let lo = cur - a.start_vpn;
                let hi = ce - a.start_vpn;
                let fs = a.frames@.subrange(lo as int, hi as int).to_set();
                let rf = old(self).range_frames(cur as nat, ce as nat);
                assert forall|g: u64| fs.contains(g) <==> rf.contains(g) by {
                    if fs.contains(g) {
                        let jj = choose|jj: int| 0 <= jj < hi - lo && a.frames@.subrange(lo as int, hi as int)[jj] == g;
                        let j = lo + jj;
                        assert(a.frames@[j] == g);
                        let u = (a.start_vpn + j) as nat;
                        assert(before.page_table.lookup(u) == Some(pte_of(before.areas@[kk].frames@[j], a.perm | PTE_V)));
                        assert(g < before.frame_allocator.end);
                        lemma_pte_of(g, a.perm | PTE_V);
                        assert(old(self).page_table.lookup(u) == before.page_table.lookup(u));
                    }
                    if rf.contains(g) {
                        let u = choose|u: nat| cur <= u < ce && #[trigger] old(self).page_table.lookup(u) is Some
                            && old(self).page_table.lookup(u)->0.view_ppn() == g;
                        let j = u - a.start_vpn;
                        assert(before.page_table.lookup(u) == old(self).page_table.lookup(u));
                        let f = before.areas@[kk].frames@[j];
                        assert(before.page_table.lookup((a.start_vpn + j) as nat) == Some(pte_of(f, a.perm | PTE_V)));
                        assert(f < before.frame_allocator.end);
                        lemma_pte_of(f, a.perm | PTE_V);
                        assert(a.frames@.subrange(lo as int, hi as int)[j - lo] == f);
                    }
                }
                assert(fs =~= rf);
                assert(old(self).range_frames(start_vpn as nat, cur as nat).union(rf)
                    =~= old(self).range_frames(start_vpn as nat, ce as nat)) by {
                    assert forall|g: u64| old(self).range_frames(start_vpn as nat, ce as nat).contains(g)
                        implies old(self).range_frames(start_vpn as nat, cur as nat).union(rf).contains(g) by {
                        let u = choose|u: nat| start_vpn <= u < ce && #[trigger] old(self).page_table.lookup(u) is Some
                            && old(self).page_table.lookup(u)->0.view_ppn() == g;
                        if u < cur {
                            assert(old(self).range_frames(start_vpn as nat, cur as nat).contains(g));
                        } else {
                            assert(rf.contains(g));
                        }
                    }
                    assert forall|g: u64| old(self).range_frames(start_vpn as nat, cur as nat).union(rf).contains(g)
                        implies old(self).range_frames(start_vpn as nat, ce as nat).contains(g) by {
                        if old(self).range_frames(start_vpn as nat, cur as nat).contains(g) {
                            let u = choose|u: nat| start_vpn <= u < cur && #[trigger] old(self).page_table.lookup(u) is Some
                                && old(self).page_table.lookup(u)->0.view_ppn() == g;
                        } else {
                            let u = choose|u: nat| cur <= u < ce && #[trigger] old(self).page_table.lookup(u) is Some
                                && old(self).page_table.lookup(u)->0.view_ppn() == g;
                        }
                    }
                }
                assert(self.spare() =~= old(self).spare().union(old(self).range_frames(start_vpn as nat, ce as nat)));
                assert forall|u: nat| #[trigger] self.page_table.lookup(u) == if start_vpn <= u < ce {
                    None
                } else {
                    old(self).page_table.lookup(u)
                } by {
                    assert(self.page_table.lookup(u) == if cur <= u < ce { None } else { before.page_table.lookup(u) });
                }
            }
            cur = ce;
        }
        true
    }

    /// Unmaps pages `[start_vpn, end_vpn)` of the region that holds them all
    /// and gives their frames back; what the region held before and after
    /// the range stays mapped as regions of their own. Fails, changing
    /// nothing, when the range is empty or no one region holds all of it.
    fn unmap_in_region(&mut self, start_vpn: usize, end_vpn: usize) -> (r: bool)
        requires
            old(self).wf(),
        ensures
            final(self).wf(),
            r == old(self).covers(start_vpn as nat, end_vpn as nat),
            r ==> exists|k: int| old(self).munmap_result(*final(self), k, start_vpn as nat, end_vpn as nat),
            !r ==> *final(self) == *old(self),
    {
        if start_vpn >= end_vpn {
            return false;
        }
        let mut k: usize = 0;
        while k < self.areas.len()
            invariant
                k <= self.areas@.len(),
                forall|j: int| 0 <= j < k ==> !(#[trigger] self.areas@[j].start_vpn <= start_vpn
                    && end_vpn <= self.areas@[j].end_vpn),
            ensures
                k <= self.areas@.len(),
                forall|j: int| 0 <= j < k ==> !(#[trigger] self.areas@[j].start_vpn <= start_vpn
                    && end_vpn <= self.areas@[j].end_vpn),
                k < self.areas@.len() ==> self.areas@[k as int].start_vpn <= start_vpn
                    && end_vpn <= self.areas@[k as int].end_vpn,
            decreases self.areas@.len() - k,
        {
            if self.areas[k].start_vpn <= start_vpn && end_vpn <= self.areas[k].end_vpn {
                break;
            }
            k = k + 1;
        }
        if k == self.areas.len() {
            return false;
        }
        let ghost ki = k as int;
        let ghost pt0 = self.page_table;
        let ghost free0 = self.frame_allocator.free();
        let ghost old_areas = self.areas@;
        let area = self.areas.remove(k);
        let ghost a = area;
        proof {
            assert(area == old_areas[ki]);
            assert(area.wf());
        }
        let MapArea { start_vpn: a_start, end_vpn: a_end, perm, frames } = area;
        let lo = start_vpn - a_start;
        let hi = end_vpn - a_start;
        let mut i: usize = lo;
        while i < hi
            invariant
                old(self).wf(),
                a == old(self).areas@[ki],
                old_areas == old(self).areas@,
                0 <= ki < old(self).areas@.len(),
                pt0 == old(self).page_table,
                free0 == old(self).frame_allocator.free(),
                self.areas@ == old(self).areas@.remove(ki),
                a.start_vpn == a_start,
                a.end_vpn == a_end,
                a.frames == frames,
                a.perm == perm,
                frames@.len() == a_end - a_start,
                a_start <= start_vpn < end_vpn <= a_end,
                lo == start_vpn - a_start,
                hi == end_vpn - a_start,
                lo <= i <= hi,
                self.page_table.wf(),
                self.frame_allocator.wf(),
                self.frame_allocator.end == old(self).frame_allocator.end,
                self.page_table.table_frames() == pt0.table_frames(),
                forall|u: nat| #[trigger] self.page_table.lookup(u) == if start_vpn <= u < a_start + i {
                    None
                } else {
                    pt0.lookup(u)
                },
                forall|g: u64| #[trigger] self.frame_allocator.free().contains(g) <==> (free0.contains(g)
                    || exists|j: int| lo <= j < i && frames@[j] == g),
            decreases hi - i,
        {
            let v = a_start + i;
            proof {
                assert(pt0.lookup(v as nat) == Some(pte_of(old(self).areas@[ki].frames@[i as int], perm | PTE_V)));
            }
            let ghost pt1 = self.page_table;
            let ok = self.page_table.unmap(v);
            if !ok {
                proof {
                    assert(false);
                }
                return false;
            }
            let f = frames[i];
            proof {
                assert(old(self).areas@[ki].frames@[i as int] == f);
                if exists|j: int| lo <= j < i && frames@[j] == f {
                    let j = choose|j: int| lo <= j < i && frames@[j] == f;
                    assert(old(self).areas@[ki].frames@[j] == f);
                }
            }
            self.frame_allocator.frame_dealloc(f);
            proof {
                assert forall|g: u64| #[trigger] self.frame_allocator.free().contains(g) <==> (free0.contains(g)
                    || exists|j: int| lo <= j < i + 1 && frames@[j] == g) by {
                    if g == f {
                        assert(frames@[i as int] == g);
                    } else if exists|j: int| lo <= j < i + 1 && frames@[j] == g {
                        let j = choose|j: int| lo <= j < i + 1 && frames@[j] == g;
                        assert(j < i);
                    }
                }
                assert forall|u: nat| #[trigger] self.page_table.lookup(u) == if start_vpn <= u < a_start + i + 1 {
                    None
                } else {
                    pt0.lookup(u)
                } by {
                    assert(self.page_table.lookup(u) == if u == v { None } else { pt1.lookup(u) });
                }
            }
            i = i + 1;
        }
        let ghost m = self.areas@.len() as int;
        let mut left_frames = frames;
        let right_frames = left_frames.split_off(hi);
        left_frames.truncate(lo);
        proof {
            assert(left_frames@ =~= a.frames@.subrange(0, lo as int));
        }
        let has_left = lo > 0;
        let has_right = end_vpn < a_end;
        if has_left {
            self.areas.push(MapArea { start_vpn: a_start, end_vpn: start_vpn, perm, frames: left_frames });
        }
        if has_right {
            self.areas.push(MapArea { start_vpn: end_vpn, end_vpn: a_end, perm, frames: right_frames });
        }
        proof {
            let right_at = m + if has_left { 1int } else { 0int };
            let src = Seq::new(self.areas@.len(), |j: int| if j < m {
                (if j < ki { j } else { j + 1 }, 0int)
            } else if has_left && j == m {
                (ki, 0int)
            } else {
                (ki, hi as int)
            });
            assert(self.areas@.subrange(0, m) =~= old_areas.remove(ki));
            if has_left {
                assert(self.areas@[m] == (MapArea { start_vpn: a_start, end_vpn: start_vpn, perm, frames: left_frames }));
                assert(is_piece(self.areas@[m], a, a_start as nat, start_vpn as nat));
            }
            if has_right {
                assert(is_piece(self.areas@[right_at], a, end_vpn as nat, a_end as nat));
            }
            assert forall|j: int| 0 <= j < self.areas@.len() implies piece_from(
                *old(self), #[trigger] self.areas@[j], src[j].0, src[j].1, ki, start_vpn as nat, end_vpn as nat) by {
                if j < m {
                    assert(self.areas@[j] == self.areas@.subrange(0, m)[j]);
                    let o = if j < ki { j } else { j + 1 };
                    assert(self.areas@[j] == old_areas[o]);
                    assert(old_areas[o].wf());
                } else if has_left && j == m {
                    assert(self.areas@[j].frames@ == a.frames@.subrange(0, lo as int));
                } else {
                    assert(j == right_at);
                    assert(self.areas@[j].frames@ == a.frames@.subrange(hi as int, a.frames@.len() as int));
                }
            }
            assert forall|j1: int, j2: int| 0 <= j1 < self.areas@.len() && 0 <= j2 < self.areas@.len() && j1 != j2
                && (#[trigger] src[j1]).0 == (#[trigger] src[j2]).0
                implies self.areas@[j1].end_vpn <= self.areas@[j2].start_vpn
                    || self.areas@[j2].end_vpn <= self.areas@[j1].start_vpn by {
                if j1 < m && j2 < m {
                    let o1 = if j1 < ki { j1 } else { j1 + 1 };
                    let o2 = if j2 < ki { j2 } else { j2 + 1 };
                    assert(o1 != o2);
                }
            }
            assert forall|g: u64| #[trigger] self.frame_allocator.free().contains(g) <==> (free0.contains(g)
                || exists|j: int| lo <= j < hi && a.frames@[j] == g) by {}
            assert forall|v: nat| #[trigger] old(self).in_some_region(v) && !(start_vpn <= v < end_vpn)
                implies self.in_some_region(v) by {
                let o = choose|o: int| 0 <= o < old_areas.len() && #[trigger] old_areas[o].contains(v);
                if o != ki {
                    let j = if o < ki { o } else { o - 1 };
                    assert(self.areas@.subrange(0, m)[j] == old_areas.remove(ki)[j]);
                    assert(self.areas@[j] == old_areas[o]);
                    assert(self.areas@[j].contains(v));
                } else if v < start_vpn {
                    assert(self.areas@[m].contains(v));
                } else {
                    assert(self.areas@[right_at].contains(v));
                }
            }
            lemma_pieces_wf(*old(self), *self, src, ki, start_vpn as nat, end_vpn as nat, lo as int, hi as int);
            assert(self.spare() =~= old(self).spare().union(a.frames@.subrange(lo as int, hi as int).to_set())) by {
                assert forall|g: u64| a.frames@.subrange(lo as int, hi as int).to_set().contains(g)
                    <==> exists|j: int| lo <= j < hi && a.frames@[j] == g by {
                    if a.frames@.subrange(lo as int, hi as int).to_set().contains(g) {
                        let jj = choose|jj: int| 0 <= jj < hi - lo && a.frames@.subrange(lo as int, hi as int)[jj] == g;
                        assert(a.frames@[lo + jj] == g);
                    }
                    if exists|j: int| lo <= j < hi && a.frames@[j] == g {
                        let j = choose|j: int| lo <= j < hi && a.frames@[j] == g;
                        assert(a.frames@.subrange(lo as int, hi as int)[j - lo] == g);
                    }
                }
            }
            assert(old(self).munmap_result(*self, ki, start_vpn as nat, end_vpn as nat));
        }
        true
    }

    /// Joins the last region onto region `k`, which ends where the last one
    /// starts and has its permission: the joined region takes the place of
    /// both, at the end of the list. Mappings and frames stay as they are.
    pub fn merge_last_into(&mut self, k: usize)
        requires
            old(self).wf(),
            k + 1 < old(self).areas@.len(),
            old(self).areas@[k as int].end_vpn == old(self).areas@.last().start_vpn,
            old(self).areas@[k as int].perm == old(self).areas@.last().perm,
        ensures
            final(self).wf(),
            final(self).page_table == old(self).page_table,
            final(self).frame_allocator == old(self).frame_allocator,
            ({
                let a = old(self).areas@[k as int];
                let b = old(self).areas@.last();
                let c = final(self).areas@.last();
                &&& final(self).areas@ == old(self).areas@.drop_last().remove(k as int).push(c)
                &&& c.start_vpn == a.start_vpn
                &&& c.end_vpn == b.end_vpn
                &&& c.perm == a.perm
                &&& c.frames@ == a.frames@ + b.frames@
            }),
    {
        let ghost o = old(self).areas@;
        let ghost n = o.len() - 1;
        let mut b = self.areas.pop().unwrap();
        let mut a = self.areas.remove(k);
        proof {
            assert(b == o[n]);
            assert(a == o[k as int]);
            assert(o[n].wf() && o[k as int].wf());
        }
        let ghost a0 = a;
        let ghost b0 = b;
        a.frames.append(&mut b.frames);
        a.end_vpn = b.end_vpn;
        let ghost c = a;
        let ghost rest = self.areas@;
        self.areas.push(a);
        proof {
            let m = self.areas@.len() - 1;
            let src = |j: int| if j < k { j } else { j + 1 };
            assert(rest =~= o.drop_last().remove(k as int));
            assert(self.areas@[m] == c);
            assert forall|j: int| 0 <= j < m implies #[trigger] self.areas@[j] == o[src(j)] by {
                assert(self.areas@[j] == rest[j]);
            }
            // a page of the joined region is a page of one of the two
            assert forall|i: int| 0 <= i < c.frames@.len() implies {
                &&& i < a0.frames@.len() ==> c.frames@[i] == o[k as int].frames@[i]
                &&& i >= a0.frames@.len() ==> c.frames@[i] == o[n].frames@[i - a0.frames@.len()]
            } by {}
            assert forall|j: int| 0 <= j < self.areas@.len() implies (#[trigger] self.areas@[j]).wf() by {
                if j < m {
                    assert(o[src(j)].wf());
                }
            }
            assert forall|j: int, i: int| 0 <= j < self.areas@.len() && 0 <= i < self.areas@[j].frames@.len()
                implies self.page_table.lookup((self.areas@[j].start_vpn + i) as nat)
                == Some(pte_of(#[trigger] self.areas@[j].frames@[i], self.areas@[j].perm | PTE_V)) by {
                if j < m {
                    assert(o[src(j)].frames@[i] == self.areas@[j].frames@[i]);
                } else if i < a0.frames@.len() {
                    assert(o[k as int].frames@[i] == c.frames@[i]);
                } else {
                    let i2 = i - a0.frames@.len();
                    assert(o[n].frames@[i2] == c.frames@[i]);
                    assert(o[n].start_vpn + i2 == c.start_vpn + i);
                }
            }
            assert forall|j1: int, j2: int, v: nat| 0 <= j1 < self.areas@.len() && 0 <= j2 < self.areas@.len()
                && j1 != j2 && #[trigger] self.areas@[j1].contains(v) implies !(#[trigger] self.areas@[j2].contains(v)) by {
                if j1 < m && j2 < m {
                    assert(o[src(j1)].contains(v));
                } else if j1 < m {
                    assert(o[src(j1)].contains(v));
                    if self.areas@[j2].contains(v) {
                        if v < a0.end_vpn {
                            assert(o[k as int].contains(v));
                        } else {
                            assert(o[n].contains(v));
                        }
                    }
                } else {
                    if self.areas@[j2].contains(v) {
                        assert(o[src(j2)].contains(v));
                        if v < a0.end_vpn {
                            assert(o[k as int].contains(v));
                        } else {
                            assert(o[n].contains(v));
                        }
                    }
                }
            }
            assert forall|j: int, i: int| 0 <= j < self.areas@.len() && 0 <= i < self.areas@[j].frames@.len()
                implies {
                    let g = #[trigger] self.areas@[j].frames@[i];
                    &&& g < self.frame_allocator.end
                    &&& !self.frame_allocator.free().contains(g)
                    &&& !self.page_table.table_frames().contains(g)
                } by {
                if j < m {
                    assert(o[src(j)].frames@[i] == self.areas@[j].frames@[i]);
                } else if i < a0.frames@.len() {
                    assert(o[k as int].frames@[i] == c.frames@[i]);
                } else {
                    assert(o[n].frames@[i - a0.frames@.len()] == c.frames@[i]);
                }
            }
            assert forall|j1: int, i1: int, j2: int, i2: int|
                0 <= j1 < self.areas@.len() && 0 <= i1 < self.areas@[j1].frames@.len()
                && 0 <= j2 < self.areas@.len() && 0 <= i2 < self.areas@[j2].frames@.len()
                && #[trigger] self.areas@[j1].frames@[i1] == #[trigger] self.areas@[j2].frames@[i2]
                implies j1 == j2 && i1 == i2 by {
                let la = a0.frames@.len() as int;
                let (p1, q1) = if j1 < m { (src(j1), i1) } else if i1 < la { (k as int, i1) } else { (n, i1 - la) };
                let (p2, q2) = if j2 < m { (src(j2), i2) } else if i2 < la { (k as int, i2) } else { (n, i2 - la) };
                assert(self.areas@[j1].frames@[i1] == o[p1].frames@[q1]);
                assert(self.areas@[j2].frames@[i2] == o[p2].frames@[q2]);
            }
            assert forall|u: nat| #[trigger] self.page_table.lookup(u) is Some implies self.in_some_region(u) by {
                let o0 = choose|j: int| 0 <= j < o.len() && #[trigger] o[j].contains(u);
                if o0 == k as int || o0 == n {
                    assert(self.areas@[m].contains(u));
                } else {
                    let j = if o0 < k { o0 } else { o0 - 1 };
                    assert(self.areas@[j] == o[src(j)]);
                    assert(self.areas@[j].contains(u));
                }
            }
        }
    }
}

/// Region `p` of a new address space is taken from region `o` of `old`:
/// it starts `d` pages into it and keeps its permission and frames; when
/// `o` is region `k`, `p` misses the unmapped range `[s, e)`.
pub open spec fn piece_from(old: MemorySet, p: MapArea, o: int, d: int, k: int, s: nat, e: nat) -> bool {
    &&& 0 <= o < old.areas@.len()
    &&& 0 <= d
    &&& p.start_vpn == old.areas@[o].start_vpn + d
    &&& p.start_vpn <= p.end_vpn <= old.areas@[o].end_vpn
    &&& p.perm == old.areas@[o].perm
    &&& p.frames@.len() == p.end_vpn - p.start_vpn
    &&& forall|i: int| 0 <= i < p.frames@.len() ==> #[trigger] p.frames@[i] == old.areas@[o].frames@[d + i]
    &&& o == k ==> p.end_vpn <= s || e <= p.start_vpn
}

/// An address space whose regions are pieces of the regions of a
/// well-formed one, with pages `[s, e)` of region `k` unmapped and their
/// frames freed, is well formed.
proof fn lemma_pieces_wf(old: MemorySet, new: MemorySet, src: Seq<(int, int)>, k: int, s: nat, e: nat, lo: int, hi: int)
    requires
        old.wf(),
        0 <= k < old.areas@.len(),
        old.areas@[k].start_vpn <= s < e <= old.areas@[k].end_vpn,
        lo == s - old.areas@[k].start_vpn,
        hi == e - old.areas@[k].start_vpn,
        new.page_table.wf(),
        new.frame_allocator.wf(),
        new.frame_allocator.end == old.frame_allocator.end,
        new.page_table.table_frames() == old.page_table.table_frames(),
        forall|u: nat| #[trigger] new.page_table.lookup(u) == if s <= u < e {
            None
        } else {
            old.page_table.lookup(u)
        },
        forall|g: u64| #[trigger] new.frame_allocator.free().contains(g) <==> (old.frame_allocator.free().contains(g)
            || exists|j: int| lo <= j < hi && old.areas@[k].frames@[j] == g),
        src.len() == new.areas@.len(),
        forall|j: int| 0 <= j < new.areas@.len() ==> piece_from(old, #[trigger] new.areas@[j], src[j].0, src[j].1, k, s, e),
        forall|j1: int, j2: int| 0 <= j1 < new.areas@.len() && 0 <= j2 < new.areas@.len() && j1 != j2
            && (#[trigger] src[j1]).0 == (#[trigger] src[j2]).0
            ==> new.areas@[j1].end_vpn <= new.areas@[j2].start_vpn || new.areas@[j2].end_vpn <= new.areas@[j1].start_vpn,
        forall|v: nat| #[trigger] old.in_some_region(v) && !(s <= v < e) ==> new.in_some_region(v),
    ensures
        new.wf(),
{
    let a = old.areas@[k];
    let n = new.areas@.len();
    assert forall|j: int| 0 <= j < n implies (#[trigger] new.areas@[j]).wf() by {
        assert(piece_from(old, new.areas@[j], src[j].0, src[j].1, k, s, e));
        assert(old.areas@[src[j].0].wf());
    }
    assert forall|j: int, i: int| 0 <= j < n && 0 <= i < new.areas@[j].frames@.len()
        implies new.page_table.lookup((new.areas@[j].start_vpn + i) as nat)
        == Some(pte_of(#[trigger] new.areas@[j].frames@[i], new.areas@[j].perm | PTE_V)) by {
        let p = new.areas@[j];
        let (o, d) = src[j];
        assert(piece_from(old, p, o, d, k, s, e));
        let q = old.areas@[o];
        let u = (p.start_vpn + i) as nat;
        assert(p.frames@[i] == q.frames@[d + i]);
        assert(old.page_table.lookup((q.start_vpn + (d + i)) as nat) == Some(pte_of(old.areas@[o].frames@[d + i], q.perm | PTE_V)));
        if s <= u < e {
            if o != k {
                assert(q.contains(u) && a.contains(u));
            }
        }
    }
    assert forall|j1: int, j2: int, v: nat| 0 <= j1 < n && 0 <= j2 < n && j1 != j2
        && #[trigger] new.areas@[j1].contains(v) implies !(#[trigger] new.areas@[j2].contains(v)) by {
        let (o1, d1) = src[j1];
        let (o2, d2) = src[j2];
        assert(piece_from(old, new.areas@[j1], o1, d1, k, s, e));
        assert(piece_from(old, new.areas@[j2], o2, d2, k, s, e));
        if o1 != o2 && new.areas@[j2].contains(v) {
            assert(old.areas@[o1].contains(v));
            assert(old.areas@[o2].contains(v));
        }
    }
    assert forall|j: int, i: int| 0 <= j < n && 0 <= i < new.areas@[j].frames@.len()
        implies {
            let g = #[trigger] new.areas@[j].frames@[i];
            &&& g < new.frame_allocator.end
            &&& !new.frame_allocator.free().contains(g)
            &&& !new.page_table.table_frames().contains(g)
        } by {
        let p = new.areas@[j];
        let (o, d) = src[j];
        assert(piece_from(old, p, o, d, k, s, e));
        let g = p.frames@[i];
        assert(g == old.areas@[o].frames@[d + i]);
        if exists|jj: int| lo <= jj < hi && a.frames@[jj] == g {
            let jj = choose|jj: int| lo <= jj < hi && a.frames@[jj] == g;
            assert(old.areas@[k].frames@[jj] == old.areas@[o].frames@[d + i]);
        }
    }
    assert forall|j1: int, i1: int, j2: int, i2: int|
        0 <= j1 < n && 0 <= i1 < new.areas@[j1].frames@.len()
        && 0 <= j2 < n && 0 <= i2 < new.areas@[j2].frames@.len()
        && #[trigger] new.areas@[j1].frames@[i1] == #[trigger] new.areas@[j2].frames@[i2]
        implies j1 == j2 && i1 == i2 by {
        let (o1, d1) = src[j1];
        let (o2, d2) = src[j2];
        assert(piece_from(old, new.areas@[j1], o1, d1, k, s, e));
        assert(piece_from(old, new.areas@[j2], o2, d2, k, s, e));
        assert(old.areas@[o1].frames@[d1 + i1] == old.areas@[o2].frames@[d2 + i2]);
        let u = (new.areas@[j1].start_vpn + i1) as nat;
        if j1 != j2 {
            assert(new.areas@[j1].contains(u));
            assert(new.areas@[j2].contains(u));
        }
    }
    assert forall|g: u64| #[trigger] new.page_table.table_frames().contains(g)
        implies !new.frame_allocator.free().contains(g) by {
        if exists|jj: int| lo <= jj < hi && a.frames@[jj] == g {
            let jj = choose|jj: int| lo <= jj < hi && a.frames@[jj] == g;
            assert(old.areas@[k].frames@[jj] == g);
        }
    }
    assert forall|v: nat| #[trigger] new.page_table.lookup(v) is Some implies new.in_some_region(v) by {
        assert(old.page_table.lookup(v) is Some);
        assert(old.in_some_region(v));
    }
}

/// In a well-formed address space a page is in some region exactly when
/// it is mapped.
pub proof fn lemma_region_iff_mapped(ms: MemorySet, v: nat)
    requires
        ms.wf(),
    ensures
        ms.in_some_region(v) == ms.lookup_valid(v),
{
    if ms.in_some_region(v) {
        let k = choose|k: int| 0 <= k < ms.areas@.len() && #[trigger] ms.areas@[k].contains(v);
        assert(ms.areas@[k].wf());
        let i = v - ms.areas@[k].start_vpn;
        let g = ms.areas@[k].frames@[i];
    }
}

/// Mapping a range and then unmapping the same range gives back the
/// mappings, the spare frames and the pages held by regions from before;
/// unmapping that range once more then fails.
pub proof fn lemma_mmap_munmap_round_trip(
    m0: MemorySet,
    m1: MemorySet,
    m2: MemorySet,
    start: nat,
    end: nat,
    perm: u8,
)
    requires
        m0.wf(),
        m1.wf(),
        m2.wf(),
        start < end,
        m0.mmap_result(m1, start, end, perm),
        m1.unmap_result(m2, start, end),
    ensures
        forall|v: nat| #[trigger] m2.page_table.lookup(v) == m0.page_table.lookup(v),
        forall|v: nat| #[trigger] m2.in_some_region(v) == m0.in_some_region(v),
        m2.spare() == m0.spare(),
        !m2.lookup_valid(start),
{
    let n = m0.areas@.len() as int;
    let a = m1.areas@[n];
    assert(a == m1.areas@.last());
    let fs = a.frames@.to_set();
    let rf = m1.range_frames(start, end);
    assert forall|g: u64| fs.contains(g) <==> rf.contains(g) by {
        if fs.contains(g) {
            let j = choose|j: int| 0 <= j < a.frames@.len() && a.frames@[j] == g;
            let u = (start + j) as nat;
            assert(m1.areas@[n].frames@[j] == g);
            assert(g < m1.frame_allocator.end);
            lemma_pte_of(g, perm | PTE_V);
            assert(m1.page_table.lookup(u) == Some(pte_of(a.frames@[u - start], perm | PTE_V)));
        }
        if rf.contains(g) {
            let u = choose|u: nat| start <= u < end && #[trigger] m1.page_table.lookup(u) is Some
                && m1.page_table.lookup(u)->0.view_ppn() == g;
            let j = u - start;
            let f = m1.areas@[n].frames@[j];
            assert(f < m1.frame_allocator.end);
            lemma_pte_of(f, perm | PTE_V);
        }
    }
    assert(fs =~= rf);
    assert(m2.spare() =~= m0.spare());
    assert forall|v: nat| #[trigger] m2.in_some_region(v) == m0.in_some_region(v) by {
        lemma_region_iff_mapped(m2, v);
        lemma_region_iff_mapped(m0, v);
    }
}

} // verus!
