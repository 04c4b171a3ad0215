//! The physical frame allocator: hands out frame numbers and takes them back.
use vstd::prelude::*;
use crate::pte::ppn_limit;

verus! {

/// Frames `[current, end)` were never handed out; `recycled` holds the ones
/// given back.
pub struct FrameAllocator {
    pub current: u64,
    pub end: u64,
    pub recycled: Vec<u64>,
}

impl FrameAllocator {
    /// The frames that can be handed out.
    pub open spec fn free(self) -> Set<u64> {
        Set::new(|f: u64| self.current <= f < self.end).union(self.recycled@.to_set())
    }

    /// How many frames can be handed out.
    pub open spec fn free_count(self) -> nat {
        (self.recycled@.len() + (self.end - self.current)) as nat
    }

    pub open spec fn wf(self) -> bool {
        &&& self.current <= self.end
        &&& self.end <= ppn_limit()
        &&& self.recycled@.no_duplicates()
        &&& forall|i: int| 0 <= i < self.recycled@.len() ==> self.recycled@[i] < self.current
    }

    /// An allocator over frames `[start, end)`.
    pub fn new(start: u64, end: u64) -> (r: Self)
        requires
            start <= end,
            end <= ppn_limit(),
        ensures
            r.wf(),
            r.free() == Set::new(|f: u64| start <= f < end),
            r.free_count() == end - start,
    {
        let r = FrameAllocator { current: start, end, recycled: Vec::new() };
        assert(r.free() =~= Set::new(|f: u64| start <= f < end));
        r
    }

    /// Hands out one free frame, a given-back one first.
    pub fn frame_alloc(&mut self) -> (r: Option<u64>)
        requires
            old(self).wf(),
        ensures
            final(self).wf(),
            final(self).end == old(self).end,
            match r {
                Some(f) => {
                    &&& old(self).free().contains(f)
                    &&& f < old(self).end
                    &&& final(self).free() == old(self).free().remove(f)
                    &&& final(self).free_count() + 1 == old(self).free_count()
                },
                None => old(self).free_count() == 0 && final(self).free() == old(self).free(),
            },
    {
        if let Some(f) = self.recycled.pop() {
            proof {
                let s = old(self).recycled@;
                assert(s == self.recycled@.push(f));
                assert(s[s.len() - 1] == f);
                assert(!self.recycled@.contains(f)) by {
                    if self.recycled@.contains(f) {
                        let k = choose|k: int| 0 <= k < self.recycled@.len() && self.recycled@[k] == f;
                        assert(s[k] == s[s.len() - 1]);
                    }
                }
                assert(self.recycled@.to_set() =~= s.to_set().remove(f)) by {
                    assert forall|x: u64| s.to_set().remove(f).contains(x) implies self.recycled@.to_set().contains(x) by {
                        let k = choose|k: int| 0 <= k < s.len() && s[k] == x;
                        assert(k != s.len() - 1);
                        assert(self.recycled@[k] == x);
                    }
                }
                assert(self.free() =~= old(self).free().remove(f));
            }
            Some(f)
        } else if self.current < self.end {
            let f = self.current;
            self.current = self.current + 1;
            proof {
                assert(!self.recycled@.contains(f));
                assert(self.free() =~= old(self).free().remove(f));
            }
            Some(f)
        } else {
            proof {
                assert(self.free() =~= old(self).free());
            }
            None
        }
    }

    /// Takes back a frame that was handed out.
    pub fn frame_dealloc(&mut self, f: u64)
        requires
            old(self).wf(),
            f < old(self).end,
            !old(self).free().contains(f),
        ensures
            final(self).wf(),
            final(self).end == old(self).end,
            final(self).free() == old(self).free().insert(f),
            final(self).free_count() == old(self).free_count() + 1,
    {
        proof {
            assert(!self.recycled@.contains(f));
        }
        self.recycled.push(f);
        proof {
            assert(self.recycled@.to_set() =~= old(self).recycled@.to_set().insert(f)) by {
                assert forall|x: u64| self.recycled@.to_set().contains(x) implies old(self).recycled@.to_set().insert(f).contains(x) by {
                    let k = choose|k: int| 0 <= k < self.recycled@.len() && self.recycled@[k] == x;
                    if k < old(self).recycled@.len() {
                        assert(old(self).recycled@[k] == x);
                    }
                }
                assert forall|x: u64| old(self).recycled@.to_set().insert(f).contains(x) implies self.recycled@.to_set().contains(x) by {
                    if x == f {
                        assert(self.recycled@[old(self).recycled@.len() as int] == f);
                    } else {
                        let k = choose|k: int| 0 <= k < old(self).recycled@.len() && old(self).recycled@[k] == x;
                        assert(self.recycled@[k] == x);
                    }
                }
            }
            assert(self.free() =~= old(self).free().insert(f));
        }
    }
    /// How many frames can be handed out, capped at `u64::MAX`.
    pub fn free_frames(&self) -> (r: u64)
        requires
            self.wf(),
        ensures
            r == if self.free_count() <= u64::MAX { self.free_count() } else { u64::MAX as nat },
    {
        let n = self.recycled.len() as u64;
        n.saturating_add(self.end - self.current)
    }
}

} // verus!
