//! Reaching a user buffer through a page table: the buffer is cut at page
//! boundaries, and each piece is a byte range of one physical frame.
use vstd::prelude::*;
use crate::page_table::PageTable;
use crate::process::{FileDesc, fd_open};

verus! {

/// Bytes `[begin, end)` of frame `ppn`.
pub struct PageSlice {
    pub ppn: u64,
    pub begin: usize,
    pub end: usize,
}

/// Whether virtual page `v` holds some byte of `[start, start + len)`.
pub open spec fn touched(start: nat, len: nat, v: nat) -> bool {
    len > 0 && start / 4096 <= v && v * 4096 < start + len
}

/// Whether `s` is the buffer `[start, start + len)` cut at page
/// boundaries: piece `k` is the part of page `start / 4096 + k` inside the
/// buffer, in the frame that `pt` maps that page to, and the pieces end
/// where the buffer ends.
pub open spec fn slices_cover(pt: PageTable, start: nat, len: nat, s: Seq<PageSlice>) -> bool {
    &&& (s.len() == 0 <==> len == 0)
    &&& s.len() > 0 ==> (start / 4096 + s.len()) * 4096 >= start + len
    &&& forall|k: int| 0 <= k < s.len() ==> piece_ok(pt, start, len, k, #[trigger] s[k])
}

/// Whether `p` is piece `k` of the buffer `[start, start + len)`.
pub open spec fn piece_ok(pt: PageTable, start: nat, len: nat, k: int, p: PageSlice) -> bool {
    let v = (start / 4096 + k) as nat;
    let base = v * 4096;
    let lo = if start > base { start } else { base };
    let hi = if start + len < base + 4096 { start + len } else { base + 4096 };
    &&& pt.lookup(v) is Some
    &&& p.ppn == pt.lookup(v)->0.view_ppn()
    &&& p.begin == lo - base
    &&& p.end == hi - base
    &&& p.begin < p.end
}

/// The pieces of the user buffer `[start, start + len)`; `None` when a page
/// of it is not mapped.
pub fn translated_byte_buffer(pt: &PageTable, start: usize, len: usize) -> (r: Option<Vec<PageSlice>>)
    requires
        pt.wf(),
        start + len <= usize::MAX,
    ensures
        r is None <==> exists|v: nat| #[trigger] touched(start as nat, len as nat, v) && pt.lookup(v) is None,
        r is Some ==> slices_cover(*pt, start as nat, len as nat, r->0@),
{
    let end = start + len;
    let mut v: Vec<PageSlice> = Vec::new();
    let mut cur = start;
    let mut vpn = start / 4096;
    while cur < end
        invariant
            pt.wf(),
            end == start + len,
            start <= cur <= end,
            cur < end ==> vpn * 4096 <= cur,
            cur < end ==> cur < vpn * 4096 + 4096,
            cur < end ==> cur == if start > vpn * 4096 { start as int } else { vpn * 4096 },
            vpn == start / 4096 + v@.len(),
            cur > start <==> v@.len() > 0,
            v@.len() > 0 ==> vpn * 4096 >= cur,
            v@.len() > 0 ==> (start / 4096 + v@.len()) * 4096 >= cur,
            forall|u: nat| start / 4096 <= u < vpn ==> #[trigger] pt.lookup(u) is Some,
            forall|k: int| 0 <= k < v@.len() ==> piece_ok(*pt, start as nat, len as nat, k, #[trigger] v@[k]),
        decreases end - cur,
    {
        proof {
            vstd::arithmetic::div_mod::lemma_fundamental_div_mod(start as int, 4096);
        }
        let e = match pt.translate(vpn) {
            Some(e) => e,
            None => {
                proof {
                    assert(touched(start as nat, len as nat, vpn as nat));
                }
                return None;
            },
        };
        let base = vpn * 4096;
        let begin = cur - base;
        let room = 4096 - begin;
        let take = if end - cur < room { end - cur } else { room };
        let piece = PageSlice { ppn: e.ppn(), begin, end: begin + take };
        let ghost v0 = v@;
        v.push(piece);
        proof {
            assert forall|k: int| 0 <= k < v@.len() implies piece_ok(*pt, start as nat, len as nat, k, #[trigger] v@[k]) by {
                if k < v0.len() {
                    assert(v@[k] == v0[k]);
                }
            }
        }
        cur = cur + take;
        vpn = vpn + 1;
    }
    proof {
        vstd::arithmetic::div_mod::lemma_fundamental_div_mod(start as int, 4096);
        assert forall|u: nat| #[trigger] touched(start as nat, len as nat, u) implies pt.lookup(u) is Some by {
            assert(u < vpn);
        }
    }
    Some(v)
}

/// Checks a write of `len` bytes at user address `buf` to descriptor `fd`
/// and cuts the buffer into frame pieces for the file to take. -1 when `fd`
/// is not open for writing or a page of the buffer is not mapped.
pub fn sys_write(
    fd_table: &Vec<Option<FileDesc>>,
    pt: &PageTable,
    fd: usize,
    buf: usize,
    len: usize,
) -> (r: Result<Vec<PageSlice>, isize>)
    requires
        pt.wf(),
        buf + len <= usize::MAX,
    ensures
        r is Ok <==> fd_open(fd_table@, fd as int) && fd_table@[fd as int]->0.writable
            && forall|v: nat| #[trigger] touched(buf as nat, len as nat, v) ==> pt.lookup(v) is Some,
        r is Ok ==> slices_cover(*pt, buf as nat, len as nat, r->Ok_0@),
        r is Err ==> r->Err_0 == -1,
{
    if fd >= fd_table.len() {
        return Err(-1);
    }
    match &fd_table[fd] {
        None => Err(-1),
        Some(f) => {
            if !f.writable {
                return Err(-1);
            }
            match translated_byte_buffer(pt, buf, len) {
                Some(v) => Ok(v),
                None => Err(-1),
            }
        },
    }
}

/// Checks a read of `len` bytes from descriptor `fd` into user address
/// `buf` and cuts the buffer into frame pieces for the file to fill. -1
/// when `fd` is not open for reading or a page of the buffer is not mapped.
pub fn sys_read(
    fd_table: &Vec<Option<FileDesc>>,
    pt: &PageTable,
    fd: usize,
    buf: usize,
    len: usize,
) -> (r: Result<Vec<PageSlice>, isize>)
    requires
        pt.wf(),
        buf + len <= usize::MAX,
    ensures
        r is Ok <==> fd_open(fd_table@, fd as int) && fd_table@[fd as int]->0.readable
            && forall|v: nat| #[trigger] touched(buf as nat, len as nat, v) ==> pt.lookup(v) is Some,
        r is Ok ==> slices_cover(*pt, buf as nat, len as nat, r->Ok_0@),
        r is Err ==> r->Err_0 == -1,
{
    if fd >= fd_table.len() {
        return Err(-1);
    }
    match &fd_table[fd] {
        None => Err(-1),
        Some(f) => {
            if !f.readable {
                return Err(-1);
            }
            match translated_byte_buffer(pt, buf, len) {
                Some(v) => Ok(v),
                None => Err(-1),
            }
        },
    }
}

} // verus!
