//! Decisions of the process and memory syscalls.
use vstd::prelude::*;
use crate::config::{PAGE_SIZE, MEMORY_END, MAX_SYSCALL_NUM};

verus! {

/// Seconds and microseconds.
#[derive(Debug, Clone, Copy, PartialEq, Eq, Structural)]
pub struct TimeVal {
    pub sec: usize,
    pub usec: usize,
}

/// The time value that `get_time` reports for `us` microseconds.
pub fn sys_get_time(us: usize) -> (tv: TimeVal)
    ensures
        tv.sec == us / 1_000_000,
        tv.usec == us % 1_000_000,
{
    TimeVal { sec: us / 1_000_000, usec: us % 1_000_000 }
}

/// What `trace` asks the kernel to do.
#[derive(Debug, Clone, Copy, PartialEq, Eq, Structural)]
pub enum TraceAction {
    /// Read the user byte at `addr`; the result is the byte, or `-1` when
    /// the page does not allow a user read.
    ReadUserByte { addr: usize },
    /// Write `value` to the user byte at `addr`; the result is `0`, or `-1`
    /// when the page does not allow a user write.
    WriteUserByte { addr: usize, value: u8 },
    /// The result is how often syscall `id` was called.
    SyscallCount { id: usize },
    /// The result is `-1`.
    Reject,
}

/// Decodes a `trace` request: `0` reads the byte at address `id`, `1`
/// writes the low byte of `data` there, `2` asks for the count of syscall
/// `id` (which must be below `MAX_SYSCALL_NUM`); anything else is rejected.
pub fn sys_trace(trace_request: usize, id: usize, data: usize) -> (action: TraceAction)
    ensures
        trace_request == 0 ==> action == (TraceAction::ReadUserByte { addr: id }),
        trace_request == 1 ==> action == (TraceAction::WriteUserByte {
            addr: id,
            value: (data % 256) as u8,
        }),
        trace_request == 2 && id < MAX_SYSCALL_NUM ==> action == (TraceAction::SyscallCount {
            id,
        }),
        trace_request == 2 && id >= MAX_SYSCALL_NUM ==> action == TraceAction::Reject,
        trace_request > 2 ==> action == TraceAction::Reject,
{
    match trace_request {
        0 => TraceAction::ReadUserByte { addr: id },
        1 => {
            let value = (data % 256) as u8;
            TraceAction::WriteUserByte { addr: id, value }
        },
        2 => {
            if id >= MAX_SYSCALL_NUM {
                return TraceAction::Reject;
            }
            TraceAction::SyscallCount { id }
        },
        _ => TraceAction::Reject,
    }
}

/// What a page-table entry says about a user page.
#[derive(Debug, Clone, Copy, PartialEq, Eq, Structural)]
pub struct PteView {
    /// Physical page number.
    pub ppn: usize,
    pub valid: bool,
    pub user: bool,
    pub readable: bool,
    pub writable: bool,
}

/// Physical address of the byte at offset `va % PAGE_SIZE` in page `ppn`.
pub open spec fn physical_address(ppn: usize, va: usize) -> int {
    ppn * PAGE_SIZE + va % PAGE_SIZE
}

/// `pa` lies in physical frame `ppn` at the page offset of `va`.
pub open spec fn in_frame(ppn: usize, va: usize, pa: usize) -> bool {
    &&& ppn * PAGE_SIZE <= pa < (ppn + 1) * PAGE_SIZE
    &&& pa % PAGE_SIZE == va % PAGE_SIZE
}

/// A translated address stays inside the mapped frame and keeps the page
/// offset of the virtual address.
pub proof fn lemma_physical_address_in_frame(ppn: usize, va: usize)
    requires
        physical_address(ppn, va) <= usize::MAX,
    ensures
        in_frame(ppn, va, physical_address(ppn, va) as usize),
{
    let o = va % PAGE_SIZE;
    assert(0 <= o < 4096);
    let p = ppn * 4096 + o;
    assert(ppn * 4096 <= p < (ppn + 1) * 4096) by (nonlinear_arith)
        requires
            p == ppn * 4096 + o,
            0 <= o < 4096,
    ;
    assert(p % 4096 == o) by (nonlinear_arith)
        requires
            p == ppn * 4096 + o,
            0 <= o < 4096,
            ppn >= 0,
    ;
}

/// Physical address of the user byte at virtual address `va`, when the
/// entry that maps its page is valid, user-accessible and readable.
pub fn translated_ref_u8(entry: Option<PteView>, va: usize) -> (pa: Option<usize>)
    requires
        entry matches Some(e) ==> physical_address(e.ppn, va) <= usize::MAX,
    ensures
        pa == (match entry {
            Some(e) => if e.valid && e.user && e.readable {
                Some(physical_address(e.ppn, va) as usize)
            } else {
                None
            },
            None => None,
        }),
        pa matches Some(p) ==> in_frame(entry->0.ppn, va, p),
{
    let pte = match entry {
        Some(e) => e,
        None => return None,
    };
    if !(pte.valid && pte.user && pte.readable) {
        return None;
    }
    proof {
        lemma_physical_address_in_frame(pte.ppn, va);
    }
    Some(pte.ppn * PAGE_SIZE + va % PAGE_SIZE)
}

/// Physical address of the user byte at virtual address `va`, when the
/// entry that maps its page is valid, user-accessible and writable.
pub fn translated_refmut_u8(entry: Option<PteView>, va: usize) -> (pa: Option<usize>)
    requires
        entry matches Some(e) ==> physical_address(e.ppn, va) <= usize::MAX,
    ensures
        pa == (match entry {
            Some(e) => if e.valid && e.user && e.writable {
                Some(physical_address(e.ppn, va) as usize)
            } else {
                None
            },
            None => None,
        }),
        pa matches Some(p) ==> in_frame(entry->0.ppn, va, p),
{
    let pte = match entry {
        Some(e) => e,
        None => return None,
    };
    if !(pte.valid && pte.user && pte.writable) {
        return None;
    }
    proof {
        lemma_physical_address_in_frame(pte.ppn, va);
    }
    Some(pte.ppn * PAGE_SIZE + va % PAGE_SIZE)
}

/// Access rights of a new user mapping.
#[derive(Debug, Clone, Copy, PartialEq, Eq, Structural)]
pub struct MapPerm {
    pub read: bool,
    pub write: bool,
    pub execute: bool,
    pub user: bool,
}

/// A mapping to create: pages `start_vpn` up to (not including) `end_vpn`.
#[derive(Debug, Clone, Copy, PartialEq, Eq, Structural)]
pub struct MapRequest {
    pub start_vpn: usize,
    pub end_vpn: usize,
    pub perm: MapPerm,
}

/// The arguments of `mmap` are acceptable: a page-aligned start below
/// `MEMORY_END`, a nonzero length whose end stays within `MEMORY_END`, and
/// a protection made of the read (1), write (2) and execute (4) bits only,
/// at least one of them set.
pub open spec fn mmap_args_valid(start: usize, len: usize, prot: usize) -> bool {
    &&& start % PAGE_SIZE == 0
    &&& 1 <= prot <= 7
    &&& len != 0
    &&& start < MEMORY_END
    &&& start + len <= MEMORY_END
}

/// The mapping that a valid `mmap(start, len, prot)` asks for.
pub open spec fn mmap_request(start: usize, len: usize, prot: usize) -> MapRequest {
    MapRequest {
        start_vpn: (start / PAGE_SIZE) as usize,
        end_vpn: ((start + len + PAGE_SIZE - 1) / PAGE_SIZE as int) as usize,
        perm: MapPerm {
            read: prot % 2 == 1,
            write: (prot / 2) % 2 == 1,
            execute: (prot / 4) % 2 == 1,
            user: true,
        },
    }
}

proof fn lemma_prot_bits(prot: usize)
    ensures
        (prot & !0x7usize == 0 && prot & 0x7usize != 0) <==> (1 <= prot <= 7),
        prot <= 7 ==> ((prot & 1usize != 0) <==> prot % 2 == 1),
        prot <= 7 ==> ((prot & 2usize != 0) <==> (prot / 2) % 2 == 1),
        prot <= 7 ==> ((prot & 4usize != 0) <==> (prot / 4) % 2 == 1),
{
    assert((prot & !0x7usize == 0 && prot & 0x7usize != 0) <==> (1 <= prot <= 7)) by (bit_vector);
    assert(prot <= 7 ==> ((prot & 1usize != 0) <==> prot % 2 == 1)) by (bit_vector);
    assert(prot <= 7 ==> ((prot & 2usize != 0) <==> (prot / 2) % 2 == 1)) by (bit_vector);
    assert(prot <= 7 ==> ((prot & 4usize != 0) <==> (prot / 4) % 2 == 1)) by (bit_vector);
}

/// Checks a `mmap` request. Returns `None` (the syscall fails with `-1`)
/// when the arguments are not acceptable or when `page_in_use` reports a
/// page of the range as already mapped; otherwise returns the mapping the
/// caller creates.
pub fn sys_mmap<F: Fn(usize) -> bool>(start: usize, len: usize, prot: usize, page_in_use: F) -> (req:
    Option<MapRequest>)
    requires
        forall|vpn: usize| page_in_use.requires((vpn,)),
    ensures
        !mmap_args_valid(start, len, prot) ==> req is None,
        req matches Some(r) ==> {
            &&& r.perm.read == (prot & 1usize != 0)
            &&& r.perm.write == (prot & 2usize != 0)
            &&& r.perm.execute == (prot & 4usize != 0)
            &&& r.perm.user
            &&& r.start_vpn * PAGE_SIZE == start
            &&& start + len <= r.end_vpn * PAGE_SIZE < start + len + PAGE_SIZE
        },
        mmap_args_valid(start, len, prot) ==> match req {
            Some(r) => {
                &&& r == mmap_request(start, len, prot)
                &&& forall|vpn: usize|
                    r.start_vpn <= vpn < r.end_vpn ==> #[trigger] page_in_use.ensures((vpn,), false)
            },
            None => exists|vpn: usize|
                mmap_request(start, len, prot).start_vpn <= vpn < mmap_request(start, len, prot).end_vpn
                    && #[trigger] page_in_use.ensures((vpn,), true),
        },
{
    proof {
        lemma_prot_bits(prot);
    }
    if start % PAGE_SIZE != 0 || prot & !0x7 != 0 || prot & 0x7 == 0 || len == 0 || start
        >= MEMORY_END {
        return None;
    }
    let end = match start.checked_add(len) {
        Some(v) => v,
        None => return None,
    };
    if end > MEMORY_END {
        return None;
    }
    let perm = MapPerm {
        read: (prot & 1) != 0,
        write: (prot & 2) != 0,
        execute: (prot & 4) != 0,
        user: true,
    };
    let start_vpn = start / PAGE_SIZE;
    let end_vpn = (end + PAGE_SIZE - 1) / PAGE_SIZE;
    let mut vpn = start_vpn;
    while vpn < end_vpn
        invariant
            start_vpn <= vpn,
            start_vpn == mmap_request(start, len, prot).start_vpn,
            end_vpn == mmap_request(start, len, prot).end_vpn,
            forall|v: usize|
                start_vpn <= v < vpn ==> #[trigger] page_in_use.ensures((v,), false),
            forall|v: usize| page_in_use.requires((v,)),
        decreases end_vpn - vpn,
    {
        let in_use = page_in_use(vpn);
        if in_use {
            assert(page_in_use.ensures((vpn,), true));
            return None;
        }
        vpn = vpn + 1;
    }
    proof {
        lemma_mmap_request_meaning(start, len, prot);
    }
    Some(MapRequest { start_vpn, end_vpn, perm })
}

/// A valid `mmap` request maps exactly the pages covering `[start,
/// start + len)`, starting at the page of `start`, with read, write and
/// execute rights given by bits 0, 1 and 2 of `prot`, and user access.
pub proof fn lemma_mmap_request_meaning(start: usize, len: usize, prot: usize)
    requires
        mmap_args_valid(start, len, prot),
    ensures
        mmap_request(start, len, prot).perm.read == (prot & 1usize != 0),
        mmap_request(start, len, prot).perm.write == (prot & 2usize != 0),
        mmap_request(start, len, prot).perm.execute == (prot & 4usize != 0),
        mmap_request(start, len, prot).perm.user,
        mmap_request(start, len, prot).start_vpn * PAGE_SIZE == start,
        start + len <= mmap_request(start, len, prot).end_vpn * PAGE_SIZE < start + len + PAGE_SIZE,
{
    lemma_prot_bits(prot);
    let e = start + len + 4095;
    let q = e / 4096;
    assert(q * 4096 <= e < q * 4096 + 4096) by (nonlinear_arith)
        requires
            q == e / 4096,
            e >= 0,
    ;
    let sv = start / 4096;
    assert(sv * 4096 == start) by (nonlinear_arith)
        requires
            sv == start / 4096,
            start % 4096 == 0,
            start >= 0,
    ;
}

/// Checks a `munmap` request and returns the range `(start, len)` to unmap,
/// the length cut back so the range ends at `MEMORY_END`; `None` (the
/// syscall fails with `-1`) for an unaligned start, a zero length or a
/// start at or beyond `MEMORY_END`.
pub fn sys_munmap(start: usize, len: usize) -> (range: Option<(usize, usize)>)
    requires
        start % PAGE_SIZE == 0 && len != 0 && start < MEMORY_END ==> len <= MEMORY_END,
    ensures
        (start % PAGE_SIZE != 0 || len == 0 || start >= MEMORY_END) ==> range is None,
        (start % PAGE_SIZE == 0 && len != 0 && start < MEMORY_END) ==> range == Some(
            (
                start,
                if start + len > MEMORY_END {
                    (MEMORY_END - start) as usize
                } else {
                    len
                },
            ),
        ),
{
    if start % PAGE_SIZE != 0 || len == 0 || start >= MEMORY_END {
        return None;
    }
    let mut mlen = len;
    if start > MEMORY_END - len {
        mlen = MEMORY_END - start;
    }
    Some((start, mlen))
}

/// Result of `sbrk` given what moving the program break returned: the old
/// break, or `-1` when it could not move.
pub fn sys_sbrk(old_brk: Option<usize>) -> (code: isize)
    ensures
        code == (match old_brk {
            Some(b) => b as isize,
            None => -1isize,
        }),
{
    match old_brk {
        Some(b) => b as isize,
        None => -1,
    }
}

} // verus!
