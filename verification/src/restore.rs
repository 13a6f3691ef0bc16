//! Restore planning: choose the safe hole, lay out the trampoline region,
//! derive the mappings to rebuild, and fix the order of the relocated
//! code's raw syscalls.
//!
//! Everything here is pure computation over the snapshot; the syscalls
//! themselves, and the jump into relocated code, live outside the library.

use vstd::prelude::*;

use crate::error::Error;
use crate::proto::{MemoryMapping, MemoryMappingData, MmapDataV, MmapV, dv_mmaps, lemma_dv_mmaps};
use crate::capture::mmaps_wf;
use vstd::multiset::Multiset;

verus! {

broadcast use vstd::std_specs::vec::group_vec_axioms;

/// Space reserved for the relocated restore code, its state and its stack,
/// before rounding to the page size.
pub const RESTORE_SPACE: u64 = 100 * 1024;

/// An existing mapping of the restorer's own address space, to be unmapped
/// by relocated code.
#[derive(Debug, Clone, Copy, PartialEq, Eq, Structural)]
pub struct CurrentMmap {
    pub addr: usize,
    pub len: usize,
}

/// A mapping to recreate, with the arguments the raw mmap syscall takes.
#[derive(Debug, Clone, Copy, PartialEq, Eq, Structural)]
pub struct NewMmap {
    pub addr: usize,
    pub len: usize,
    pub prot: i32,
    pub flags: i32,
    pub fd: i32,
    pub offset: usize,
}

/// The control block the relocated code works from: where its arrays and
/// stack sit inside the trampoline region, the ready fd, and the pid.
#[derive(Debug, Clone, Copy, PartialEq, Eq, Structural)]
pub struct RestoreState {
    pub stack_pointer: usize,
    pub restore_fn: usize,
    pub current_mmaps_addr: usize,
    pub current_mmaps_len: usize,
    pub new_mmaps_addr: usize,
    pub new_mmaps_len: usize,
    pub fd: i32,
    pub pid: i32,
}

// ---------------------------------------------------------------------------
// Page size
// ---------------------------------------------------------------------------

/// Relies on nix::unistd::sysconf(PAGE_SIZE): the kernel's page size, a
/// machine property; nothing is promised of the value.
#[verifier::external_body]
fn sysconf_page_size_raw() -> (r: Option<i64>) {
    match nix::unistd::sysconf(nix::unistd::SysconfVar::PAGE_SIZE) {
        Ok(Some(v)) => Some(v as i64),
        _ => None,
    }
}

/// The machine's page size, where the kernel reports a positive one.
pub fn page_size() -> (r: Option<u64>)
    ensures
        r is Some ==> r->0 >= 1,
{
    match sysconf_page_size_raw() {
        Some(v) => if v >= 1 {
            Some(v as u64)
        } else {
            None
        },
        None => None,
    }
}

// ---------------------------------------------------------------------------
// Region length
// ---------------------------------------------------------------------------

pub open spec fn spec_region_len(page: u64) -> int {
    RESTORE_SPACE - RESTORE_SPACE % page + page
}

/// The trampoline region's length: the reserved space rounded up to the
/// page size, plus one page of slack.
pub fn restore_region_len(page: u64) -> (r: u64)
    requires
        1 <= page <= 0xffff_ffff,
    ensures
        r == spec_region_len(page),
        r % page == 0,
        RESTORE_SPACE <= r <= RESTORE_SPACE + page,
{
    proof {
        vstd::arithmetic::div_mod::lemma_mod_bound(RESTORE_SPACE as int, page as int);
        vstd::arithmetic::div_mod::lemma_mod_decreases(RESTORE_SPACE as nat, page as nat);
        vstd::arithmetic::div_mod::lemma_mod_equivalence(
            RESTORE_SPACE as int,
            RESTORE_SPACE as int % page as int,
            page as int,
        );
        vstd::arithmetic::div_mod::lemma_mod_twice(RESTORE_SPACE as int, page as int);
        vstd::arithmetic::div_mod::lemma_mod_add_multiples_vanish(
            (RESTORE_SPACE - RESTORE_SPACE % page) as int,
            page as int,
        );
    }
    RESTORE_SPACE - RESTORE_SPACE % page + page
}

// ---------------------------------------------------------------------------
// Sorting the target mappings by address
// ---------------------------------------------------------------------------

/// Sort mappings by address: the sorted vector is a permutation of the
/// input.
#[verifier::loop_isolation(false)]
#[verifier::rlimit(100)]
pub fn sort_mappings(v: Vec<MemoryMapping>) -> (r: Vec<MemoryMapping>)
    ensures
        r@.len() == v@.len(),
        forall|i: int, j: int|
            0 <= i < j < r@.len() ==> (#[trigger] r@[i]).address <= (#[trigger] r@[j]).address,
        r@.to_multiset() == v@.to_multiset(),
{
    broadcast use vstd::seq_lib::group_to_multiset_ensures;
    broadcast use vstd::seq_lib::to_multiset_insert;

    let mut src = v;
    let mut out: Vec<MemoryMapping> = Vec::new();
    assert(out@.to_multiset().add(src@.to_multiset()) =~= v@.to_multiset()) by {
        assert(out@ =~= Seq::<MemoryMapping>::empty());
        assert(out@.to_multiset() =~= Multiset::<MemoryMapping>::empty());
    }
    while src.len() > 0
        invariant
            out@.to_multiset().add(src@.to_multiset()) == v@.to_multiset(),
            out@.len() + src@.len() == v@.len(),
            forall|i: int, j: int|
                0 <= i < j < out@.len() ==> (#[trigger] out@[i]).address
                    <= (#[trigger] out@[j]).address,
        decreases src.len(),
    {
        let ghost src0 = src@;
        let ghost out0 = out@;
        let m = src.remove(0);
        proof {
            assert(src0[0] == m);
            assert(src@ == src0.remove(0));
            assert(src0.remove(0).to_multiset() =~= src0.to_multiset().remove(m));
        }
        let mut k: usize = 0;
        while k < out.len() && out[k].address <= m.address
            invariant
                k <= out@.len(),
                forall|i: int| 0 <= i < k ==> (#[trigger] out@[i]).address <= m.address,
                out@ == out0,
            decreases out@.len() - k,
        {
            k = k + 1;
        }
        assert(k < out@.len() ==> out@[k as int].address > m.address);
        out.insert(k, m);
        proof {
            assert(out@ == out0.insert(k as int, m));
            assert(out@.to_multiset() =~= out0.to_multiset().insert(m));
            assert(out@.to_multiset().add(src@.to_multiset()) =~= v@.to_multiset()) by {
                assert forall|x: MemoryMapping|
                    out@.to_multiset().add(src@.to_multiset()).count(x) == v@.to_multiset().count(
                        x,
                    ) by {
                    assert(src0.to_multiset().count(m) > 0) by {
                        assert(src0.to_multiset().contains(m) <==> src0.contains(m));
                        assert(src0[0] == m && src0.contains(m));
                    }
                }
            }
            assert forall|i: int, j: int|
                0 <= i < j < out@.len() implies (#[trigger] out@[i]).address
                <= (#[trigger] out@[j]).address by {
                if j < k as int {
                    assert(out@[i] == out0[i] && out@[j] == out0[j]);
                } else if j == k as int {
                    assert(out@[i] == out0[i]);
                    assert(out@[j] == m);
                } else {
                    assert(out@[j] == out0[j - 1]);
                    if i < k as int {
                        assert(out@[i] == out0[i]);
                    } else if i == k as int {
                        assert(out@[i] == m);
                        assert(k < out0.len() ==> out0[k as int].address > m.address);
                    } else {
                        assert(out@[i] == out0[i - 1]);
                    }
                }
            }
        }
    }
    assert(src@.to_multiset() =~= Multiset::<MemoryMapping>::empty()) by {
        assert(src@ =~= Seq::<MemoryMapping>::empty());
    }
    assert(out@.to_multiset() =~= v@.to_multiset());
    out
}

// ---------------------------------------------------------------------------
// The safe hole
// ---------------------------------------------------------------------------

/// A usable gap after mapping `i`: the space between its end and the next
/// mapping's start exceeds the region length plus two guard pages.
pub open spec fn has_gap(ms: Seq<MmapV>, i: int, space: int, page: int) -> bool {
    &&& 0 <= i
    &&& i + 1 < ms.len()
    &&& ms[i + 1].address - (ms[i].address + ms[i].len) > space + 2 * page
}

/// Find the first gap in the (sorted, disjoint) target layout that can
/// host the trampoline region, and place the region one guard page past
/// the gap's lower mapping. Fails with `NoSafeHole` exactly when no gap
/// is wide enough.
///
/// Safe-hole invariant: the chosen base address lies in no target
/// mapping, and the chosen region overlaps no target mapping.
#[verifier::loop_isolation(false)]
#[verifier::rlimit(100)]
pub fn find_safe_address_space(mmaps: &Vec<MemoryMapping>, page: u64) -> (r: Result<
    (u64, u64),
    Error,
>)
    requires
        mmaps@.len() >= 1,
        1 <= page <= 0xffff_ffff,
        mmaps_wf(dv_mmaps(mmaps@), page),
    ensures
        match r {
            Ok(sl) => {
                &&& sl.1 == spec_region_len(page)
                &&& sl.0 % page == 0
                &&& sl.0 + sl.1 <= u64::MAX
                &&& (exists|i: int|
                    has_gap(
                        dv_mmaps(mmaps@),
                        i,
                        spec_region_len(page),
                        page as int,
                    ))
                &&& (forall|k: int|
                    0 <= k < dv_mmaps(mmaps@).len() ==> sl.0 + sl.1 <= (#[trigger] dv_mmaps(
                        mmaps@,
                    )[k]).address || dv_mmaps(mmaps@)[k].address + dv_mmaps(mmaps@)[k].len
                        <= sl.0)
                &&& (forall|k: int|
                    0 <= k < dv_mmaps(mmaps@).len() ==> !((#[trigger] dv_mmaps(
                        mmaps@,
                    )[k]).address <= sl.0 < dv_mmaps(mmaps@)[k].address + dv_mmaps(
                        mmaps@,
                    )[k].len))
            },
            Err(e) => e == Error::NoSafeHole && (forall|i: int|
                !has_gap(dv_mmaps(mmaps@), i, spec_region_len(page), page as int)),
        },
{
    proof {
        lemma_dv_mmaps(mmaps@);
    }
    let ghost d = dv_mmaps(mmaps@);
    let space = restore_region_len(page);
    let mut i: usize = 0;
    while i < mmaps.len() - 1
        invariant
            i < mmaps@.len(),
            space == spec_region_len(page),
            forall|j: int| 0 <= j < i ==> !has_gap(d, j, space as int, page as int),
        decreases mmaps@.len() - i,
    {
        proof {
            lemma_dv_mmaps(mmaps@);
            assert(d[i as int] == mmaps@[i as int].dv());
            assert(d[i as int].address + d[i as int].len <= u64::MAX);
            assert(d[i as int + 1] == mmaps@[i as int + 1].dv());
            assert(d[i as int].address + d[i as int].len <= d[i as int + 1].address);
        }
        let prev = &mmaps[i];
        let next = &mmaps[i + 1];
        let prev_end = prev.address + prev.len;
        if next.address - prev_end > space + 2 * page {
            let start = prev_end + page;
            proof {
                let pg = page as int;
                vstd::arithmetic::div_mod::lemma_add_mod_noop(
                    prev.address as int,
                    prev.len as int,
                    pg,
                );
                vstd::arithmetic::div_mod::lemma_small_mod(0nat, page as nat);
                assert(prev_end % page == 0);
                vstd::arithmetic::div_mod::lemma_mod_add_multiples_vanish(prev_end as int, pg);
                assert(start % page == 0);
                assert(has_gap(d, i as int, space as int, page as int));
                assert forall|k: int|
                    0 <= k < d.len() implies start + space <= (#[trigger] d[k]).address
                    || d[k].address + d[k].len <= start by {
                    if k <= i {
                        assert(d[k].address + d[k].len <= d[i as int].address + d[i as int].len);
                    } else {
                        assert(d[k].address >= d[i as int + 1].address) by {
                            if k > i + 1 {
                                assert(d[i as int + 1].address + d[i as int + 1].len
                                    <= d[k].address);
                            }
                        }
                    }
                }
            }
            return Ok((start, space));
        }
        i = i + 1;
    }
    proof {
        assert forall|j: int| !has_gap(d, j, space as int, page as int) by {
            if 0 <= j && j + 1 < d.len() {
                assert(!has_gap(d, j, space as int, page as int));
            }
        }
    }
    Err(Error::NoSafeHole)
}

// ---------------------------------------------------------------------------
// Mappings to rebuild
// ---------------------------------------------------------------------------

/// The syscall arguments for one snapshot mapping: a file-backed entry
/// carries its descriptor and offset, everything else is anonymous. The
/// flags travel as zero: the capture side does not record them yet.
pub open spec fn new_mmap_of(m: MmapV) -> NewMmap {
    NewMmap {
        addr: m.address as usize,
        len: m.len as usize,
        prot: m.perm,
        flags: 0,
        fd: match m.data {
            MmapDataV::File(f) => f.fd,
            _ => 0,
        },
        offset: match m.data {
            MmapDataV::File(f) => f.offset as usize,
            _ => 0,
        },
    }
}

/// The rebuild list: every mapping except the kernel's vvar region, which
/// the destination kernel reinstates on its own.
pub open spec fn spec_new_mmaps(ms: Seq<MmapV>) -> Seq<NewMmap>
    decreases ms,
{
    if ms.len() == 0 {
        Seq::empty()
    } else {
        (if ms[0].data is KernelVvar {
            Seq::empty()
        } else {
            seq![new_mmap_of(ms[0])]
        }) + spec_new_mmaps(ms.skip(1))
    }
}

pub proof fn lemma_spec_new_mmaps_snoc(ms: Seq<MmapV>, i: int)
    requires
        0 <= i < ms.len(),
    ensures
        spec_new_mmaps(ms.take(i + 1)) == spec_new_mmaps(ms.take(i)) + (if ms[i].data
            is KernelVvar {
            Seq::<NewMmap>::empty()
        } else {
            seq![new_mmap_of(ms[i])]
        }),
    decreases i,
{
    let pre = ms.take(i + 1);
    if i == 0 {
        assert(pre.skip(1) =~= ms.take(0));
        assert(spec_new_mmaps(ms.take(0)) =~= Seq::<NewMmap>::empty());
        assert(pre[0] == ms[0]);
        assert(spec_new_mmaps(pre) =~= spec_new_mmaps(ms.take(0)) + (if ms[0].data
            is KernelVvar {
            Seq::<NewMmap>::empty()
        } else {
            seq![new_mmap_of(ms[0])]
        }));
    } else {
        lemma_spec_new_mmaps_snoc(ms.skip(1), i - 1);
        assert(pre.skip(1) =~= ms.skip(1).take(i));
        assert(ms.take(i).skip(1) =~= ms.skip(1).take(i - 1));
        assert(ms.skip(1)[i - 1] == ms[i]);
        assert(spec_new_mmaps(ms.take(i + 1)) =~= spec_new_mmaps(ms.take(i)) + (if ms[i].data
            is KernelVvar {
            Seq::<NewMmap>::empty()
        } else {
            seq![new_mmap_of(ms[i])]
        }));
    }
}

/// Derive the rebuild list from a snapshot's mapping table.
#[verifier::loop_isolation(false)]
pub fn plan_new_mmaps(mmaps: &Vec<MemoryMapping>) -> (r: Vec<NewMmap>)
    requires
        forall|k: int|
            0 <= k < mmaps@.len() ==> (#[trigger] mmaps@[k]).address <= usize::MAX
                && mmaps@[k].len <= usize::MAX && (mmaps@[k].data matches
            MemoryMappingData::File(f) ==> f.offset <= usize::MAX),
    ensures
        r@ == spec_new_mmaps(dv_mmaps(mmaps@)),
{
    proof {
        lemma_dv_mmaps(mmaps@);
    }
    let ghost d = dv_mmaps(mmaps@);
    let mut out: Vec<NewMmap> = Vec::new();
    assert(spec_new_mmaps(d.take(0)) =~= Seq::<NewMmap>::empty());
    let mut i: usize = 0;
    while i < mmaps.len()
        invariant
            i <= mmaps@.len(),
            out@ == spec_new_mmaps(d.take(i as int)),
        decreases mmaps@.len() - i,
    {
        let m = &mmaps[i];
        proof {
            lemma_spec_new_mmaps_snoc(d, i as int);
            assert(d[i as int] == mmaps@[i as int].dv());
        }
        match &m.data {
            MemoryMappingData::KernelVvar => {
                assert(out@ =~= spec_new_mmaps(d.take(i as int + 1)));
            },
            MemoryMappingData::File(f) => {
                out.push(
                    NewMmap {
                        addr: m.address as usize,
                        len: m.len as usize,
                        prot: m.perm,
                        flags: 0,
                        fd: f.fd,
                        offset: f.offset as usize,
                    },
                );
                assert(out@ =~= spec_new_mmaps(d.take(i as int + 1)));
            },
            MemoryMappingData::Buffer(_) => {
                out.push(
                    NewMmap {
                        addr: m.address as usize,
                        len: m.len as usize,
                        prot: m.perm,
                        flags: 0,
                        fd: 0,
                        offset: 0,
                    },
                );
                assert(out@ =~= spec_new_mmaps(d.take(i as int + 1)));
            },
        }
        i = i + 1;
    }
    assert(d.take(d.len() as int) =~= d);
    out
}

// ---------------------------------------------------------------------------
// Trampoline layout
// ---------------------------------------------------------------------------

/// Stack space reserved at the top of the trampoline region.
pub const TRAMPOLINE_STACK: u64 = 4096;

/// Where each part of the trampoline sits, as offsets from the region
/// base: the control block first, then the two mapping arrays, the
/// relocated code, and the stack, each aligned to eight bytes.
#[derive(Debug, Clone, Copy, PartialEq, Eq, Structural)]
pub struct TrampolineLayout {
    pub state_off: u64,
    pub current_off: u64,
    pub new_off: u64,
    pub code_off: u64,
    pub stack_off: u64,
}

pub open spec fn align8(x: int) -> int {
    ((x + 7) / 8) * 8
}

pub proof fn lemma_align8(x: int)
    requires
        x >= 0,
    ensures
        align8(x) % 8 == 0,
        x <= align8(x) < x + 8,
{
    assert(align8(x) % 8 == 0 && x <= align8(x) < x + 8) by (nonlinear_arith)
        requires
            x >= 0,
    ;
}

/// Lay the trampoline parts out inside a region of `region_len` bytes.
/// Returns the offsets when everything fits with the stack reserve, and
/// nothing otherwise.
pub fn plan_trampoline(
    region_len: u64,
    state_size: u64,
    current_bytes: u64,
    new_bytes: u64,
    code_len: u64,
) -> (r: Option<TrampolineLayout>)
    requires
        region_len <= 0xffff_ffff,
        state_size <= 0xffff_ffff,
        current_bytes <= 0xffff_ffff,
        new_bytes <= 0xffff_ffff,
        code_len <= 0xffff_ffff,
    ensures
        match r {
            Some(l) => {
                &&& l.state_off == 0
                &&& l.current_off == align8(state_size as int)
                &&& l.new_off == align8(l.current_off + current_bytes)
                &&& l.code_off == align8(l.new_off + new_bytes)
                &&& l.stack_off == align8(l.code_off + code_len)
                &&& l.current_off % 8 == 0 && l.new_off % 8 == 0 && l.code_off % 8 == 0
                    && l.stack_off % 8 == 0
                &&& l.stack_off + TRAMPOLINE_STACK <= region_len
            },
            None => align8(
                align8(align8(align8(state_size as int) + current_bytes) + new_bytes) + code_len,
            ) + TRAMPOLINE_STACK > region_len,
        },
{
    proof {
        lemma_align8(state_size as int);
    }
    let current_off = ((state_size + 7) / 8) * 8;
    proof {
        lemma_align8(current_off as int + current_bytes as int);
    }
    let new_off = ((current_off + current_bytes + 7) / 8) * 8;
    proof {
        lemma_align8(new_off as int + new_bytes as int);
    }
    let code_off = ((new_off + new_bytes + 7) / 8) * 8;
    proof {
        lemma_align8(code_off as int + code_len as int);
    }
    let stack_off = ((code_off + code_len + 7) / 8) * 8;
    if stack_off <= u64::MAX - TRAMPOLINE_STACK && stack_off + TRAMPOLINE_STACK <= region_len {
        Some(
            TrampolineLayout {
                state_off: 0,
                current_off,
                new_off,
                code_off,
                stack_off,
            },
        )
    } else {
        None
    }
}

/// Fill the control block for a region at `base` laid out by `layout`.
pub fn make_restore_state(
    base: u64,
    layout: &TrampolineLayout,
    current_len: usize,
    new_len: usize,
    fd: i32,
    pid: i32,
) -> (r: RestoreState)
    requires
        base + layout.stack_off + TRAMPOLINE_STACK <= usize::MAX,
        layout.current_off <= layout.new_off <= layout.code_off <= layout.stack_off,
    ensures
        r.stack_pointer == base + layout.stack_off + TRAMPOLINE_STACK,
        r.restore_fn == base + layout.code_off,
        r.current_mmaps_addr == base + layout.current_off,
        r.current_mmaps_len == current_len,
        r.new_mmaps_addr == base + layout.new_off,
        r.new_mmaps_len == new_len,
        r.fd == fd,
        r.pid == pid,
{
    RestoreState {
        stack_pointer: (base + layout.stack_off + TRAMPOLINE_STACK) as usize,
        restore_fn: (base + layout.code_off) as usize,
        current_mmaps_addr: (base + layout.current_off) as usize,
        current_mmaps_len: current_len,
        new_mmaps_addr: (base + layout.new_off) as usize,
        new_mmaps_len: new_len,
        fd,
        pid,
    }
}

// ---------------------------------------------------------------------------
// The relocated code's script
// ---------------------------------------------------------------------------

/// One raw syscall of the relocated restore code.
#[derive(Debug, Clone, Copy, PartialEq, Eq, Structural)]
pub enum RestoreStep {
    /// Stage one: unmap an existing mapping.
    Unmap { addr: usize, len: usize },
    /// Stage two: recreate a target mapping.
    Mmap { addr: usize, len: usize, prot: i32, flags: i32, fd: i32, offset: usize },
    /// Stage three: write the one ready byte.
    SignalReady { fd: i32 },
    /// Stage four: stop self and wait for the destination.
    StopSelf { pid: i32 },
}

pub open spec fn unmap_steps(cur: Seq<CurrentMmap>) -> Seq<RestoreStep>
    decreases cur,
{
    if cur.len() == 0 {
        Seq::empty()
    } else {
        seq![RestoreStep::Unmap { addr: cur[0].addr, len: cur[0].len }] + unmap_steps(cur.skip(1))
    }
}

pub open spec fn map_steps(new: Seq<NewMmap>) -> Seq<RestoreStep>
    decreases new,
{
    if new.len() == 0 {
        Seq::empty()
    } else {
        seq![
            RestoreStep::Mmap {
                addr: new[0].addr,
                len: new[0].len,
                prot: new[0].prot,
                flags: new[0].flags,
                fd: new[0].fd,
                offset: new[0].offset,
            },
        ] + map_steps(new.skip(1))
    }
}

/// The whole script: all unmaps, then all maps, then the ready byte, then
/// the stop.
pub open spec fn spec_restore_steps(
    cur: Seq<CurrentMmap>,
    new: Seq<NewMmap>,
    fd: i32,
    pid: i32,
) -> Seq<RestoreStep> {
    unmap_steps(cur) + map_steps(new) + seq![RestoreStep::SignalReady { fd }] + seq![
        RestoreStep::StopSelf { pid },
    ]
}

pub proof fn lemma_unmap_steps_snoc(cur: Seq<CurrentMmap>, i: int)
    requires
        0 <= i < cur.len(),
    ensures
        unmap_steps(cur.take(i + 1)) == unmap_steps(cur.take(i)) + seq![
            RestoreStep::Unmap { addr: cur[i].addr, len: cur[i].len },
        ],
    decreases i,
{
    let pre = cur.take(i + 1);
    if i == 0 {
        assert(pre.skip(1) =~= cur.take(0));
        assert(unmap_steps(cur.take(0)) =~= Seq::<RestoreStep>::empty());
        assert(pre[0] == cur[0]);
        assert(unmap_steps(pre) =~= unmap_steps(cur.take(0)) + seq![
            RestoreStep::Unmap { addr: cur[0].addr, len: cur[0].len },
        ]);
    } else {
        lemma_unmap_steps_snoc(cur.skip(1), i - 1);
        assert(pre.skip(1) =~= cur.skip(1).take(i));
        assert(cur.take(i).skip(1) =~= cur.skip(1).take(i - 1));
        assert(cur.skip(1)[i - 1] == cur[i]);
        assert(unmap_steps(cur.take(i + 1)) =~= unmap_steps(cur.take(i)) + seq![
            RestoreStep::Unmap { addr: cur[i].addr, len: cur[i].len },
        ]);
    }
}

pub proof fn lemma_map_steps_snoc(new: Seq<NewMmap>, i: int)
    requires
        0 <= i < new.len(),
    ensures
        map_steps(new.take(i + 1)) == map_steps(new.take(i)) + seq![
            RestoreStep::Mmap {
                addr: new[i].addr,
                len: new[i].len,
                prot: new[i].prot,
                flags: new[i].flags,
                fd: new[i].fd,
                offset: new[i].offset,
            },
        ],
    decreases i,
{
    let pre = new.take(i + 1);
    if i == 0 {
        assert(pre.skip(1) =~= new.take(0));
        assert(map_steps(new.take(0)) =~= Seq::<RestoreStep>::empty());
        assert(pre[0] == new[0]);
        assert(map_steps(pre) =~= map_steps(new.take(0)) + seq![
            RestoreStep::Mmap {
                addr: new[0].addr,
                len: new[0].len,
                prot: new[0].prot,
                flags: new[0].flags,
                fd: new[0].fd,
                offset: new[0].offset,
            },
        ]);
    } else {
        lemma_map_steps_snoc(new.skip(1), i - 1);
        assert(pre.skip(1) =~= new.skip(1).take(i));
        assert(new.take(i).skip(1) =~= new.skip(1).take(i - 1));
        assert(new.skip(1)[i - 1] == new[i]);
        assert(map_steps(new.take(i + 1)) =~= map_steps(new.take(i)) + seq![
            RestoreStep::Mmap {
                addr: new[i].addr,
                len: new[i].len,
                prot: new[i].prot,
                flags: new[i].flags,
                fd: new[i].fd,
                offset: new[i].offset,
            },
        ]);
    }
}

/// Emit the relocated code's script in order.
#[verifier::loop_isolation(false)]
pub fn restore_steps(cur: &Vec<CurrentMmap>, new: &Vec<NewMmap>, fd: i32, pid: i32) -> (r: Vec<
    RestoreStep,
>)
    ensures
        r@ == spec_restore_steps(cur@, new@, fd, pid),
{
    let mut out: Vec<RestoreStep> = Vec::new();
    assert(unmap_steps(cur@.take(0)) =~= Seq::<RestoreStep>::empty());
    let mut i: usize = 0;
    while i < cur.len()
        invariant
            i <= cur@.len(),
            out@ == unmap_steps(cur@.take(i as int)),
        decreases cur@.len() - i,
    {
        out.push(RestoreStep::Unmap { addr: cur[i].addr, len: cur[i].len });
        proof {
            lemma_unmap_steps_snoc(cur@, i as int);
        }
        assert(out@ =~= unmap_steps(cur@.take(i as int + 1)));
        i = i + 1;
    }
    assert(cur@.take(cur@.len() as int) =~= cur@);
    let ghost mid = out@;
    assert(map_steps(new@.take(0)) =~= Seq::<RestoreStep>::empty());
    let mut j: usize = 0;
    while j < new.len()
        invariant
            j <= new@.len(),
            out@ == mid + map_steps(new@.take(j as int)),
        decreases new@.len() - j,
    {
        let n = &new[j];
        out.push(
            RestoreStep::Mmap {
                addr: n.addr,
                len: n.len,
                prot: n.prot,
                flags: n.flags,
                fd: n.fd,
                offset: n.offset,
            },
        );
        proof {
            lemma_map_steps_snoc(new@, j as int);
        }
        assert(out@ =~= mid + map_steps(new@.take(j as int + 1)));
        j = j + 1;
    }
    assert(new@.take(new@.len() as int) =~= new@);
    out.push(RestoreStep::SignalReady { fd });
    out.push(RestoreStep::StopSelf { pid });
    assert(out@ =~= spec_restore_steps(cur@, new@, fd, pid));
    out
}

/// The script's stages come in order: first every unmap, then every map,
/// then the single ready byte, then the single stop, and nothing else.
pub proof fn lemma_restore_stages(cur: Seq<CurrentMmap>, new: Seq<NewMmap>, fd: i32, pid: i32)
    ensures
        spec_restore_steps(cur, new, fd, pid).len() == cur.len() + new.len() + 2,
        forall|k: int|
            0 <= k < cur.len() ==> spec_restore_steps(cur, new, fd, pid)[k] == (
            RestoreStep::Unmap { addr: cur[k].addr, len: cur[k].len }),
        forall|k: int|
            cur.len() <= k < cur.len() + new.len() ==> spec_restore_steps(cur, new, fd, pid)[k]
                == (RestoreStep::Mmap {
                addr: new[k - cur.len()].addr,
                len: new[k - cur.len()].len,
                prot: new[k - cur.len()].prot,
                flags: new[k - cur.len()].flags,
                fd: new[k - cur.len()].fd,
                offset: new[k - cur.len()].offset,
            }),
        spec_restore_steps(cur, new, fd, pid)[cur.len() + new.len() as int] == (
        RestoreStep::SignalReady { fd }),
        spec_restore_steps(cur, new, fd, pid)[cur.len() + new.len() + 1int] == (
        RestoreStep::StopSelf { pid }),
{
    lemma_unmap_steps_index(cur);
    lemma_map_steps_index(new);
}

pub proof fn lemma_unmap_steps_index(cur: Seq<CurrentMmap>)
    ensures
        unmap_steps(cur).len() == cur.len(),
        forall|k: int|
            0 <= k < cur.len() ==> unmap_steps(cur)[k] == (RestoreStep::Unmap {
                addr: cur[k].addr,
                len: cur[k].len,
            }),
    decreases cur.len(),
{
    if cur.len() > 0 {
        lemma_unmap_steps_index(cur.skip(1));
        assert forall|k: int| 0 <= k < cur.len() implies unmap_steps(cur)[k] == (
        RestoreStep::Unmap { addr: cur[k].addr, len: cur[k].len }) by {
            if k > 0 {
                assert(cur.skip(1)[k - 1] == cur[k]);
                assert(unmap_steps(cur)[k] == unmap_steps(cur.skip(1))[k - 1]);
            }
        }
    }
}

pub proof fn lemma_map_steps_index(new: Seq<NewMmap>)
    ensures
        map_steps(new).len() == new.len(),
        forall|k: int|
            0 <= k < new.len() ==> map_steps(new)[k] == (RestoreStep::Mmap {
                addr: new[k].addr,
                len: new[k].len,
                prot: new[k].prot,
                flags: new[k].flags,
                fd: new[k].fd,
                offset: new[k].offset,
            }),
    decreases new.len(),
{
    if new.len() > 0 {
        lemma_map_steps_index(new.skip(1));
        assert forall|k: int| 0 <= k < new.len() implies map_steps(new)[k] == (RestoreStep::Mmap {
            addr: new[k].addr,
            len: new[k].len,
            prot: new[k].prot,
            flags: new[k].flags,
            fd: new[k].fd,
            offset: new[k].offset,
        }) by {
            if k > 0 {
                assert(new.skip(1)[k - 1] == new[k]);
                assert(map_steps(new)[k] == map_steps(new.skip(1))[k - 1]);
            }
        }
    }
}

} // verus!
