//! Capture: turn raw process facts read under `/proc` into snapshot
//! records.
//!
//! The reads themselves happen outside the library; what arrives here are
//! plain values (the `Raw...` types). The builders classify descriptors,
//! assign buffer ids from one monotonic counter, and establish the data
//! model's invariants: page-aligned disjoint mappings and unique buffer
//! ids across the whole snapshot.

use vstd::prelude::*;

use crate::error::Error;
use crate::proto::{
    Fd, FdFile, FdFileV, FdPipe, FdPipeV, FdType, FdTypeV, FdV, MemoryMapping,
    MemoryMappingData, MmapDataV, MmapV, Process, ProcessV, Thread, ThreadV, dv_fds, dv_mmaps,
    dv_processes, dv_threads, lemma_dv_fds_snoc, lemma_dv_mmaps_snoc, lemma_dv_processes_snoc,
    lemma_dv_threads_snoc,
};

verus! {

broadcast use vstd::std_specs::vec::group_vec_axioms;

/// One line of a process's mapping table, as the kernel reports it.
#[derive(Debug, Clone, PartialEq)]
pub struct RawMapping {
    pub start: u64,
    pub end: u64,
    pub perm: i32,
    pub is_vvar: bool,
}

/// What a descriptor's `/proc` symlink points at.
#[derive(Debug, Clone, PartialEq)]
pub enum RawFdTarget {
    /// A filesystem path.
    Path(Vec<u8>),
    /// A pipe, named by its kernel inode number.
    Pipe(u64),
    /// A socket inode; capture does not support these yet.
    Socket(u64),
    /// An anonymous inode; unsupported.
    AnonInode(Vec<u8>),
    /// A memfd; unsupported.
    MemFd(Vec<u8>),
    /// Anything else; unsupported.
    Other(Vec<u8>),
}

#[derive(Debug, Clone, PartialEq)]
pub struct RawFd {
    pub fd: i32,
    pub mode: u32,
    pub target: RawFdTarget,
}

#[derive(Debug, PartialEq)]
pub struct RawThread {
    pub tid: i32,
    pub uid: u32,
    pub gid: u32,
    pub reg: Vec<u8>,
    pub children: Vec<RawProcess>,
}

#[derive(Debug, PartialEq)]
pub struct RawProcess {
    pub pid: i32,
    pub mmaps: Vec<RawMapping>,
    pub fds: Vec<RawFd>,
    pub threads: Vec<RawThread>,
}

// ---------------------------------------------------------------------------
// Descriptor classification
// ---------------------------------------------------------------------------

/// What a raw descriptor becomes in the snapshot: a reopenable file (the
/// position is recorded as zero; true position recovery is an open gap),
/// or a pipe half named by the kernel inode so that matching halves across
/// processes share an id. Socket and anonymous targets are not supported.
pub open spec fn classify_fd_spec(f: RawFd) -> Option<FdV> {
    match f.target {
        RawFdTarget::Path(p) => Some(
            FdV { fd: f.fd, mode: f.mode, ty: FdTypeV::File(FdFileV { file: p@, position: 0 }) },
        ),
        RawFdTarget::Pipe(id) => Some(
            FdV { fd: f.fd, mode: f.mode, ty: FdTypeV::Pipe(FdPipeV { pipe_id: id }) },
        ),
        _ => None,
    }
}

pub fn classify_fd(f: &RawFd) -> (r: Result<Fd, Error>)
    ensures
        match r {
            Ok(fd) => classify_fd_spec(*f) == Some(fd.dv()),
            Err(e) => e == Error::CaptureUnsupported && classify_fd_spec(*f) is None,
        },
{
    match &f.target {
        RawFdTarget::Path(p) => {
            let mut file: Vec<u8> = Vec::new();
            let mut i: usize = 0;
            while i < p.len()
                invariant
                    i <= p.len(),
                    file@ == p@.take(i as int),
                decreases p.len() - i,
            {
                file.push(p[i]);
                assert(file@ =~= p@.take(i as int + 1));
                i = i + 1;
            }
            assert(file@ =~= p@);
            Ok(Fd { fd: f.fd, mode: f.mode, ty: FdType::File(FdFile { file, position: 0 }) })
        },
        RawFdTarget::Pipe(id) => Ok(
            Fd { fd: f.fd, mode: f.mode, ty: FdType::Pipe(FdPipe { pipe_id: *id }) },
        ),
        _ => Err(Error::CaptureUnsupported),
    }
}

/// Pipe pairing: two captured descriptors carry the same `pipe_id` exactly
/// when their raw targets name the same kernel pipe inode.
pub proof fn lemma_pipe_pairing(a: RawFd, b: RawFd, fa: FdV, fb: FdV)
    requires
        classify_fd_spec(a) == Some(fa),
        classify_fd_spec(b) == Some(fb),
        fa.ty is Pipe,
        fb.ty is Pipe,
    ensures
        (fa.ty->Pipe_0.pipe_id == fb.ty->Pipe_0.pipe_id) <==> (a.target == b.target),
{
}

// ---------------------------------------------------------------------------
// Mapping classification and buffer-id assignment
// ---------------------------------------------------------------------------

/// The mapping a raw line becomes when the running counter stands at `c`.
/// The vvar region is excluded from restoration (the kernel reinstates
/// it); every other mapping's contents travel as a buffer, anonymous and
/// file-backed alike.
pub open spec fn mmap_of_raw(m: RawMapping, c: int) -> MmapV {
    MmapV {
        address: m.start,
        len: (m.end - m.start) as u64,
        perm: m.perm,
        data: if m.is_vvar {
            MmapDataV::KernelVvar
        } else {
            MmapDataV::Buffer(c as u32)
        },
    }
}

/// How many buffer ids a mapping list consumes.
pub open spec fn raw_buf_count(ms: Seq<RawMapping>) -> int
    decreases ms,
{
    if ms.len() == 0 {
        0
    } else {
        (if ms[0].is_vvar {
            0int
        } else {
            1int
        }) + raw_buf_count(ms.skip(1))
    }
}

/// The mapping list built from raw lines with the counter starting at `c`.
pub open spec fn mmaps_of_raw(ms: Seq<RawMapping>, c: int) -> Seq<MmapV>
    decreases ms,
{
    if ms.len() == 0 {
        Seq::empty()
    } else {
        seq![mmap_of_raw(ms[0], c)] + mmaps_of_raw(
            ms.skip(1),
            c + (if ms[0].is_vvar {
                0int
            } else {
                1int
            }),
        )
    }
}

pub proof fn lemma_raw_buf_count_nonneg(ms: Seq<RawMapping>)
    ensures
        0 <= raw_buf_count(ms) <= ms.len(),
    decreases ms,
{
    if ms.len() > 0 {
        lemma_raw_buf_count_nonneg(ms.skip(1));
    }
}

// ---------------------------------------------------------------------------
// Building the process tree
// ---------------------------------------------------------------------------

/// Buffer ids consumed by a whole raw subtree.
pub open spec fn tree_buf_count(p: RawProcess) -> int
    decreases p, 0int,
{
    raw_buf_count(p.mmaps@) + threads_buf_count(p.threads@)
}

pub open spec fn threads_buf_count(ts: Seq<RawThread>) -> int
    decreases ts, 1int,
{
    if ts.len() == 0 {
        0
    } else {
        children_buf_count(ts[0].children@) + threads_buf_count(ts.skip(1))
    }
}

pub open spec fn children_buf_count(ps: Seq<RawProcess>) -> int
    decreases ps, 2int,
{
    if ps.len() == 0 {
        0
    } else {
        tree_buf_count(ps[0]) + children_buf_count(ps.skip(1))
    }
}

/// Every descriptor in the subtree is of a supported kind.
pub open spec fn tree_fds_ok(p: RawProcess) -> bool
    decreases p, 0int,
{
    (forall|i: int|
        0 <= i < p.fds@.len() ==> classify_fd_spec(#[trigger] p.fds@[i]) is Some)
        && threads_fds_ok(p.threads@)
}

pub open spec fn threads_fds_ok(ts: Seq<RawThread>) -> bool
    decreases ts, 1int,
{
    if ts.len() == 0 {
        true
    } else {
        children_fds_ok(ts[0].children@) && threads_fds_ok(ts.skip(1))
    }
}

pub open spec fn children_fds_ok(ps: Seq<RawProcess>) -> bool
    decreases ps, 2int,
{
    if ps.len() == 0 {
        true
    } else {
        tree_fds_ok(ps[0]) && children_fds_ok(ps.skip(1))
    }
}

/// The classified descriptor table.
pub open spec fn fds_of_raw(fs: Seq<RawFd>) -> Seq<FdV>
    decreases fs,
{
    if fs.len() == 0 {
        Seq::empty()
    } else {
        seq![classify_fd_spec(fs[0])->0] + fds_of_raw(fs.skip(1))
    }
}

/// The snapshot subtree built from a raw subtree with the counter at `c`.
pub open spec fn tree_of_raw(p: RawProcess, c: int) -> ProcessV
    decreases p, 0int,
{
    ProcessV {
        pid: p.pid,
        mmaps: mmaps_of_raw(p.mmaps@, c),
        fd_table: fds_of_raw(p.fds@),
        threads: threads_of_raw(p.threads@, c + raw_buf_count(p.mmaps@)),
    }
}

pub open spec fn threads_of_raw(ts: Seq<RawThread>, c: int) -> Seq<ThreadV>
    decreases ts, 1int,
{
    if ts.len() == 0 {
        Seq::empty()
    } else {
        seq![
            ThreadV {
                tid: ts[0].tid,
                uid: ts[0].uid,
                gid: ts[0].gid,
                reg: ts[0].reg@,
                children: children_of_raw(ts[0].children@, c),
            },
        ] + threads_of_raw(ts.skip(1), c + children_buf_count(ts[0].children@))
    }
}

pub open spec fn children_of_raw(ps: Seq<RawProcess>, c: int) -> Seq<ProcessV>
    decreases ps, 2int,
{
    if ps.len() == 0 {
        Seq::empty()
    } else {
        seq![tree_of_raw(ps[0], c)] + children_of_raw(ps.skip(1), c + tree_buf_count(ps[0]))
    }
}

// ---------------------------------------------------------------------------
// Prefix lemmas for the counter-threaded builders
// ---------------------------------------------------------------------------

pub proof fn lemma_mmaps_of_raw_snoc(ms: Seq<RawMapping>, i: int, c: int)
    requires
        0 <= i < ms.len(),
    ensures
        raw_buf_count(ms.take(i + 1)) == raw_buf_count(ms.take(i)) + (if ms[i].is_vvar {
            0int
        } else {
            1int
        }),
        mmaps_of_raw(ms.take(i + 1), c) == mmaps_of_raw(ms.take(i), c) + seq![
            mmap_of_raw(ms[i], c + raw_buf_count(ms.take(i))),
        ],
    decreases i,
{
    let pre = ms.take(i + 1);
    if i == 0 {
        assert(pre.skip(1) =~= ms.take(0));
        assert(raw_buf_count(ms.take(0)) == 0);
        let d0 = if ms[0].is_vvar {
            0int
        } else {
            1int
        };
        assert(mmaps_of_raw(ms.take(0), c) =~= Seq::<MmapV>::empty());
        assert(mmaps_of_raw(ms.take(0), c + d0) =~= Seq::<MmapV>::empty());
        assert(pre[0] == ms[0]);
        assert(mmaps_of_raw(pre, c) =~= mmaps_of_raw(ms.take(0), c) + seq![mmap_of_raw(ms[0], c)]);
    } else {
        let d = if ms[0].is_vvar {
            0int
        } else {
            1int
        };
        lemma_mmaps_of_raw_snoc(ms.skip(1), i - 1, c + d);
        assert(pre.skip(1) =~= ms.skip(1).take(i));
        assert(ms.take(i).skip(1) =~= ms.skip(1).take(i - 1));
        assert(ms.skip(1)[i - 1] == ms[i]);
        assert(raw_buf_count(ms.take(i + 1)) == raw_buf_count(ms.take(i)) + (if ms[i].is_vvar {
            0int
        } else {
            1int
        }));
        assert(mmaps_of_raw(ms.take(i + 1), c) =~= mmaps_of_raw(ms.take(i), c) + seq![
            mmap_of_raw(ms[i], c + raw_buf_count(ms.take(i))),
        ]);
    }
}

pub proof fn lemma_fds_of_raw_snoc(fs: Seq<RawFd>, i: int)
    requires
        0 <= i < fs.len(),
    ensures
        fds_of_raw(fs.take(i + 1)) == fds_of_raw(fs.take(i)) + seq![classify_fd_spec(fs[i])->0],
    decreases i,
{
    let pre = fs.take(i + 1);
    if i == 0 {
        assert(pre.skip(1) =~= fs.take(0));
        assert(fds_of_raw(fs.take(0)) =~= Seq::<FdV>::empty());
        assert(fds_of_raw(pre) =~= fds_of_raw(fs.take(0)) + seq![classify_fd_spec(fs[0])->0]);
    } else {
        lemma_fds_of_raw_snoc(fs.skip(1), i - 1);
        assert(pre.skip(1) =~= fs.skip(1).take(i));
        assert(fs.take(i).skip(1) =~= fs.skip(1).take(i - 1));
        assert(fs.skip(1)[i - 1] == fs[i]);
        assert(fds_of_raw(fs.take(i + 1)) =~= fds_of_raw(fs.take(i)) + seq![
            classify_fd_spec(fs[i])->0,
        ]);
    }
}

pub proof fn lemma_threads_of_raw_snoc(ts: Seq<RawThread>, i: int, c: int)
    requires
        0 <= i < ts.len(),
    ensures
        threads_buf_count(ts.take(i + 1)) == threads_buf_count(ts.take(i)) + children_buf_count(
            ts[i].children@,
        ),
        threads_of_raw(ts.take(i + 1), c) == threads_of_raw(ts.take(i), c) + seq![
            ThreadV {
                tid: ts[i].tid,
                uid: ts[i].uid,
                gid: ts[i].gid,
                reg: ts[i].reg@,
                children: children_of_raw(
                    ts[i].children@,
                    c + threads_buf_count(ts.take(i)),
                ),
            },
        ],
        threads_fds_ok(ts.take(i + 1)) == (threads_fds_ok(ts.take(i)) && children_fds_ok(
            ts[i].children@,
        )),
    decreases i,
{
    let pre = ts.take(i + 1);
    if i == 0 {
        assert(pre.skip(1) =~= ts.take(0));
        assert(threads_buf_count(ts.take(0)) == 0);
        assert(threads_of_raw(ts.take(0), c) =~= Seq::<ThreadV>::empty());
        let d0 = children_buf_count(ts[0].children@);
        assert(threads_of_raw(ts.take(0), c + d0) =~= Seq::<ThreadV>::empty());
        assert(pre[0] == ts[0]);
        assert(threads_fds_ok(ts.take(0)));
        assert(threads_of_raw(pre, c) =~= threads_of_raw(ts.take(0), c) + seq![
            ThreadV {
                tid: ts[0].tid,
                uid: ts[0].uid,
                gid: ts[0].gid,
                reg: ts[0].reg@,
                children: children_of_raw(ts[0].children@, c),
            },
        ]);
    } else {
        let d = children_buf_count(ts[0].children@);
        lemma_threads_of_raw_snoc(ts.skip(1), i - 1, c + d);
        assert(pre.skip(1) =~= ts.skip(1).take(i));
        assert(ts.take(i).skip(1) =~= ts.skip(1).take(i - 1));
        assert(ts.skip(1)[i - 1] == ts[i]);
        assert(threads_of_raw(ts.take(i + 1), c) =~= threads_of_raw(ts.take(i), c) + seq![
            ThreadV {
                tid: ts[i].tid,
                uid: ts[i].uid,
                gid: ts[i].gid,
                reg: ts[i].reg@,
                children: children_of_raw(
                    ts[i].children@,
                    c + threads_buf_count(ts.take(i)),
                ),
            },
        ]);
    }
}

pub proof fn lemma_children_of_raw_snoc(ps: Seq<RawProcess>, i: int, c: int)
    requires
        0 <= i < ps.len(),
    ensures
        children_buf_count(ps.take(i + 1)) == children_buf_count(ps.take(i)) + tree_buf_count(
            ps[i],
        ),
        children_of_raw(ps.take(i + 1), c) == children_of_raw(ps.take(i), c) + seq![
            tree_of_raw(ps[i], c + children_buf_count(ps.take(i))),
        ],
        children_fds_ok(ps.take(i + 1)) == (children_fds_ok(ps.take(i)) && tree_fds_ok(ps[i])),
    decreases i,
{
    let pre = ps.take(i + 1);
    if i == 0 {
        assert(pre.skip(1) =~= ps.take(0));
        assert(children_buf_count(ps.take(0)) == 0);
        assert(children_of_raw(ps.take(0), c) =~= Seq::<ProcessV>::empty());
        let d0 = tree_buf_count(ps[0]);
        assert(children_of_raw(ps.take(0), c + d0) =~= Seq::<ProcessV>::empty());
        assert(pre[0] == ps[0]);
        assert(children_fds_ok(ps.take(0)));
        assert(children_of_raw(pre, c) =~= children_of_raw(ps.take(0), c) + seq![
            tree_of_raw(ps[0], c),
        ]);
    } else {
        let d = tree_buf_count(ps[0]);
        lemma_children_of_raw_snoc(ps.skip(1), i - 1, c + d);
        assert(pre.skip(1) =~= ps.skip(1).take(i));
        assert(ps.take(i).skip(1) =~= ps.skip(1).take(i - 1));
        assert(ps.skip(1)[i - 1] == ps[i]);
        assert(children_of_raw(ps.take(i + 1), c) =~= children_of_raw(ps.take(i), c) + seq![
            tree_of_raw(ps[i], c + children_buf_count(ps.take(i))),
        ]);
    }
}

pub proof fn lemma_threads_buf_count_nonneg(ts: Seq<RawThread>)
    ensures
        0 <= threads_buf_count(ts),
    decreases ts, 1int,
{
    if ts.len() > 0 {
        lemma_children_buf_count_nonneg(ts[0].children@);
        lemma_threads_buf_count_nonneg(ts.skip(1));
    }
}

pub proof fn lemma_children_buf_count_nonneg(ps: Seq<RawProcess>)
    ensures
        0 <= children_buf_count(ps),
    decreases ps, 2int,
{
    if ps.len() > 0 {
        lemma_tree_buf_count_nonneg(ps[0]);
        lemma_children_buf_count_nonneg(ps.skip(1));
    }
}

pub proof fn lemma_tree_buf_count_nonneg(p: RawProcess)
    ensures
        0 <= tree_buf_count(p),
    decreases p, 0int,
{
    lemma_raw_buf_count_nonneg(p.mmaps@);
    lemma_threads_buf_count_nonneg(p.threads@);
}

// ---------------------------------------------------------------------------
// The builders
// ---------------------------------------------------------------------------

/// Raw mapping lines must satisfy `start <= end`, as the kernel's table
/// does, throughout the subtree.
pub open spec fn tree_maps_le(p: RawProcess) -> bool
    decreases p, 0int,
{
    (forall|i: int| 0 <= i < p.mmaps@.len() ==> (#[trigger] p.mmaps@[i]).start <= p.mmaps@[i].end)
        && threads_maps_le(p.threads@)
}

pub open spec fn threads_maps_le(ts: Seq<RawThread>) -> bool
    decreases ts, 1int,
{
    if ts.len() == 0 {
        true
    } else {
        children_maps_le(ts[0].children@) && threads_maps_le(ts.skip(1))
    }
}

pub open spec fn children_maps_le(ps: Seq<RawProcess>) -> bool
    decreases ps, 2int,
{
    if ps.len() == 0 {
        true
    } else {
        tree_maps_le(ps[0]) && children_maps_le(ps.skip(1))
    }
}

pub proof fn lemma_children_maps_le_build_step(ps: Seq<RawProcess>, n: int)
    requires
        1 <= n <= ps.len(),
        children_maps_le(ps.take(n - 1)),
        tree_maps_le(ps[n - 1]),
    ensures
        children_maps_le(ps.take(n)),
    decreases n,
{
    if n == 1 {
        let pre = ps.take(1);
        assert(pre.skip(1) =~= ps.take(0));
    } else {
        assert(ps.take(n - 1).skip(1) =~= ps.skip(1).take(n - 2));
        assert(ps.take(n).skip(1) =~= ps.skip(1).take(n - 1));
        assert(ps.skip(1)[n - 2] == ps[n - 1]);
        lemma_children_maps_le_build_step(ps.skip(1), n - 1);
        assert(children_maps_le(ps.take(n)));
    }
}

pub proof fn lemma_threads_maps_le_index(ts: Seq<RawThread>, i: int)
    requires
        0 <= i < ts.len(),
        threads_maps_le(ts),
    ensures
        children_maps_le(ts[i].children@),
    decreases i,
{
    if i > 0 {
        lemma_threads_maps_le_index(ts.skip(1), i - 1);
        assert(ts.skip(1)[i - 1] == ts[i]);
    }
}

/// Check, executably, that every mapping line in the subtree satisfies
/// `start <= end` — the shape the kernel's table always has, and the
/// builders' precondition.
#[verifier::loop_isolation(false)]
#[verifier::rlimit(100)]
pub fn tree_maps_le_check(p: &RawProcess) -> (r: bool)
    ensures
        r == tree_maps_le(*p),
    decreases *p, 0int,
{
    let mut i: usize = 0;
    while i < p.mmaps.len()
        invariant
            i <= p.mmaps@.len(),
            forall|k: int| 0 <= k < i ==> (#[trigger] p.mmaps@[k]).start <= p.mmaps@[k].end,
        decreases p.mmaps@.len() - i,
    {
        if p.mmaps[i].start > p.mmaps[i].end {
            return false;
        }
        i = i + 1;
    }
    assert(threads_maps_le(p.threads@.take(0)));
    let mut t: usize = 0;
    while t < p.threads.len()
        invariant
            t <= p.threads@.len(),
            forall|k: int| 0 <= k < p.mmaps@.len() ==> (#[trigger] p.mmaps@[k]).start
                <= p.mmaps@[k].end,
            threads_maps_le(p.threads@.take(t as int)),
        decreases p.threads@.len() - t,
    {
        let th = &p.threads[t];
        proof {
            assert(decreases_to!(*p => p.threads));
            assert(decreases_to!(p.threads => p.threads@[t as int]));
        }
        assert(children_maps_le(th.children@.take(0)));
        let mut q: usize = 0;
        while q < th.children.len()
            invariant
                q <= th.children@.len(),
                children_maps_le(th.children@.take(q as int)),
            decreases th.children@.len() - q,
        {
            let ch = &th.children[q];
            proof {
                assert(decreases_to!(*th => th.children));
                assert(decreases_to!(th.children => th.children@[q as int]));
            }
            if !tree_maps_le_check(ch) {
                proof {
                    if children_maps_le(th.children@) {
                        lemma_children_maps_le_index(th.children@, q as int);
                    }
                    if threads_maps_le(p.threads@) {
                        lemma_threads_maps_le_index(p.threads@, t as int);
                    }
                }
                return false;
            }
            proof {
                lemma_children_maps_le_build_step(th.children@, q as int + 1);
            }
            q = q + 1;
        }
        assert(th.children@.take(th.children@.len() as int) =~= th.children@);
        proof {
            lemma_threads_maps_le_build_step(p.threads@, t as int + 1);
        }
        t = t + 1;
    }
    assert(p.threads@.take(p.threads@.len() as int) =~= p.threads@);
    true
}

/// Count the buffer ids a subtree will consume, refusing a tree that
/// would exhaust the 32-bit id space.
#[verifier::loop_isolation(false)]
#[verifier::rlimit(100)]
fn add_tree_count(p: &RawProcess, acc: &mut u64) -> (ok: bool)
    requires
        *old(acc) <= u32::MAX,
    ensures
        ok ==> *final(acc) == *old(acc) + tree_buf_count(*p) && *final(acc) <= u32::MAX,
        !ok ==> *old(acc) + tree_buf_count(*p) > u32::MAX,
    decreases *p, 0int,
{
    let ghost a0 = *acc as int;
    proof {
        lemma_raw_buf_count_nonneg(p.mmaps@);
        lemma_threads_buf_count_nonneg(p.threads@);
    }
    let mut i: usize = 0;
    while i < p.mmaps.len()
        invariant
            i <= p.mmaps@.len(),
            0 <= raw_buf_count(p.mmaps@.take(i as int)),
            *acc == a0 + raw_buf_count(p.mmaps@.take(i as int)),
            *acc <= u32::MAX,
        decreases p.mmaps@.len() - i,
    {
        proof {
            lemma_mmaps_of_raw_snoc(p.mmaps@, i as int, 0);
            lemma_raw_buf_count_nonneg(p.mmaps@.take(i as int + 1));
            lemma_raw_buf_count_split(p.mmaps@, i as int + 1);
            lemma_raw_buf_count_nonneg(p.mmaps@.skip(i as int + 1));
        }
        if !p.mmaps[i].is_vvar {
            if *acc == u32::MAX as u64 {
                proof {
                    assert(raw_buf_count(p.mmaps@) >= raw_buf_count(p.mmaps@.take(i as int))
                        + 1);
                }
                return false;
            }
            *acc = *acc + 1;
        }
        i = i + 1;
    }
    assert(p.mmaps@.take(p.mmaps@.len() as int) =~= p.mmaps@);

    let ghost am = *acc as int;
    proof {
        assert(p.threads@.skip(0) =~= p.threads@);
        assert(threads_buf_count(p.threads@.take(0)) == 0);
    }
    let mut t: usize = 0;
    while t < p.threads.len()
        invariant
            t <= p.threads@.len(),
            am == a0 + raw_buf_count(p.mmaps@),
            0 <= threads_buf_count(p.threads@.take(t as int)),
            threads_buf_count(p.threads@.take(t as int)) + threads_buf_count(
                p.threads@.skip(t as int),
            ) == threads_buf_count(p.threads@),
            *acc == am + threads_buf_count(p.threads@.take(t as int)),
            *acc <= u32::MAX,
        decreases p.threads@.len() - t,
    {
        let th = &p.threads[t];
        proof {
            assert(decreases_to!(*p => p.threads));
            assert(decreases_to!(p.threads => p.threads@[t as int]));
            lemma_threads_of_raw_snoc(p.threads@, t as int, 0);
            lemma_rest_step(p.threads@, t as int);
            lemma_children_buf_count_nonneg(th.children@);
            lemma_rest_nonneg(p.threads@, t as int + 1);
        }
        let ghost ac = *acc as int;
        proof {
            assert(th.children@.skip(0) =~= th.children@);
            assert(children_buf_count(th.children@.take(0)) == 0);
        }
        let mut q: usize = 0;
        while q < th.children.len()
            invariant
                q <= th.children@.len(),
                0 <= children_buf_count(th.children@.take(q as int)),
                children_buf_count(th.children@.take(q as int)) + children_buf_count(
                    th.children@.skip(q as int),
                ) == children_buf_count(th.children@),
                *acc == ac + children_buf_count(th.children@.take(q as int)),
                *acc <= u32::MAX,
            decreases th.children@.len() - q,
        {
            let ch = &th.children[q];
            proof {
                assert(decreases_to!(*th => th.children));
                assert(decreases_to!(th.children => th.children@[q as int]));
                lemma_children_of_raw_snoc(th.children@, q as int, 0);
                lemma_children_rest_step(th.children@, q as int);
                lemma_tree_buf_count_nonneg(*ch);
                lemma_children_rest_nonneg(th.children@, q as int + 1);
            }
            if !add_tree_count(ch, acc) {
                return false;
            }
            q = q + 1;
        }
        assert(th.children@.take(th.children@.len() as int) =~= th.children@);
        t = t + 1;
    }
    assert(p.threads@.take(p.threads@.len() as int) =~= p.threads@);
    true
}

/// Whether a subtree's buffer ids fit the 32-bit id space, so that a
/// capture starting from counter zero cannot exhaust it.
pub fn tree_count_fits(p: &RawProcess) -> (r: bool)
    ensures
        r == (tree_buf_count(*p) <= u32::MAX),
{
    proof {
        lemma_tree_buf_count_nonneg(*p);
    }
    let mut acc: u64 = 0;
    add_tree_count(p, &mut acc)
}

/// Build the snapshot record of one process and all processes below it,
/// assigning buffer ids from the running counter. Fails with
/// `CaptureUnsupported` exactly when some descriptor in the subtree is of
/// an unsupported kind.
#[verifier::loop_isolation(false)]
#[verifier::rlimit(100)]
pub fn parse_proc_recursive(raw: &RawProcess, counter: &mut u32) -> (r: Result<Process, Error>)
    requires
        *old(counter) + tree_buf_count(*raw) <= u32::MAX,
        tree_maps_le(*raw),
    ensures
        match r {
            Ok(p) => tree_fds_ok(*raw) && p.dv() == tree_of_raw(*raw, *old(counter) as int)
                && *final(counter) == *old(counter) + tree_buf_count(*raw),
            Err(e) => e == Error::CaptureUnsupported && !tree_fds_ok(*raw),
        },
    decreases *raw, 0int,
{
    let ghost c0 = *counter as int;
    proof {
        lemma_raw_buf_count_nonneg(raw.mmaps@);
        lemma_threads_buf_count_nonneg(raw.threads@);
    }

    let mut mmaps: Vec<MemoryMapping> = Vec::new();
    let mut i: usize = 0;
    while i < raw.mmaps.len()
        invariant
            i <= raw.mmaps.len(),
            0 <= raw_buf_count(raw.mmaps@.take(i as int)) <= raw_buf_count(raw.mmaps@),
            *counter == c0 + raw_buf_count(raw.mmaps@.take(i as int)),
            dv_mmaps(mmaps@) == mmaps_of_raw(raw.mmaps@.take(i as int), c0),
        decreases raw.mmaps.len() - i,
    {
        let m = &raw.mmaps[i];
        proof {
            lemma_mmaps_of_raw_snoc(raw.mmaps@, i as int, c0);
            lemma_raw_buf_count_nonneg(raw.mmaps@.take(i as int + 1));
            assert(raw.mmaps@.take(raw.mmaps@.len() as int) =~= raw.mmaps@);
            lemma_raw_buf_count_prefix(raw.mmaps@, i as int + 1);
        }
        let ghost before = mmaps@;
        let data = if m.is_vvar {
            MemoryMappingData::KernelVvar
        } else {
            let id = *counter;
            *counter = *counter + 1;
            MemoryMappingData::Buffer(id)
        };
        let mm = MemoryMapping { address: m.start, len: m.end - m.start, perm: m.perm, data };
        mmaps.push(mm);
        proof {
            lemma_dv_mmaps_snoc(before, mm);
            assert(mm.dv() == mmap_of_raw(raw.mmaps@[i as int], c0 + raw_buf_count(
                raw.mmaps@.take(i as int),
            )));
        }
        i = i + 1;
    }
    assert(raw.mmaps@.take(raw.mmaps@.len() as int) =~= raw.mmaps@);

    let mut fd_table: Vec<Fd> = Vec::new();
    let mut j: usize = 0;
    while j < raw.fds.len()
        invariant
            j <= raw.fds.len(),
            *counter == c0 + raw_buf_count(raw.mmaps@),
            dv_mmaps(mmaps@) == mmaps_of_raw(raw.mmaps@, c0),
            forall|k: int| 0 <= k < j ==> classify_fd_spec(#[trigger] raw.fds@[k]) is Some,
            dv_fds(fd_table@) == fds_of_raw(raw.fds@.take(j as int)),
        decreases raw.fds.len() - j,
    {
        let ghost before = fd_table@;
        match classify_fd(&raw.fds[j]) {
            Ok(fd) => {
                fd_table.push(fd);
                proof {
                    lemma_dv_fds_snoc(before, fd);
                    lemma_fds_of_raw_snoc(raw.fds@, j as int);
                }
            },
            Err(e) => {
                return Err(e);
            },
        }
        j = j + 1;
    }
    assert(raw.fds@.take(raw.fds@.len() as int) =~= raw.fds@);

    let mut threads: Vec<Thread> = Vec::new();
    let ghost ct = *counter as int;
    proof {
        assert(raw.threads@.skip(0) =~= raw.threads@);
        assert(raw.threads@.take(0).len() == 0);
        assert(threads_buf_count(raw.threads@.take(0)) == 0);
        assert(threads_of_raw(raw.threads@.take(0), ct) =~= Seq::<ThreadV>::empty());
        assert(dv_threads(threads@) =~= Seq::<ThreadV>::empty());
    }
    let mut t: usize = 0;
    while t < raw.threads.len()
        invariant
            t <= raw.threads.len(),
            ct == c0 + raw_buf_count(raw.mmaps@),
            *counter == ct + threads_buf_count(raw.threads@.take(t as int)),
            0 <= threads_buf_count(raw.threads@.take(t as int)),
            threads_buf_count(raw.threads@.take(t as int)) + children_buf_count_rest(
                raw.threads@,
                t as int,
            ) == threads_buf_count(raw.threads@),
            threads_fds_ok(raw.threads@.take(t as int)),
            threads_maps_le(raw.threads@.take(t as int)),
            dv_threads(threads@) == threads_of_raw(raw.threads@.take(t as int), ct),
        decreases raw.threads.len() - t,
    {
        let th = &raw.threads[t];
        proof {
            assert(decreases_to!(*raw => raw.threads));
            assert(decreases_to!(raw.threads => raw.threads@[t as int]));
            lemma_threads_of_raw_snoc(raw.threads@, t as int, ct);
            lemma_rest_step(raw.threads@, t as int);
            lemma_children_buf_count_nonneg(th.children@);
            lemma_rest_nonneg(raw.threads@, t as int + 1);
            lemma_threads_maps_le_snoc(raw.threads@, t as int);
        }
        let mut children: Vec<Process> = Vec::new();
        let ghost cc = *counter as int;
        proof {
            assert(th.children@.skip(0) =~= th.children@);
            assert(th.children@.take(0).len() == 0);
            assert(children_buf_count(th.children@.take(0)) == 0);
            assert(children_of_raw(th.children@.take(0), cc) =~= Seq::<ProcessV>::empty());
            assert(dv_processes(children@) =~= Seq::<ProcessV>::empty());
        }
        let mut q: usize = 0;
        while q < th.children.len()
            invariant
                q <= th.children.len(),
                *counter == cc + children_buf_count(th.children@.take(q as int)),
                0 <= children_buf_count(th.children@.take(q as int)),
                children_buf_count(th.children@.take(q as int)) + children_rest(
                    th.children@,
                    q as int,
                ) == children_buf_count(th.children@),
                children_fds_ok(th.children@.take(q as int)),
                dv_processes(children@) == children_of_raw(th.children@.take(q as int), cc),
            decreases th.children.len() - q,
        {
            let ch = &th.children[q];
            proof {
                assert(decreases_to!(*th => th.children));
                assert(decreases_to!(th.children => th.children@[q as int]));
                lemma_children_of_raw_snoc(th.children@, q as int, cc);
                lemma_children_rest_step(th.children@, q as int);
                lemma_tree_buf_count_nonneg(*ch);
                lemma_children_rest_nonneg(th.children@, q as int + 1);
                lemma_children_maps_le_index(th.children@, q as int);
            }
            let ghost before = children@;
            match parse_proc_recursive(ch, counter) {
                Ok(p) => {
                    children.push(p);
                    proof {
                        lemma_dv_processes_snoc(before, p);
                    }
                },
                Err(e) => {
                    proof {
                        lemma_children_fds_ok_index(th.children@, q as int);
                        lemma_threads_fds_ok_index(raw.threads@, t as int);
                    }
                    return Err(e);
                },
            }
            q = q + 1;
        }
        assert(th.children@.take(th.children@.len() as int) =~= th.children@);
        let mut reg: Vec<u8> = Vec::new();
        let mut b: usize = 0;
        while b < th.reg.len()
            invariant
                b <= th.reg.len(),
                reg@ == th.reg@.take(b as int),
            decreases th.reg.len() - b,
        {
            reg.push(th.reg[b]);
            assert(reg@ =~= th.reg@.take(b as int + 1));
            b = b + 1;
        }
        assert(reg@ =~= th.reg@);
        let ghost beforet = threads@;
        let tt = Thread { tid: th.tid, uid: th.uid, gid: th.gid, reg, children };
        threads.push(tt);
        proof {
            lemma_dv_threads_snoc(beforet, tt);
        }
        t = t + 1;
    }
    assert(raw.threads@.take(raw.threads@.len() as int) =~= raw.threads@);

    Ok(Process { pid: raw.pid, mmaps, fd_table, threads })
}

/// Buffer ids still to be consumed after the first `i` threads.
pub open spec fn children_buf_count_rest(ts: Seq<RawThread>, i: int) -> int {
    threads_buf_count(ts.skip(i))
}

pub open spec fn children_rest(ps: Seq<RawProcess>, i: int) -> int {
    children_buf_count(ps.skip(i))
}

pub proof fn lemma_raw_buf_count_prefix(ms: Seq<RawMapping>, i: int)
    requires
        0 <= i <= ms.len(),
    ensures
        raw_buf_count(ms.take(i)) <= raw_buf_count(ms),
    decreases i,
{
    lemma_raw_buf_count_split(ms, i);
    lemma_raw_buf_count_nonneg(ms.skip(i));
}

pub proof fn lemma_raw_buf_count_split(ms: Seq<RawMapping>, i: int)
    requires
        0 <= i <= ms.len(),
    ensures
        raw_buf_count(ms.take(i)) + raw_buf_count(ms.skip(i)) == raw_buf_count(ms),
    decreases i,
{
    if i == 0 {
        assert(ms.take(0) =~= Seq::<RawMapping>::empty());
        assert(ms.skip(0) =~= ms);
    } else {
        lemma_mmaps_of_raw_snoc(ms, i - 1, 0);
        lemma_raw_buf_count_split(ms, i - 1);
        assert(ms.skip(i - 1) =~= seq![ms[i - 1]] + ms.skip(i));
        assert(ms.skip(i - 1).skip(1) =~= ms.skip(i));
        assert(raw_buf_count(ms.skip(i - 1)) == (if ms[i - 1].is_vvar {
            0int
        } else {
            1int
        }) + raw_buf_count(ms.skip(i)));
    }
}

pub proof fn lemma_rest_step(ts: Seq<RawThread>, i: int)
    requires
        0 <= i < ts.len(),
    ensures
        threads_buf_count(ts.skip(i)) == children_buf_count(ts[i].children@) + threads_buf_count(
            ts.skip(i + 1),
        ),
{
    assert(ts.skip(i)[0] == ts[i]);
    assert(ts.skip(i).skip(1) =~= ts.skip(i + 1));
}

pub proof fn lemma_rest_nonneg(ts: Seq<RawThread>, i: int)
    requires
        0 <= i <= ts.len(),
    ensures
        0 <= threads_buf_count(ts.skip(i)),
{
    lemma_threads_buf_count_nonneg(ts.skip(i));
}

pub proof fn lemma_children_rest_step(ps: Seq<RawProcess>, i: int)
    requires
        0 <= i < ps.len(),
    ensures
        children_buf_count(ps.skip(i)) == tree_buf_count(ps[i]) + children_buf_count(
            ps.skip(i + 1),
        ),
{
    assert(ps.skip(i)[0] == ps[i]);
    assert(ps.skip(i).skip(1) =~= ps.skip(i + 1));
}

pub proof fn lemma_children_rest_nonneg(ps: Seq<RawProcess>, i: int)
    requires
        0 <= i <= ps.len(),
    ensures
        0 <= children_buf_count(ps.skip(i)),
{
    lemma_children_buf_count_nonneg(ps.skip(i));
}

pub proof fn lemma_children_fds_ok_index(ps: Seq<RawProcess>, i: int)
    requires
        0 <= i < ps.len(),
        !tree_fds_ok(ps[i]),
    ensures
        !children_fds_ok(ps),
    decreases i,
{
    if i > 0 {
        if children_fds_ok(ps) {
            lemma_children_fds_ok_index(ps.skip(1), i - 1);
            assert(ps.skip(1)[i - 1] == ps[i]);
        }
    }
}

pub proof fn lemma_threads_fds_ok_index(ts: Seq<RawThread>, i: int)
    requires
        0 <= i < ts.len(),
        !children_fds_ok(ts[i].children@),
    ensures
        !threads_fds_ok(ts),
    decreases i,
{
    if i > 0 {
        if threads_fds_ok(ts) {
            lemma_threads_fds_ok_index(ts.skip(1), i - 1);
            assert(ts.skip(1)[i - 1] == ts[i]);
        }
    }
}

pub proof fn lemma_threads_maps_le_snoc(ts: Seq<RawThread>, i: int)
    requires
        0 <= i < ts.len(),
        threads_maps_le(ts),
    ensures
        threads_maps_le(ts.take(i + 1)),
        children_maps_le(ts[i].children@),
    decreases ts.len(),
{
    lemma_threads_maps_le_all(ts);
    lemma_threads_maps_le_build(ts, i + 1);
}

pub proof fn lemma_threads_maps_le_all(ts: Seq<RawThread>)
    requires
        threads_maps_le(ts),
    ensures
        forall|k: int| 0 <= k < ts.len() ==> children_maps_le(#[trigger] ts[k].children@),
    decreases ts.len(),
{
    if ts.len() > 0 {
        lemma_threads_maps_le_all(ts.skip(1));
        assert forall|k: int| 0 <= k < ts.len() implies children_maps_le(
            #[trigger] ts[k].children@,
        ) by {
            if k > 0 {
                assert(ts.skip(1)[k - 1] == ts[k]);
            }
        }
    }
}

pub proof fn lemma_threads_maps_le_build(ts: Seq<RawThread>, n: int)
    requires
        0 <= n <= ts.len(),
        forall|k: int| 0 <= k < ts.len() ==> children_maps_le(#[trigger] ts[k].children@),
    ensures
        threads_maps_le(ts.take(n)),
    decreases n,
{
    if n > 0 {
        lemma_threads_maps_le_build(ts, n - 1);
        let pre = ts.take(n);
        lemma_threads_maps_le_build_step(ts, n);
    }
}

pub proof fn lemma_threads_maps_le_build_step(ts: Seq<RawThread>, n: int)
    requires
        1 <= n <= ts.len(),
        threads_maps_le(ts.take(n - 1)),
        children_maps_le(ts[n - 1].children@),
    ensures
        threads_maps_le(ts.take(n)),
    decreases n,
{
    if n == 1 {
        let pre = ts.take(1);
        assert(pre.skip(1) =~= ts.take(0));
    } else {
        assert(ts.take(n - 1).skip(1) =~= ts.skip(1).take(n - 2));
        assert(ts.take(n).skip(1) =~= ts.skip(1).take(n - 1));
        assert(ts.skip(1)[n - 2] == ts[n - 1]);
        lemma_threads_maps_le_build_step(ts.skip(1), n - 1);
        assert(threads_maps_le(ts.take(n)));
    }
}

pub proof fn lemma_children_maps_le_index(ps: Seq<RawProcess>, i: int)
    requires
        0 <= i < ps.len(),
        children_maps_le(ps),
    ensures
        tree_maps_le(ps[i]),
    decreases i,
{
    if i > 0 {
        lemma_children_maps_le_index(ps.skip(1), i - 1);
        assert(ps.skip(1)[i - 1] == ps[i]);
    }
}

// ---------------------------------------------------------------------------
// Buffer-id uniqueness
// ---------------------------------------------------------------------------

/// The buffer ids of a mapping list, in order.
pub open spec fn buffer_ids_mmaps(ms: Seq<MmapV>) -> Seq<u32>
    decreases ms,
{
    if ms.len() == 0 {
        Seq::empty()
    } else {
        (match ms[0].data {
            MmapDataV::Buffer(id) => seq![id],
            _ => Seq::empty(),
        }) + buffer_ids_mmaps(ms.skip(1))
    }
}

/// The buffer ids of a whole snapshot subtree, in streaming order.
pub open spec fn buffer_ids_tree(p: ProcessV) -> Seq<u32>
    decreases p, 0int,
{
    buffer_ids_mmaps(p.mmaps) + buffer_ids_threads(p.threads)
}

pub open spec fn buffer_ids_threads(ts: Seq<ThreadV>) -> Seq<u32>
    decreases ts, 1int,
{
    if ts.len() == 0 {
        Seq::empty()
    } else {
        buffer_ids_children(ts[0].children) + buffer_ids_threads(ts.skip(1))
    }
}

pub open spec fn buffer_ids_children(ps: Seq<ProcessV>) -> Seq<u32>
    decreases ps, 2int,
{
    if ps.len() == 0 {
        Seq::empty()
    } else {
        buffer_ids_tree(ps[0]) + buffer_ids_children(ps.skip(1))
    }
}

pub proof fn lemma_ids_mmaps(ms: Seq<RawMapping>, c: int)
    requires
        0 <= c,
        c + raw_buf_count(ms) <= u32::MAX,
    ensures
        buffer_ids_mmaps(mmaps_of_raw(ms, c)).len() == raw_buf_count(ms),
        forall|k: int|
            0 <= k < raw_buf_count(ms) ==> buffer_ids_mmaps(mmaps_of_raw(ms, c))[k] == (c
                + k) as u32,
    decreases ms,
{
    lemma_raw_buf_count_nonneg(ms);
    if ms.len() > 0 {
        let d = if ms[0].is_vvar {
            0int
        } else {
            1int
        };
        lemma_raw_buf_count_nonneg(ms.skip(1));
        lemma_ids_mmaps(ms.skip(1), c + d);
        let built = mmaps_of_raw(ms, c);
        let rest = mmaps_of_raw(ms.skip(1), c + d);
        assert(built =~= seq![mmap_of_raw(ms[0], c)] + rest);
        assert(built.skip(1) =~= rest);
    }
}

pub proof fn lemma_ids_tree(p: RawProcess, c: int)
    requires
        0 <= c,
        c + tree_buf_count(p) <= u32::MAX,
    ensures
        buffer_ids_tree(tree_of_raw(p, c)).len() == tree_buf_count(p),
        forall|k: int|
            0 <= k < tree_buf_count(p) ==> buffer_ids_tree(tree_of_raw(p, c))[k] == (c + k) as u32,
    decreases p, 0int,
{
    lemma_raw_buf_count_nonneg(p.mmaps@);
    lemma_threads_buf_count_nonneg(p.threads@);
    lemma_ids_mmaps(p.mmaps@, c);
    lemma_ids_threads(p.threads@, c + raw_buf_count(p.mmaps@));
}

pub proof fn lemma_ids_threads(ts: Seq<RawThread>, c: int)
    requires
        0 <= c,
        c + threads_buf_count(ts) <= u32::MAX,
    ensures
        buffer_ids_threads(threads_of_raw(ts, c)).len() == threads_buf_count(ts),
        forall|k: int|
            0 <= k < threads_buf_count(ts) ==> buffer_ids_threads(threads_of_raw(ts, c))[k] == (c
                + k) as u32,
    decreases ts, 1int,
{
    lemma_threads_buf_count_nonneg(ts);
    if ts.len() > 0 {
        let d = children_buf_count(ts[0].children@);
        lemma_children_buf_count_nonneg(ts[0].children@);
        lemma_threads_buf_count_nonneg(ts.skip(1));
        lemma_ids_children(ts[0].children@, c);
        lemma_ids_threads(ts.skip(1), c + d);
        let built = threads_of_raw(ts, c);
        let rest = threads_of_raw(ts.skip(1), c + d);
        assert(built.skip(1) =~= rest);
    }
}

pub proof fn lemma_ids_children(ps: Seq<RawProcess>, c: int)
    requires
        0 <= c,
        c + children_buf_count(ps) <= u32::MAX,
    ensures
        buffer_ids_children(children_of_raw(ps, c)).len() == children_buf_count(ps),
        forall|k: int|
            0 <= k < children_buf_count(ps) ==> buffer_ids_children(children_of_raw(ps, c))[k]
                == (c + k) as u32,
    decreases ps, 2int,
{
    lemma_children_buf_count_nonneg(ps);
    if ps.len() > 0 {
        let d = tree_buf_count(ps[0]);
        lemma_tree_buf_count_nonneg(ps[0]);
        lemma_children_buf_count_nonneg(ps.skip(1));
        lemma_ids_tree(ps[0], c);
        lemma_ids_children(ps.skip(1), c + d);
        let built = children_of_raw(ps, c);
        let rest = children_of_raw(ps.skip(1), c + d);
        assert(built.skip(1) =~= rest);
    }
}

/// Buffer-id uniqueness: across one captured snapshot, no two mappings
/// share a buffer id — the monotonic counter hands each mapping the next
/// id, so the ids of the tree are consecutive and pairwise distinct.
pub proof fn lemma_buffer_id_uniqueness(p: RawProcess, c: int)
    requires
        0 <= c,
        c + tree_buf_count(p) <= u32::MAX,
    ensures
        forall|i: int, j: int|
            0 <= i < j < buffer_ids_tree(tree_of_raw(p, c)).len() ==> buffer_ids_tree(
                tree_of_raw(p, c),
            )[i] != buffer_ids_tree(tree_of_raw(p, c))[j],
{
    lemma_ids_tree(p, c);
}

// ---------------------------------------------------------------------------
// Mapping disjointness and page alignment
// ---------------------------------------------------------------------------

/// Mappings of one process: page-aligned in address and length, and
/// pairwise non-overlapping (in address order, each ends at or before the
/// next begins).
pub open spec fn mmaps_wf(ms: Seq<MmapV>, page: u64) -> bool {
    &&& (forall|i: int|
        0 <= i < ms.len() ==> (#[trigger] ms[i]).address % page == 0 && ms[i].len % page == 0
            && ms[i].address + ms[i].len <= u64::MAX)
    &&& (forall|i: int, j: int|
        0 <= i < j < ms.len() ==> (#[trigger] ms[i]).address + ms[i].len
            <= (#[trigger] ms[j]).address)
}

/// The same, as the kernel reports it.
pub open spec fn raw_maps_wf(ms: Seq<RawMapping>, page: u64) -> bool {
    &&& (forall|i: int|
        0 <= i < ms.len() ==> (#[trigger] ms[i]).start % page == 0 && ms[i].end % page == 0
            && ms[i].start <= ms[i].end)
    &&& (forall|i: int, j: int|
        0 <= i < j < ms.len() ==> (#[trigger] ms[i]).end <= (#[trigger] ms[j]).start)
}

pub open spec fn tree_raw_maps_wf(p: RawProcess, page: u64) -> bool
    decreases p, 0int,
{
    raw_maps_wf(p.mmaps@, page) && threads_raw_maps_wf(p.threads@, page)
}

pub open spec fn threads_raw_maps_wf(ts: Seq<RawThread>, page: u64) -> bool
    decreases ts, 1int,
{
    if ts.len() == 0 {
        true
    } else {
        children_raw_maps_wf(ts[0].children@, page) && threads_raw_maps_wf(ts.skip(1), page)
    }
}

pub open spec fn children_raw_maps_wf(ps: Seq<RawProcess>, page: u64) -> bool
    decreases ps, 2int,
{
    if ps.len() == 0 {
        true
    } else {
        tree_raw_maps_wf(ps[0], page) && children_raw_maps_wf(ps.skip(1), page)
    }
}

pub open spec fn tree_mmaps_wf(p: ProcessV, page: u64) -> bool
    decreases p, 0int,
{
    mmaps_wf(p.mmaps, page) && threads_mmaps_wf(p.threads, page)
}

pub open spec fn threads_mmaps_wf(ts: Seq<ThreadV>, page: u64) -> bool
    decreases ts, 1int,
{
    if ts.len() == 0 {
        true
    } else {
        children_mmaps_wf(ts[0].children, page) && threads_mmaps_wf(ts.skip(1), page)
    }
}

pub open spec fn children_mmaps_wf(ps: Seq<ProcessV>, page: u64) -> bool
    decreases ps, 2int,
{
    if ps.len() == 0 {
        true
    } else {
        tree_mmaps_wf(ps[0], page) && children_mmaps_wf(ps.skip(1), page)
    }
}

pub proof fn lemma_mmaps_of_raw_index(ms: Seq<RawMapping>, c: int)
    ensures
        mmaps_of_raw(ms, c).len() == ms.len(),
        forall|k: int|
            0 <= k < ms.len() ==> (#[trigger] mmaps_of_raw(ms, c)[k]).address == ms[k].start
                && mmaps_of_raw(ms, c)[k].len == (ms[k].end - ms[k].start) as u64,
    decreases ms,
{
    if ms.len() > 0 {
        let d = if ms[0].is_vvar {
            0int
        } else {
            1int
        };
        lemma_mmaps_of_raw_index(ms.skip(1), c + d);
        let built = mmaps_of_raw(ms, c);
        assert(built.skip(1) =~= mmaps_of_raw(ms.skip(1), c + d));
        assert forall|k: int| 0 <= k < ms.len() implies (#[trigger] built[k]).address
            == ms[k].start && built[k].len == (ms[k].end - ms[k].start) as u64 by {
            if k > 0 {
                assert(ms.skip(1)[k - 1] == ms[k]);
                assert(built[k] == mmaps_of_raw(ms.skip(1), c + d)[k - 1]);
            }
        }
    }
}

pub proof fn lemma_one_node_mmaps_wf(ms: Seq<RawMapping>, c: int, page: u64)
    requires
        raw_maps_wf(ms, page),
        page >= 1,
    ensures
        mmaps_wf(mmaps_of_raw(ms, c), page),
{
    lemma_mmaps_of_raw_index(ms, c);
    let built = mmaps_of_raw(ms, c);
    assert forall|i: int|
        0 <= i < built.len() implies (#[trigger] built[i]).address % page == 0 && built[i].len
        % page == 0 && built[i].address + built[i].len <= u64::MAX by {
        let s = ms[i].start as int;
        let e = ms[i].end as int;
        vstd::arithmetic::div_mod::lemma_mod_equivalence(e, s, page as int);
        assert((e - s) % (page as int) == 0);
    }
}

/// Mapping disjointness: a snapshot built from well-formed kernel mapping
/// tables has, in every captured process of the tree, page-aligned and
/// pairwise non-overlapping mappings.
pub proof fn lemma_capture_mapping_invariant(p: RawProcess, c: int, page: u64)
    requires
        tree_raw_maps_wf(p, page),
        page >= 1,
    ensures
        tree_mmaps_wf(tree_of_raw(p, c), page),
    decreases p, 0int,
{
    lemma_one_node_mmaps_wf(p.mmaps@, c, page);
    lemma_capture_threads_wf(p.threads@, c + raw_buf_count(p.mmaps@), page);
}

pub proof fn lemma_capture_threads_wf(ts: Seq<RawThread>, c: int, page: u64)
    requires
        threads_raw_maps_wf(ts, page),
        page >= 1,
    ensures
        threads_mmaps_wf(threads_of_raw(ts, c), page),
    decreases ts, 1int,
{
    if ts.len() > 0 {
        let d = children_buf_count(ts[0].children@);
        lemma_capture_children_wf(ts[0].children@, c, page);
        lemma_capture_threads_wf(ts.skip(1), c + d, page);
        let built = threads_of_raw(ts, c);
        assert(built.skip(1) =~= threads_of_raw(ts.skip(1), c + d));
        assert(built[0].children == children_of_raw(ts[0].children@, c));
    }
}

pub proof fn lemma_capture_children_wf(ps: Seq<RawProcess>, c: int, page: u64)
    requires
        children_raw_maps_wf(ps, page),
        page >= 1,
    ensures
        children_mmaps_wf(children_of_raw(ps, c), page),
    decreases ps, 2int,
{
    if ps.len() > 0 {
        let d = tree_buf_count(ps[0]);
        lemma_capture_mapping_invariant(ps[0], c, page);
        lemma_capture_children_wf(ps.skip(1), c + d, page);
        let built = children_of_raw(ps, c);
        assert(built.skip(1) =~= children_of_raw(ps.skip(1), c + d));
    }
}

// ---------------------------------------------------------------------------
// Freezing
// ---------------------------------------------------------------------------

/// Capture one workload tree: the snapshot payload holds exactly the
/// tree rooted at the stopped child.
pub fn freeze(raw: &RawProcess, counter: &mut u32) -> (r: Result<Vec<Process>, Error>)
    requires
        *old(counter) + tree_buf_count(*raw) <= u32::MAX,
        tree_maps_le(*raw),
    ensures
        match r {
            Ok(v) => tree_fds_ok(*raw) && v@.len() == 1 && v@[0].dv() == tree_of_raw(
                *raw,
                *old(counter) as int,
            ) && *final(counter) == *old(counter) + tree_buf_count(*raw),
            Err(e) => e == Error::CaptureUnsupported && !tree_fds_ok(*raw),
        },
{
    let root = parse_proc_recursive(raw, counter)?;
    let mut v: Vec<Process> = Vec::new();
    v.push(root);
    Ok(v)
}

/// A node of the pid tree the origin walks while stopping the workload.
#[derive(Debug, PartialEq)]
pub struct PidTree {
    pub pid: i32,
    pub children: Vec<PidTree>,
}

/// One action of the freeze schedule: deliver STOP to a pid, or collect
/// its (now quiescent) records.
#[derive(Debug, Clone, Copy, PartialEq, Eq, Structural)]
pub enum FreezeStep {
    Stop(i32),
    Collect(i32),
}

/// The schedule for one subtree: stop the root first, handle every child
/// subtree, and only then collect the root — so a process is stopped
/// before any of its tree is read, and collected after all its children.
pub open spec fn freeze_steps(t: PidTree) -> Seq<FreezeStep>
    decreases t, 0int,
{
    seq![FreezeStep::Stop(t.pid)] + freeze_steps_list(t.children@) + seq![
        FreezeStep::Collect(t.pid),
    ]
}

pub open spec fn freeze_steps_list(ts: Seq<PidTree>) -> Seq<FreezeStep>
    decreases ts, 1int,
{
    if ts.len() == 0 {
        Seq::empty()
    } else {
        freeze_steps(ts[0]) + freeze_steps_list(ts.skip(1))
    }
}

pub proof fn lemma_freeze_steps_list_snoc(ts: Seq<PidTree>, i: int)
    requires
        0 <= i < ts.len(),
    ensures
        freeze_steps_list(ts.take(i + 1)) == freeze_steps_list(ts.take(i)) + freeze_steps(ts[i]),
    decreases i,
{
    let pre = ts.take(i + 1);
    if i == 0 {
        assert(pre.skip(1) =~= ts.take(0));
        assert(freeze_steps_list(ts.take(0)) =~= Seq::<FreezeStep>::empty());
        assert(pre[0] == ts[0]);
        assert(freeze_steps_list(pre) =~= freeze_steps_list(ts.take(0)) + freeze_steps(ts[0]));
    } else {
        lemma_freeze_steps_list_snoc(ts.skip(1), i - 1);
        assert(pre.skip(1) =~= ts.skip(1).take(i));
        assert(ts.take(i).skip(1) =~= ts.skip(1).take(i - 1));
        assert(ts.skip(1)[i - 1] == ts[i]);
        assert(freeze_steps_list(ts.take(i + 1)) =~= freeze_steps_list(ts.take(i)) + freeze_steps(
            ts[i],
        ));
    }
}

/// Emit the freeze schedule for one subtree, in order, onto `steps`.
#[verifier::loop_isolation(false)]
pub fn freeze_proc_recursive(t: &PidTree, steps: &mut Vec<FreezeStep>)
    ensures
        final(steps)@ == old(steps)@ + freeze_steps(*t),
    decreases *t,
{
    steps.push(FreezeStep::Stop(t.pid));
    let ghost mid = steps@;
    let mut i: usize = 0;
    while i < t.children.len()
        invariant
            i <= t.children.len(),
            steps@ == mid + freeze_steps_list(t.children@.take(i as int)),
        decreases t.children.len() - i,
    {
        proof {
            assert(decreases_to!(*t => t.children));
            assert(decreases_to!(t.children => t.children@[i as int]));
        }
        freeze_proc_recursive(&t.children[i], steps);
        proof {
            lemma_freeze_steps_list_snoc(t.children@, i as int);
        }
        i = i + 1;
    }
    assert(t.children@.take(t.children@.len() as int) =~= t.children@);
    steps.push(FreezeStep::Collect(t.pid));
    assert(steps@ =~= old(steps)@ + freeze_steps(*t));
}

/// In a subtree's schedule, the root is stopped first and collected last:
/// every read of its records happens between the two.
pub proof fn lemma_freeze_order(t: PidTree)
    ensures
        freeze_steps(t).len() >= 2,
        freeze_steps(t)[0] == FreezeStep::Stop(t.pid),
        freeze_steps(t).last() == FreezeStep::Collect(t.pid),
{
}

/// One cross-process memory read must return exactly the mapping's length:
/// a partial read is rejected, never silently kept.
pub fn buffer_from_read(id: u32, expected_len: u64, data: Vec<u8>) -> (r: Result<
    crate::proto::Buffer,
    Error,
>)
    ensures
        match r {
            Ok(b) => data@.len() == expected_len && b.dv() == (crate::proto::BufferV {
                buffer: id,
                buf: data@,
            }),
            Err(e) => e == Error::MemoryRead && data@.len() != expected_len,
        },
{
    if data.len() as u64 == expected_len {
        Ok(crate::proto::Buffer::new(id, data))
    } else {
        Err(Error::MemoryRead)
    }
}

} // verus!
