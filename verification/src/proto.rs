//! Snapshot data model: the records that describe a captured process tree
//! and the messages that carry them over the wire.
//!
//! Each executable type has a ghost mirror (`...V`) over `Seq` and the fixed
//! integer widths, reached through the `dv` (deep view) functions; contracts
//! throughout the crate speak of those mirrors.

use vstd::prelude::*;

verus! {

broadcast use vstd::std_specs::vec::group_vec_axioms;

pub type BufferId = u32;

pub type FileId = u32;

/// One message of the escape session.
#[derive(Debug, PartialEq)]
pub enum EscapeeMessage {
    ProcessTrees(Vec<Process>),
    Buffer(Buffer),
    File(File),
    FileData(FileData),
    Done,
}

/// The contents of one anonymous memory mapping, sent out of band and tied
/// back to its mapping by the buffer id.
#[derive(Debug, Clone, PartialEq)]
pub struct Buffer {
    pub buffer: BufferId,
    pub buf: Vec<u8>,
}

/// Metadata of a path synced from the origin filesystem.
#[derive(Debug, Clone, PartialEq)]
pub struct File {
    pub id: FileId,
    pub uid: u32,
    pub gid: u32,
    pub mode: u32,
    pub path: Vec<u8>,
}

/// Content of a synced path, linked to its `File` record by id.
#[derive(Debug, Clone, PartialEq)]
pub struct FileData {
    pub id: FileId,
    pub data: Vec<u8>,
}

/// A captured process node: its mappings, descriptor table and threads.
/// Children forked by a thread hang off that thread, which makes the
/// process tree recursive.
#[derive(Debug, PartialEq)]
pub struct Process {
    pub pid: i32,
    pub mmaps: Vec<MemoryMapping>,
    pub fd_table: Vec<Fd>,
    pub threads: Vec<Thread>,
}

/// A captured thread; `reg` is the architecture-specific register file,
/// opaque to the transport.
#[derive(Debug, PartialEq)]
pub struct Thread {
    pub tid: i32,
    pub uid: u32,
    pub gid: u32,
    pub reg: Vec<u8>,
    pub children: Vec<Process>,
}

/// One memory mapping of a captured process.
#[derive(Debug, Clone, PartialEq)]
pub struct MemoryMapping {
    pub address: u64,
    pub len: u64,
    pub perm: i32,
    pub data: MemoryMappingData,
}

/// What backs a mapping: a transmitted buffer, a file, or a kernel region
/// that the destination kernel reinstates on its own.
#[derive(Debug, Clone, PartialEq)]
pub enum MemoryMappingData {
    Buffer(BufferId),
    File(MappedFile),
    KernelVvar,
}

#[derive(Debug, Clone, PartialEq)]
pub struct MappedFile {
    pub fd: i32,
    pub offset: u64,
}

/// One open descriptor of a captured process.
#[derive(Debug, Clone, PartialEq)]
pub struct Fd {
    pub fd: i32,
    pub mode: u32,
    pub ty: FdType,
}

#[derive(Debug, Clone, PartialEq)]
pub enum FdType {
    File(FdFile),
    Pipe(FdPipe),
    SocketUnix(FdSocketUnix),
    SocketIp(FdSocketIp),
}

/// A descriptor reopened at `file` and seeked to `position`. The path is
/// kept as raw bytes, as the kernel reports it.
#[derive(Debug, Clone, PartialEq)]
pub struct FdFile {
    pub file: Vec<u8>,
    pub position: u64,
}

/// Halves of one kernel pipe share a `pipe_id` (the pipe inode number).
#[derive(Debug, Clone, PartialEq)]
pub struct FdPipe {
    pub pipe_id: u64,
}

#[derive(Debug, Clone, PartialEq)]
pub enum FdSocketUnix {
    Bind(Vec<u8>),
    Connect(Vec<u8>),
}

#[derive(Debug, Clone, PartialEq)]
pub enum FdSocketIp {
    Bind(SockAddr),
    Connect(SockAddr),
}

/// An IP endpoint, held as plain values: a v4 address as one big-endian
/// word, a v6 address as two big-endian words.
#[derive(Debug, Clone, Copy, PartialEq)]
pub enum SockAddr {
    V4 { ip: u32, port: u16 },
    V6 { ip_hi: u64, ip_lo: u64, port: u16 },
}

// ---------------------------------------------------------------------------
// Ghost mirrors
// ---------------------------------------------------------------------------

pub ghost enum MsgV {
    ProcessTrees(Seq<ProcessV>),
    Buffer(BufferV),
    File(FileV),
    FileData(FileDataV),
    Done,
}

pub ghost struct BufferV {
    pub buffer: u32,
    pub buf: Seq<u8>,
}

pub ghost struct FileV {
    pub id: u32,
    pub uid: u32,
    pub gid: u32,
    pub mode: u32,
    pub path: Seq<u8>,
}

pub ghost struct FileDataV {
    pub id: u32,
    pub data: Seq<u8>,
}

pub ghost struct ProcessV {
    pub pid: i32,
    pub mmaps: Seq<MmapV>,
    pub fd_table: Seq<FdV>,
    pub threads: Seq<ThreadV>,
}

pub ghost struct ThreadV {
    pub tid: i32,
    pub uid: u32,
    pub gid: u32,
    pub reg: Seq<u8>,
    pub children: Seq<ProcessV>,
}

pub ghost struct MmapV {
    pub address: u64,
    pub len: u64,
    pub perm: i32,
    pub data: MmapDataV,
}

pub ghost enum MmapDataV {
    Buffer(u32),
    File(MappedFileV),
    KernelVvar,
}

pub ghost struct MappedFileV {
    pub fd: i32,
    pub offset: u64,
}

pub ghost struct FdV {
    pub fd: i32,
    pub mode: u32,
    pub ty: FdTypeV,
}

pub ghost enum FdTypeV {
    File(FdFileV),
    Pipe(FdPipeV),
    SocketUnix(SockUnixV),
    SocketIp(SockIpV),
}

pub ghost struct FdFileV {
    pub file: Seq<u8>,
    pub position: u64,
}

pub ghost struct FdPipeV {
    pub pipe_id: u64,
}

pub ghost enum SockUnixV {
    Bind(Seq<u8>),
    Connect(Seq<u8>),
}

pub ghost enum SockIpV {
    Bind(SockAddrV),
    Connect(SockAddrV),
}

pub ghost enum SockAddrV {
    V4 { ip: u32, port: u16 },
    V6 { ip_hi: u64, ip_lo: u64, port: u16 },
}

// ---------------------------------------------------------------------------
// Deep views
// ---------------------------------------------------------------------------

impl SockAddr {
    pub open spec fn dv(&self) -> SockAddrV {
        match *self {
            SockAddr::V4 { ip, port } => SockAddrV::V4 { ip, port },
            SockAddr::V6 { ip_hi, ip_lo, port } => SockAddrV::V6 { ip_hi, ip_lo, port },
        }
    }
}

impl FdSocketIp {
    pub open spec fn dv(&self) -> SockIpV {
        match self {
            FdSocketIp::Bind(a) => SockIpV::Bind(a.dv()),
            FdSocketIp::Connect(a) => SockIpV::Connect(a.dv()),
        }
    }
}

impl FdSocketUnix {
    pub open spec fn dv(&self) -> SockUnixV {
        match self {
            FdSocketUnix::Bind(p) => SockUnixV::Bind(p@),
            FdSocketUnix::Connect(p) => SockUnixV::Connect(p@),
        }
    }
}

impl FdPipe {
    pub open spec fn dv(&self) -> FdPipeV {
        FdPipeV { pipe_id: self.pipe_id }
    }
}

impl FdFile {
    pub open spec fn dv(&self) -> FdFileV {
        FdFileV { file: self.file@, position: self.position }
    }
}

impl FdType {
    pub open spec fn dv(&self) -> FdTypeV {
        match self {
            FdType::File(f) => FdTypeV::File(f.dv()),
            FdType::Pipe(p) => FdTypeV::Pipe(p.dv()),
            FdType::SocketUnix(s) => FdTypeV::SocketUnix(s.dv()),
            FdType::SocketIp(s) => FdTypeV::SocketIp(s.dv()),
        }
    }
}

impl Fd {
    pub open spec fn dv(&self) -> FdV {
        FdV { fd: self.fd, mode: self.mode, ty: self.ty.dv() }
    }
}

impl MappedFile {
    pub open spec fn dv(&self) -> MappedFileV {
        MappedFileV { fd: self.fd, offset: self.offset }
    }
}

impl MemoryMappingData {
    pub open spec fn dv(&self) -> MmapDataV {
        match self {
            MemoryMappingData::Buffer(id) => MmapDataV::Buffer(*id),
            MemoryMappingData::File(f) => MmapDataV::File(f.dv()),
            MemoryMappingData::KernelVvar => MmapDataV::KernelVvar,
        }
    }
}

impl MemoryMapping {
    pub open spec fn dv(&self) -> MmapV {
        MmapV { address: self.address, len: self.len, perm: self.perm, data: self.data.dv() }
    }
}

impl File {
    pub open spec fn dv(&self) -> FileV {
        FileV { id: self.id, uid: self.uid, gid: self.gid, mode: self.mode, path: self.path@ }
    }
}

impl FileData {
    pub open spec fn dv(&self) -> FileDataV {
        FileDataV { id: self.id, data: self.data@ }
    }
}

impl Buffer {
    pub open spec fn dv(&self) -> BufferV {
        BufferV { buffer: self.buffer, buf: self.buf@ }
    }
}

pub open spec fn dv_mmaps(s: Seq<MemoryMapping>) -> Seq<MmapV>
    decreases s,
{
    if s.len() == 0 {
        Seq::empty()
    } else {
        seq![s[0].dv()] + dv_mmaps(s.skip(1))
    }
}

pub open spec fn dv_fds(s: Seq<Fd>) -> Seq<FdV>
    decreases s,
{
    if s.len() == 0 {
        Seq::empty()
    } else {
        seq![s[0].dv()] + dv_fds(s.skip(1))
    }
}

impl Process {
    pub open spec fn dv(&self) -> ProcessV
        decreases self,
    {
        ProcessV {
            pid: self.pid,
            mmaps: dv_mmaps(self.mmaps@),
            fd_table: dv_fds(self.fd_table@),
            threads: dv_threads(self.threads@),
        }
    }
}

impl Thread {
    pub open spec fn dv(&self) -> ThreadV
        decreases self,
    {
        ThreadV {
            tid: self.tid,
            uid: self.uid,
            gid: self.gid,
            reg: self.reg@,
            children: dv_processes(self.children@),
        }
    }
}

pub open spec fn dv_threads(s: Seq<Thread>) -> Seq<ThreadV>
    decreases s,
{
    if s.len() == 0 {
        Seq::empty()
    } else {
        seq![s[0].dv()] + dv_threads(s.skip(1))
    }
}

pub open spec fn dv_processes(s: Seq<Process>) -> Seq<ProcessV>
    decreases s,
{
    if s.len() == 0 {
        Seq::empty()
    } else {
        seq![s[0].dv()] + dv_processes(s.skip(1))
    }
}

impl EscapeeMessage {
    pub open spec fn dv(&self) -> MsgV {
        match self {
            EscapeeMessage::ProcessTrees(ps) => MsgV::ProcessTrees(dv_processes(ps@)),
            EscapeeMessage::Buffer(b) => MsgV::Buffer(b.dv()),
            EscapeeMessage::File(f) => MsgV::File(f.dv()),
            EscapeeMessage::FileData(d) => MsgV::FileData(d.dv()),
            EscapeeMessage::Done => MsgV::Done,
        }
    }
}

pub proof fn lemma_dv_mmaps(s: Seq<MemoryMapping>)
    ensures
        dv_mmaps(s).len() == s.len(),
        forall|i: int| 0 <= i < s.len() ==> dv_mmaps(s)[i] == #[trigger] s[i].dv(),
    decreases s.len(),
{
    if s.len() > 0 {
        lemma_dv_mmaps(s.skip(1));
        assert forall|i: int| 0 <= i < s.len() implies dv_mmaps(s)[i] == #[trigger] s[i].dv() by {
            if i > 0 {
                assert(s.skip(1)[i - 1] == s[i]);
                assert(dv_mmaps(s)[i] == dv_mmaps(s.skip(1))[i - 1]);
            }
        }
    }
}

pub proof fn lemma_dv_fds(s: Seq<Fd>)
    ensures
        dv_fds(s).len() == s.len(),
        forall|i: int| 0 <= i < s.len() ==> dv_fds(s)[i] == #[trigger] s[i].dv(),
    decreases s.len(),
{
    if s.len() > 0 {
        lemma_dv_fds(s.skip(1));
        assert forall|i: int| 0 <= i < s.len() implies dv_fds(s)[i] == #[trigger] s[i].dv() by {
            if i > 0 {
                assert(s.skip(1)[i - 1] == s[i]);
                assert(dv_fds(s)[i] == dv_fds(s.skip(1))[i - 1]);
            }
        }
    }
}

pub proof fn lemma_dv_threads(s: Seq<Thread>)
    ensures
        dv_threads(s).len() == s.len(),
        forall|i: int| 0 <= i < s.len() ==> dv_threads(s)[i] == #[trigger] s[i].dv(),
    decreases s.len(),
{
    if s.len() > 0 {
        lemma_dv_threads(s.skip(1));
        assert forall|i: int| 0 <= i < s.len() implies dv_threads(s)[i] == #[trigger] s[i].dv() by {
            if i > 0 {
                assert(s.skip(1)[i - 1] == s[i]);
                assert(dv_threads(s)[i] == dv_threads(s.skip(1))[i - 1]);
            }
        }
    }
}

pub proof fn lemma_dv_processes(s: Seq<Process>)
    ensures
        dv_processes(s).len() == s.len(),
        forall|i: int| 0 <= i < s.len() ==> dv_processes(s)[i] == #[trigger] s[i].dv(),
    decreases s.len(),
{
    if s.len() > 0 {
        lemma_dv_processes(s.skip(1));
        assert forall|i: int| 0 <= i < s.len() implies dv_processes(s)[i] == #[trigger] s[i].dv()
        by {
            if i > 0 {
                assert(s.skip(1)[i - 1] == s[i]);
                assert(dv_processes(s)[i] == dv_processes(s.skip(1))[i - 1]);
            }
        }
    }
}


pub proof fn lemma_dv_mmaps_snoc(s: Seq<MemoryMapping>, m: MemoryMapping)
    ensures
        dv_mmaps(s.push(m)) == dv_mmaps(s) + seq![m.dv()],
{
    lemma_dv_mmaps(s);
    lemma_dv_mmaps(s.push(m));
    assert forall|j: int| 0 <= j < s.push(m).len() implies dv_mmaps(s.push(m))[j] == (dv_mmaps(s)
        + seq![m.dv()])[j] by {
        if j < s.len() {
            assert(s.push(m)[j] == s[j]);
            assert(dv_mmaps(s.push(m))[j] == s.push(m)[j].dv());
            assert(dv_mmaps(s)[j] == s[j].dv());
        } else {
            assert(s.push(m)[j] == m);
            assert(dv_mmaps(s.push(m))[j] == s.push(m)[j].dv());
        }
    }
    assert(dv_mmaps(s.push(m)) =~= dv_mmaps(s) + seq![m.dv()]);
}

pub proof fn lemma_dv_fds_snoc(s: Seq<Fd>, f: Fd)
    ensures
        dv_fds(s.push(f)) == dv_fds(s) + seq![f.dv()],
{
    lemma_dv_fds(s);
    lemma_dv_fds(s.push(f));
    assert forall|j: int| 0 <= j < s.push(f).len() implies dv_fds(s.push(f))[j] == (dv_fds(s)
        + seq![f.dv()])[j] by {
        if j < s.len() {
            assert(s.push(f)[j] == s[j]);
            assert(dv_fds(s.push(f))[j] == s.push(f)[j].dv());
            assert(dv_fds(s)[j] == s[j].dv());
        } else {
            assert(s.push(f)[j] == f);
            assert(dv_fds(s.push(f))[j] == s.push(f)[j].dv());
        }
    }
    assert(dv_fds(s.push(f)) =~= dv_fds(s) + seq![f.dv()]);
}

pub proof fn lemma_dv_threads_snoc(s: Seq<Thread>, t: Thread)
    ensures
        dv_threads(s.push(t)) == dv_threads(s) + seq![t.dv()],
{
    lemma_dv_threads(s);
    lemma_dv_threads(s.push(t));
    assert forall|j: int| 0 <= j < s.push(t).len() implies dv_threads(s.push(t))[j] == (
    dv_threads(s) + seq![t.dv()])[j] by {
        if j < s.len() {
            assert(s.push(t)[j] == s[j]);
            assert(dv_threads(s.push(t))[j] == s.push(t)[j].dv());
            assert(dv_threads(s)[j] == s[j].dv());
        } else {
            assert(s.push(t)[j] == t);
            assert(dv_threads(s.push(t))[j] == s.push(t)[j].dv());
        }
    }
    assert(dv_threads(s.push(t)) =~= dv_threads(s) + seq![t.dv()]);
}

pub proof fn lemma_dv_processes_snoc(s: Seq<Process>, p: Process)
    ensures
        dv_processes(s.push(p)) == dv_processes(s) + seq![p.dv()],
{
    lemma_dv_processes(s);
    lemma_dv_processes(s.push(p));
    assert forall|j: int| 0 <= j < s.push(p).len() implies dv_processes(s.push(p))[j] == (
    dv_processes(s) + seq![p.dv()])[j] by {
        if j < s.len() {
            assert(s.push(p)[j] == s[j]);
            assert(dv_processes(s.push(p))[j] == s.push(p)[j].dv());
            assert(dv_processes(s)[j] == s[j].dv());
        } else {
            assert(s.push(p)[j] == p);
            assert(dv_processes(s.push(p))[j] == s.push(p)[j].dv());
        }
    }
    assert(dv_processes(s.push(p)) =~= dv_processes(s) + seq![p.dv()]);
}

// ---------------------------------------------------------------------------
// Executable helpers kept from the snapshot records
// ---------------------------------------------------------------------------

impl Buffer {
    pub fn new(buffer: BufferId, buf: Vec<u8>) -> (r: Self)
        ensures
            r.buffer == buffer,
            r.buf == buf,
    {
        Self { buffer, buf }
    }
}

impl MemoryMapping {
    /// One past the last address of the mapping.
    pub fn address_end(&self) -> (r: u64)
        requires
            self.address + self.len <= u64::MAX,
        ensures
            r == self.address + self.len,
    {
        self.address + self.len
    }
}

// ---------------------------------------------------------------------------
// Pre-order walk of a process tree
// ---------------------------------------------------------------------------

/// The process itself, then the descendants of each of its threads, in
/// depth-first pre-order. This is the order in which buffers are streamed.
pub open spec fn preorder(p: ProcessV) -> Seq<ProcessV>
    decreases p,
{
    seq![p] + preorder_threads(p.threads)
}

pub open spec fn preorder_threads(ts: Seq<ThreadV>) -> Seq<ProcessV>
    decreases ts,
{
    if ts.len() == 0 {
        Seq::empty()
    } else {
        preorder_list(ts[0].children) + preorder_threads(ts.skip(1))
    }
}

pub open spec fn preorder_list(ps: Seq<ProcessV>) -> Seq<ProcessV>
    decreases ps,
{
    if ps.len() == 0 {
        Seq::empty()
    } else {
        preorder(ps[0]) + preorder_list(ps.skip(1))
    }
}

impl Process {
    /// The process and all processes forked beneath it, in depth-first
    /// pre-order.
    #[verifier::loop_isolation(false)]
    pub fn self_and_descendents(&self) -> (r: Vec<&Process>)
        ensures
            r@.len() == preorder(self.dv()).len(),
            forall|i: int| 0 <= i < r@.len() ==> r@[i].dv() == preorder(self.dv())[i],
        decreases *self,
    {
        let mut procs: Vec<&Process> = Vec::new();
        procs.push(self);
        let ghost pre = preorder(self.dv());
        assert(procs@.len() == 1 + preorder_threads(self.dv().threads.take(0)).len()) by {
            reveal_with_fuel(preorder_threads, 1);
            assert(self.dv().threads.take(0) =~= Seq::<ThreadV>::empty());
        }
        proof {
            lemma_dv_threads(self.threads@);
        }
        let mut t: usize = 0;
        while t < self.threads.len()
            invariant
                t <= self.threads.len(),
                self.dv() == (ProcessV {
                    pid: self.pid,
                    mmaps: dv_mmaps(self.mmaps@),
                    fd_table: dv_fds(self.fd_table@),
                    threads: dv_threads(self.threads@),
                }),
                dv_threads(self.threads@).len() == self.threads@.len(),
                forall|i: int|
                    0 <= i < self.threads@.len() ==> dv_threads(self.threads@)[i]
                        == #[trigger] self.threads@[i].dv(),
                procs@.len() == (seq![self.dv()] + preorder_threads(
                    self.dv().threads.take(t as int),
                )).len(),
                forall|i: int|
                    0 <= i < procs@.len() ==> #[trigger] procs@[i].dv() == (seq![self.dv()]
                        + preorder_threads(self.dv().threads.take(t as int)))[i],
            decreases self.threads.len() - t,
        {
            proof {
                lemma_dv_threads(self.threads@);
            }
            let ghost ts = self.dv().threads;
            let thread = &self.threads[t];
            proof {
                lemma_dv_processes(thread.children@);
                assert(decreases_to!(self.threads => self.threads@[t as int]));
            }
            let ghost before = seq![self.dv()] + preorder_threads(ts.take(t as int));
            let mut c: usize = 0;
            while c < thread.children.len()
                invariant
                    c <= thread.children.len(),
                    thread.dv().children == dv_processes(thread.children@),
                    dv_processes(thread.children@).len() == thread.children@.len(),
                    forall|i: int|
                        0 <= i < thread.children@.len() ==> dv_processes(thread.children@)[i]
                            == #[trigger] thread.children@[i].dv(),
                    procs@.len() == (before + preorder_list(
                        thread.dv().children.take(c as int),
                    )).len(),
                    forall|i: int|
                        0 <= i < procs@.len() ==> #[trigger] procs@[i].dv() == (before
                            + preorder_list(thread.dv().children.take(c as int)))[i],
                decreases thread.children.len() - c,
            {
                let child = &thread.children[c];
                proof {
                    assert(decreases_to!(*self => self.threads));
                    assert(decreases_to!(self.threads => self.threads@[t as int]));
                    assert(decreases_to!(*thread => thread.children));
                    assert(decreases_to!(thread.children => thread.children@[c as int]));
                }
                let sub = child.self_and_descendents();
                let ghost old_procs = procs@;
                let mut s: usize = 0;
                while s < sub.len()
                    invariant
                        s <= sub.len(),
                        procs@ == old_procs + sub@.take(s as int),
                        sub@.len() == preorder(child.dv()).len(),
                        forall|i: int|
                            0 <= i < sub@.len() ==> #[trigger] sub@[i].dv() == preorder(
                                child.dv(),
                            )[i],
                    decreases sub.len() - s,
                {
                    procs.push(sub[s]);
                    assert(procs@ == old_procs + sub@.take(s as int + 1)) by {
                        assert(sub@.take(s as int + 1) =~= sub@.take(s as int) + seq![
                            sub@[s as int],
                        ]);
                    }
                    s = s + 1;
                }
                assert(sub@.take(sub@.len() as int) =~= sub@);
                proof {
                    let cs = thread.dv().children;
                    lemma_preorder_list_snoc(cs, c as int);
                    assert(cs.take(c as int + 1).drop_last() =~= cs.take(c as int));
                    assert forall|i: int| 0 <= i < procs@.len() implies #[trigger] procs@[i].dv()
                        == (before + preorder_list(cs.take(c as int + 1)))[i] by {
                        if i < old_procs.len() {
                            assert(procs@[i] == old_procs[i]);
                        } else {
                            assert(procs@[i] == sub@[i - old_procs.len()]);
                        }
                    }
                }
                c = c + 1;
            }
            proof {
                let cs = thread.dv().children;
                assert(cs.take(cs.len() as int) =~= cs);
                lemma_preorder_threads_snoc(ts, t as int);
                assert(ts.take(t as int + 1).drop_last() =~= ts.take(t as int));
            }
            t = t + 1;
        }
        proof {
            let ts = self.dv().threads;
            assert(ts.take(ts.len() as int) =~= ts);
            reveal_with_fuel(preorder, 1);
        }
        procs
    }
}

/// Extending the walked prefix of a thread list by one thread appends that
/// thread's subtree walk.
pub proof fn lemma_preorder_threads_snoc(ts: Seq<ThreadV>, t: int)
    requires
        0 <= t < ts.len(),
    ensures
        preorder_threads(ts.take(t + 1)) == preorder_threads(ts.take(t)) + preorder_list(
            ts[t].children,
        ),
    decreases t,
{
    let pre = ts.take(t + 1);
    if t == 0 {
        assert(pre.skip(1) =~= ts.take(0));
        assert(preorder_threads(ts.take(0)) =~= Seq::<ProcessV>::empty());
        assert(preorder_threads(pre) == preorder_list(pre[0].children) + preorder_threads(
            pre.skip(1),
        ));
        assert(preorder_threads(pre) =~= preorder_threads(ts.take(0)) + preorder_list(
            ts[0].children,
        ));
    } else {
        lemma_preorder_threads_snoc(ts.skip(1), t - 1);
        assert(pre.skip(1) =~= ts.skip(1).take(t));
        assert(ts.take(t).skip(1) =~= ts.skip(1).take(t - 1));
        assert(ts.skip(1)[t - 1] == ts[t]);
        assert(preorder_threads(ts.take(t + 1)) =~= preorder_threads(ts.take(t)) + preorder_list(
            ts[t].children,
        ));
    }
}

/// Extending the walked prefix of a process list by one process appends that
/// process's subtree walk.
pub proof fn lemma_preorder_list_snoc(ps: Seq<ProcessV>, p: int)
    requires
        0 <= p < ps.len(),
    ensures
        preorder_list(ps.take(p + 1)) == preorder_list(ps.take(p)) + preorder(ps[p]),
    decreases p,
{
    let pre = ps.take(p + 1);
    if p == 0 {
        assert(pre.skip(1) =~= ps.take(0));
        assert(preorder_list(ps.take(0)) =~= Seq::<ProcessV>::empty());
        assert(preorder_list(pre) == preorder(pre[0]) + preorder_list(pre.skip(1)));
        assert(preorder_list(pre) =~= preorder_list(ps.take(0)) + preorder(ps[0]));
    } else {
        lemma_preorder_list_snoc(ps.skip(1), p - 1);
        assert(pre.skip(1) =~= ps.skip(1).take(p));
        assert(ps.take(p).skip(1) =~= ps.skip(1).take(p - 1));
        assert(ps.skip(1)[p - 1] == ps[p]);
        assert(preorder_list(ps.take(p + 1)) =~= preorder_list(ps.take(p)) + preorder(ps[p]));
    }
}

} // verus!
