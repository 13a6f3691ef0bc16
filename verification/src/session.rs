//! The escape session: the order of messages on the wire, the destination
//! consumer that enforces it, the byte-stream framing, and the origin's
//! buffer-streaming schedule.

use vstd::prelude::*;

use crate::codec::{decode_message, sdec_msg};
use crate::error::Error;
use crate::proto::{
    Buffer, BufferV, EscapeeMessage, File, FileData, MemoryMapping, MmapDataV, MmapV, MsgV,
    Process, ProcessV, ThreadV, dv_processes, lemma_dv_mmaps, preorder, preorder_list,
    preorder_threads, lemma_preorder_list_snoc,
};
use crate::wire::Dec;

verus! {

broadcast use vstd::std_specs::vec::group_vec_axioms;

// ---------------------------------------------------------------------------
// The consumer state machine
// ---------------------------------------------------------------------------

/// Where the destination stands in a session.
#[derive(Debug, Clone, Copy, PartialEq, Eq, Structural)]
pub enum SessionState {
    /// Nothing received yet; only `ProcessTrees` is acceptable.
    AwaitingTree,
    /// The tree has arrived; buffers and file records may follow.
    Receiving,
    /// `Done` has arrived; nothing more may follow.
    Finished,
}

/// What the destination does with one accepted message.
#[derive(Debug, PartialEq)]
pub enum SessionAction {
    /// Launch one restorer per top-level process.
    StartRestore(Vec<Process>),
    /// Deliver a buffer into the matching restored mapping.
    DeliverBuffer(Buffer),
    /// Record a synced file's metadata.
    RecordFile(File),
    /// Record a synced file's contents.
    RecordFileData(FileData),
    /// Close the session.
    Finish,
}

/// The transition the consumer makes on one message: `None` is a protocol
/// violation.
pub open spec fn spec_session_step(st: SessionState, m: MsgV) -> Option<SessionState> {
    match (st, m) {
        (SessionState::AwaitingTree, MsgV::ProcessTrees(_)) => Some(SessionState::Receiving),
        (SessionState::Receiving, MsgV::Buffer(_)) => Some(SessionState::Receiving),
        (SessionState::Receiving, MsgV::File(_)) => Some(SessionState::Receiving),
        (SessionState::Receiving, MsgV::FileData(_)) => Some(SessionState::Receiving),
        (SessionState::Receiving, MsgV::Done) => Some(SessionState::Finished),
        _ => None,
    }
}

/// Consume one message. Exactly the transitions of `spec_session_step`
/// are accepted; everything else is rejected as `Malformed` and the state
/// does not move.
pub fn session_step(st: SessionState, msg: EscapeeMessage) -> (r: Result<
    (SessionState, SessionAction),
    Error,
>)
    ensures
        match r {
            Ok(sa) => spec_session_step(st, msg.dv()) == Some(sa.0),
            Err(e) => e == Error::Malformed && spec_session_step(st, msg.dv()) is None,
        },
{
    match (st, msg) {
        (SessionState::AwaitingTree, EscapeeMessage::ProcessTrees(ps)) => Ok(
            (SessionState::Receiving, SessionAction::StartRestore(ps)),
        ),
        (SessionState::Receiving, EscapeeMessage::Buffer(b)) => Ok(
            (SessionState::Receiving, SessionAction::DeliverBuffer(b)),
        ),
        (SessionState::Receiving, EscapeeMessage::File(f)) => Ok(
            (SessionState::Receiving, SessionAction::RecordFile(f)),
        ),
        (SessionState::Receiving, EscapeeMessage::FileData(d)) => Ok(
            (SessionState::Receiving, SessionAction::RecordFileData(d)),
        ),
        (SessionState::Receiving, EscapeeMessage::Done) => Ok(
            (SessionState::Finished, SessionAction::Finish),
        ),
        _ => Err(Error::Malformed),
    }
}

/// Run the consumer over a whole message sequence.
pub open spec fn spec_session_run(st: SessionState, msgs: Seq<MsgV>) -> Option<SessionState>
    decreases msgs.len(),
{
    if msgs.len() == 0 {
        Some(st)
    } else {
        match spec_session_step(st, msgs[0]) {
            Some(st2) => spec_session_run(st2, msgs.skip(1)),
            None => None,
        }
    }
}

/// A full session: the consumer accepts every message and ends closed.
pub open spec fn session_accepts(msgs: Seq<MsgV>) -> bool {
    spec_session_run(SessionState::AwaitingTree, msgs) == Some(SessionState::Finished)
}

/// The shape the ordering guarantee promises: exactly one `ProcessTrees`
/// first, then any number of buffers and file records, then `Done`, and
/// nothing after.
pub open spec fn well_shaped(msgs: Seq<MsgV>) -> bool {
    &&& msgs.len() >= 2
    &&& msgs[0] is ProcessTrees
    &&& msgs.last() is Done
    &&& (forall|i: int|
        1 <= i < msgs.len() - 1 ==> ((#[trigger] msgs[i]) is Buffer || msgs[i] is File
            || msgs[i] is FileData))
}

pub open spec fn tail_shape(msgs: Seq<MsgV>) -> bool {
    msgs.len() >= 1 && msgs.last() is Done && (forall|i: int|
        0 <= i < msgs.len() - 1 ==> ((#[trigger] msgs[i]) is Buffer || msgs[i] is File
            || msgs[i] is FileData))
}

pub proof fn lemma_receiving_fwd(msgs: Seq<MsgV>)
    requires
        spec_session_run(SessionState::Receiving, msgs) == Some(SessionState::Finished),
    ensures
        tail_shape(msgs),
    decreases msgs.len(),
{
    assert(msgs.len() > 0);
    let tail = msgs.skip(1);
    assert(tail.len() == msgs.len() - 1);
    assert forall|i: int| 0 <= i < tail.len() implies tail[i] == msgs[i + 1] by {}
    if msgs[0] is Done {
        if tail.len() > 0 {
            assert(spec_session_step(SessionState::Finished, tail[0]) is None);
            assert(spec_session_run(SessionState::Finished, tail) is None);
            assert(false);
        }
        assert(msgs.last() == msgs[0]);
    } else if msgs[0] is Buffer || msgs[0] is File || msgs[0] is FileData {
        assert(spec_session_run(SessionState::Receiving, tail) == Some(SessionState::Finished));
        lemma_receiving_fwd(tail);
        assert(tail.len() >= 1);
        assert(tail.last() == msgs.last());
        assert forall|i: int|
            0 <= i < msgs.len() - 1 implies ((#[trigger] msgs[i]) is Buffer || msgs[i] is File
            || msgs[i] is FileData) by {
            if i >= 1 {
                assert(tail[i - 1] == msgs[i]);
                assert(tail[i - 1] is Buffer || tail[i - 1] is File || tail[i - 1] is FileData);
            }
        }
    } else {
        assert(spec_session_step(SessionState::Receiving, msgs[0]) is None);
        assert(false);
    }
}

pub proof fn lemma_receiving_bwd(msgs: Seq<MsgV>)
    requires
        tail_shape(msgs),
    ensures
        spec_session_run(SessionState::Receiving, msgs) == Some(SessionState::Finished),
    decreases msgs.len(),
{
    let tail = msgs.skip(1);
    assert(tail.len() == msgs.len() - 1);
    assert forall|i: int| 0 <= i < tail.len() implies tail[i] == msgs[i + 1] by {}
    if msgs.len() == 1 {
        assert(msgs.last() == msgs[0]);
        assert(msgs[0] is Done);
        assert(spec_session_step(SessionState::Receiving, msgs[0]) == Some(
            SessionState::Finished,
        ));
        assert(tail.len() == 0);
        assert(spec_session_run(SessionState::Finished, tail) == Some(SessionState::Finished));
    } else {
        assert(msgs[0] is Buffer || msgs[0] is File || msgs[0] is FileData);
        assert(tail.last() == msgs.last());
        assert forall|i: int|
            0 <= i < tail.len() - 1 implies ((#[trigger] tail[i]) is Buffer || tail[i] is File
            || tail[i] is FileData) by {
            assert(tail[i] == msgs[i + 1]);
        }
        assert(tail_shape(tail));
        lemma_receiving_bwd(tail);
        assert(spec_session_step(SessionState::Receiving, msgs[0]) == Some(
            SessionState::Receiving,
        ));
        assert(spec_session_run(SessionState::Receiving, tail) == Some(SessionState::Finished));
    }
}

pub proof fn lemma_receiving_run(msgs: Seq<MsgV>)
    ensures
        (spec_session_run(SessionState::Receiving, msgs) == Some(SessionState::Finished)) <==> tail_shape(
            msgs,
        ),
{
    if spec_session_run(SessionState::Receiving, msgs) == Some(SessionState::Finished) {
        lemma_receiving_fwd(msgs);
    }
    if tail_shape(msgs) {
        lemma_receiving_bwd(msgs);
    }
}

/// Ordering: the consumer accepts a session exactly when it is one
/// `ProcessTrees`, then buffers and file records, then `Done`.
pub proof fn lemma_session_ordering(msgs: Seq<MsgV>)
    ensures
        session_accepts(msgs) <==> well_shaped(msgs),
{
    if msgs.len() > 0 {
        let tail = msgs.skip(1);
        lemma_receiving_run(tail);
        assert(tail.len() == msgs.len() - 1);
        assert forall|i: int| 0 <= i < tail.len() implies tail[i] == msgs[i + 1] by {}
        if msgs.len() >= 2 {
            assert(tail.last() == msgs.last());
        }
        if msgs[0] is ProcessTrees {
            if session_accepts(msgs) {
                assert(spec_session_run(SessionState::Receiving, tail) == Some(
                    SessionState::Finished,
                ));
                assert(tail_shape(tail));
                assert(tail.len() >= 1);
                assert forall|i: int|
                    1 <= i < msgs.len() - 1 implies ((#[trigger] msgs[i]) is Buffer || msgs[i]
                    is File || msgs[i] is FileData) by {
                    assert(tail[i - 1] == msgs[i]);
                    assert(tail[i - 1] is Buffer || tail[i - 1] is File || tail[i - 1]
                        is FileData);
                }
            }
            if well_shaped(msgs) {
                assert forall|i: int|
                    0 <= i < tail.len() - 1 implies ((#[trigger] tail[i]) is Buffer || tail[i]
                    is File || tail[i] is FileData) by {
                    assert(tail[i] == msgs[i + 1]);
                }
                assert(tail_shape(tail));
            }
        } else {
            assert(spec_session_step(SessionState::AwaitingTree, msgs[0]) is None);
            assert(!session_accepts(msgs));
            assert(!well_shaped(msgs));
        }
    }
}

/// The session the origin emits: the tree first, each buffer in turn,
/// `Done` last.
pub open spec fn session_messages(ps: Seq<ProcessV>, bufs: Seq<BufferV>) -> Seq<MsgV> {
    seq![MsgV::ProcessTrees(ps)] + Seq::new(bufs.len(), |i: int| MsgV::Buffer(bufs[i])) + seq![
        MsgV::Done,
    ]
}

/// The origin's plan is always accepted by the consumer, whatever the
/// buffers hold: the tree comes first, `Done` last, buffers between.
pub proof fn lemma_stream_order(ps: Seq<ProcessV>, bufs: Seq<BufferV>)
    ensures
        well_shaped(session_messages(ps, bufs)),
        session_accepts(session_messages(ps, bufs)),
{
    let msgs = session_messages(ps, bufs);
    assert(msgs.len() == bufs.len() + 2);
    assert(msgs[0] is ProcessTrees);
    assert(msgs.last() is Done);
    assert forall|i: int| 1 <= i < msgs.len() - 1 implies ((#[trigger] msgs[i]) is Buffer
        || msgs[i] is File || msgs[i] is FileData) by {
        assert(msgs[i] == MsgV::Buffer(bufs[i - 1]));
    }
    lemma_session_ordering(msgs);
}

// ---------------------------------------------------------------------------
// Framing: pulling messages off a byte stream
// ---------------------------------------------------------------------------

/// A buffered reader over the session's byte stream. Bytes are fed in as
/// they arrive; messages come off the front whenever a whole one is
/// present, so decoder boundaries align with message boundaries by
/// construction.
pub struct StreamDecoder {
    buf: Vec<u8>,
    pos: usize,
}

impl StreamDecoder {
    pub closed spec fn wf(&self) -> bool {
        self.pos <= self.buf@.len()
    }

    /// The bytes fed but not yet consumed by a decoded message.
    pub closed spec fn pending(&self) -> Seq<u8> {
        self.buf@.skip(self.pos as int)
    }

    pub fn new() -> (r: StreamDecoder)
        ensures
            r.wf(),
            r.pending() == Seq::<u8>::empty(),
    {
        let r = StreamDecoder { buf: Vec::new(), pos: 0 };
        assert(r.pending() =~= Seq::<u8>::empty());
        r
    }

    /// Append bytes read from the transport.
    pub fn feed(&mut self, chunk: &Vec<u8>)
        requires
            old(self).wf(),
        ensures
            final(self).wf(),
            final(self).pending() == old(self).pending() + chunk@,
    {
        let mut i: usize = 0;
        while i < chunk.len()
            invariant
                i <= chunk.len(),
                self.pos == old(self).pos,
                self.buf@ == old(self).buf@ + chunk@.take(i as int),
            decreases chunk.len() - i,
        {
            self.buf.push(chunk[i]);
            assert(self.buf@ =~= old(self).buf@ + chunk@.take(i as int + 1));
            i = i + 1;
        }
        assert(self.buf@ =~= old(self).buf@ + chunk@);
        assert(self.buf@.skip(self.pos as int) =~= old(self).buf@.skip(old(self).pos as int)
            + chunk@);
    }

    /// Decode the next whole message, if the pending bytes hold one.
    /// `Ok(None)` asks for more bytes; `Malformed` is fatal.
    pub fn try_next(&mut self) -> (r: Result<Option<EscapeeMessage>, Error>)
        requires
            old(self).wf(),
        ensures
            final(self).wf(),
            match r {
                Ok(Some(m)) => {
                    let d = sdec_msg(old(self).pending());
                    &&& d is Val
                    &&& d->Val_0 == m.dv()
                    &&& final(self).pending() == old(self).pending().skip(d->Val_1 as int)
                },
                Ok(None) => sdec_msg(old(self).pending()) is Short && final(self).pending()
                    == old(self).pending(),
                Err(e) => e == Error::Malformed && sdec_msg(old(self).pending()) is Bad
                    && final(self).pending() == old(self).pending(),
            },
    {
        match decode_message(&self.buf, self.pos) {
            Ok((m, p2)) => {
                let ghost u = p2 - self.pos;
                assert(self.buf@.skip(p2 as int) =~= self.buf@.skip(self.pos as int).skip(
                    u as int,
                ));
                self.pos = p2;
                Ok(Some(m))
            },
            Err(e) => {
                if e == Error::Truncated {
                    Ok(None)
                } else {
                    Err(e)
                }
            },
        }
    }
}

// ---------------------------------------------------------------------------
// The origin's buffer-streaming schedule
// ---------------------------------------------------------------------------

/// One cross-process read the origin performs while streaming: the buffer
/// id it will be sent under, and where the bytes live in the stopped
/// process.
#[derive(Debug, Clone, Copy, PartialEq, Eq, Structural)]
pub struct BufferRead {
    pub pid: i32,
    pub buffer: u32,
    pub address: u64,
    pub len: u64,
}

/// The reads one process contributes, in mapping order.
pub open spec fn mmap_reads(pid: i32, ms: Seq<MmapV>) -> Seq<BufferRead>
    decreases ms,
{
    if ms.len() == 0 {
        Seq::empty()
    } else {
        (match ms[0].data {
            MmapDataV::Buffer(id) => seq![
                BufferRead { pid, buffer: id, address: ms[0].address, len: ms[0].len },
            ],
            _ => Seq::empty(),
        }) + mmap_reads(pid, ms.skip(1))
    }
}

/// The whole schedule: processes in depth-first pre-order, and within one
/// process its mappings in table order.
pub open spec fn reads_of_list(l: Seq<ProcessV>) -> Seq<BufferRead>
    decreases l,
{
    if l.len() == 0 {
        Seq::empty()
    } else {
        mmap_reads(l[0].pid, l[0].mmaps) + reads_of_list(l.skip(1))
    }
}

pub proof fn lemma_mmap_reads_snoc(pid: i32, ms: Seq<MmapV>, i: int)
    requires
        0 <= i < ms.len(),
    ensures
        mmap_reads(pid, ms.take(i + 1)) == mmap_reads(pid, ms.take(i)) + (match ms[i].data {
            MmapDataV::Buffer(id) => seq![
                BufferRead { pid, buffer: id, address: ms[i].address, len: ms[i].len },
            ],
            _ => Seq::<BufferRead>::empty(),
        }),
    decreases i,
{
    let pre = ms.take(i + 1);
    if i == 0 {
        assert(pre.skip(1) =~= ms.take(0));
        assert(mmap_reads(pid, ms.take(0)) =~= Seq::<BufferRead>::empty());
        assert(pre[0] == ms[0]);
        assert(mmap_reads(pid, pre) =~= mmap_reads(pid, ms.take(0)) + (match ms[0].data {
            MmapDataV::Buffer(id) => seq![
                BufferRead { pid, buffer: id, address: ms[0].address, len: ms[0].len },
            ],
            _ => Seq::<BufferRead>::empty(),
        }));
    } else {
        lemma_mmap_reads_snoc(pid, ms.skip(1), i - 1);
        assert(pre.skip(1) =~= ms.skip(1).take(i));
        assert(ms.take(i).skip(1) =~= ms.skip(1).take(i - 1));
        assert(ms.skip(1)[i - 1] == ms[i]);
        assert(mmap_reads(pid, ms.take(i + 1)) =~= mmap_reads(pid, ms.take(i)) + (match
        ms[i].data {
            MmapDataV::Buffer(id) => seq![
                BufferRead { pid, buffer: id, address: ms[i].address, len: ms[i].len },
            ],
            _ => Seq::<BufferRead>::empty(),
        }));
    }
}

pub proof fn lemma_reads_of_list_snoc(l: Seq<ProcessV>, i: int)
    requires
        0 <= i < l.len(),
    ensures
        reads_of_list(l.take(i + 1)) == reads_of_list(l.take(i)) + mmap_reads(
            l[i].pid,
            l[i].mmaps,
        ),
    decreases i,
{
    let pre = l.take(i + 1);
    if i == 0 {
        assert(pre.skip(1) =~= l.take(0));
        assert(reads_of_list(l.take(0)) =~= Seq::<BufferRead>::empty());
        assert(pre[0] == l[0]);
        assert(reads_of_list(pre) =~= reads_of_list(l.take(0)) + mmap_reads(
            l[0].pid,
            l[0].mmaps,
        ));
    } else {
        lemma_reads_of_list_snoc(l.skip(1), i - 1);
        assert(pre.skip(1) =~= l.skip(1).take(i));
        assert(l.take(i).skip(1) =~= l.skip(1).take(i - 1));
        assert(l.skip(1)[i - 1] == l[i]);
        assert(reads_of_list(l.take(i + 1)) =~= reads_of_list(l.take(i)) + mmap_reads(
            l[i].pid,
            l[i].mmaps,
        ));
    }
}

/// The origin's streaming schedule over the snapshot payload: for every
/// process in depth-first pre-order, for every buffer-tagged mapping in
/// table order, one read.
#[verifier::loop_isolation(false)]
#[verifier::rlimit(100)]
pub fn buffer_schedule(procs: &Vec<Process>) -> (r: Vec<BufferRead>)
    ensures
        r@ == reads_of_list(preorder_list(dv_processes(procs@))),
{
    proof {
        crate::proto::lemma_dv_processes(procs@);
    }
    let ghost roots = dv_processes(procs@);
    let mut out: Vec<BufferRead> = Vec::new();
    assert(preorder_list(roots.take(0)) =~= Seq::<ProcessV>::empty());
    assert(reads_of_list(preorder_list(roots.take(0))) =~= Seq::<BufferRead>::empty());
    let mut i: usize = 0;
    while i < procs.len()
        invariant
            i <= procs@.len(),
            out@ == reads_of_list(preorder_list(roots.take(i as int))),
        decreases procs@.len() - i,
    {
        let root = &procs[i];
        let all = root.self_and_descendents();
        let ghost sub = preorder(root.dv());
        let ghost done = preorder_list(roots.take(i as int));
        let mut j: usize = 0;
        while j < all.len()
            invariant
                j <= all@.len(),
                all@.len() == sub.len(),
                forall|k: int| 0 <= k < all@.len() ==> (#[trigger] all@[k]).dv() == sub[k],
                out@ == reads_of_list(done) + reads_of_list(sub.take(j as int)),
            decreases all@.len() - j,
        {
            let p = all[j];
            proof {
                lemma_dv_mmaps(p.mmaps@);
            }
            let ghost ms = p.dv().mmaps;
            let ghost mid = out@;
            let mut k: usize = 0;
            while k < p.mmaps.len()
                invariant
                    k <= p.mmaps@.len(),
                    ms.len() == p.mmaps@.len(),
                    forall|t: int| 0 <= t < p.mmaps@.len() ==> ms[t] == #[trigger] p.mmaps@[t].dv(),
                    out@ == mid + mmap_reads(p.dv().pid, ms.take(k as int)),
                decreases p.mmaps@.len() - k,
            {
                let m = &p.mmaps[k];
                proof {
                    lemma_mmap_reads_snoc(p.dv().pid, ms, k as int);
                    assert(ms[k as int] == p.mmaps@[k as int].dv());
                    assert(ms[k as int].data == m.data.dv());
                    assert(ms[k as int].address == m.address && ms[k as int].len == m.len);
                }
                match &m.data {
                    crate::proto::MemoryMappingData::Buffer(id) => {
                        out.push(
                            BufferRead {
                                pid: p.pid,
                                buffer: *id,
                                address: m.address,
                                len: m.len,
                            },
                        );
                        assert(out@ =~= mid + mmap_reads(p.dv().pid, ms.take(k as int + 1)));
                    },
                    _ => {
                        assert(out@ =~= mid + mmap_reads(p.dv().pid, ms.take(k as int + 1)));
                    },
                }
                k = k + 1;
            }
            proof {
                assert(ms.take(ms.len() as int) =~= ms);
                lemma_reads_of_list_snoc(sub, j as int);
                assert(sub.take(j as int + 1).drop_last() =~= sub.take(j as int));
                assert(reads_of_list(done) + reads_of_list(sub.take(j as int)) + mmap_reads(
                    sub[j as int].pid,
                    sub[j as int].mmaps,
                ) =~= reads_of_list(done) + reads_of_list(sub.take(j as int + 1)));
            }
            j = j + 1;
        }
        proof {
            assert(sub.take(sub.len() as int) =~= sub);
            lemma_preorder_list_snoc(roots, i as int);
            assert(roots.take(i as int + 1).drop_last() =~= roots.take(i as int));
            lemma_reads_concat(done, sub);
        }
        i = i + 1;
    }
    assert(roots.take(roots.len() as int) =~= roots);
    out
}

/// The buffer ids a schedule will send, in order.
pub open spec fn ids_of_reads(rs: Seq<BufferRead>) -> Seq<u32> {
    Seq::new(rs.len(), |i: int| rs[i].buffer)
}

pub proof fn lemma_ids_of_reads_concat(a: Seq<BufferRead>, b: Seq<BufferRead>)
    ensures
        ids_of_reads(a + b) == ids_of_reads(a) + ids_of_reads(b),
{
    assert(ids_of_reads(a + b) =~= ids_of_reads(a) + ids_of_reads(b));
}

pub proof fn lemma_mmap_read_ids(pid: i32, ms: Seq<MmapV>)
    ensures
        ids_of_reads(mmap_reads(pid, ms)) == crate::capture::buffer_ids_mmaps(ms),
    decreases ms,
{
    if ms.len() == 0 {
        assert(ids_of_reads(mmap_reads(pid, ms)) =~= crate::capture::buffer_ids_mmaps(ms));
    } else {
        lemma_mmap_read_ids(pid, ms.skip(1));
        let head = match ms[0].data {
            MmapDataV::Buffer(id) => seq![
                BufferRead { pid, buffer: id, address: ms[0].address, len: ms[0].len },
            ],
            _ => Seq::<BufferRead>::empty(),
        };
        lemma_ids_of_reads_concat(head, mmap_reads(pid, ms.skip(1)));
        assert(ids_of_reads(head) =~= (match ms[0].data {
            MmapDataV::Buffer(id) => seq![id],
            _ => Seq::<u32>::empty(),
        }));
    }
}

/// The streamed buffer ids are exactly the snapshot's buffer ids, in
/// capture order: mapping order within a process, depth-first pre-order
/// across processes. With the capture side's id-uniqueness law, every
/// streamed buffer id is therefore distinct.
pub proof fn lemma_schedule_ids(ps: Seq<ProcessV>)
    ensures
        ids_of_reads(reads_of_list(preorder_list(ps))) == crate::capture::buffer_ids_children(
            ps,
        ),
    decreases ps, 2int,
{
    if ps.len() == 0 {
        assert(ids_of_reads(reads_of_list(preorder_list(ps))) =~= crate::capture::buffer_ids_children(ps));
    } else {
        lemma_tree_schedule_ids(ps[0]);
        lemma_schedule_ids(ps.skip(1));
        lemma_reads_concat(preorder(ps[0]), preorder_list(ps.skip(1)));
        lemma_ids_of_reads_concat(
            reads_of_list(preorder(ps[0])),
            reads_of_list(preorder_list(ps.skip(1))),
        );
    }
}

pub proof fn lemma_tree_schedule_ids(p: ProcessV)
    ensures
        ids_of_reads(reads_of_list(preorder(p))) == crate::capture::buffer_ids_tree(p),
    decreases p, 0int,
{
    lemma_threads_schedule_ids(p.threads);
    lemma_mmap_read_ids(p.pid, p.mmaps);
    assert(preorder(p) == seq![p] + preorder_threads(p.threads));
    assert(preorder(p).skip(1) =~= preorder_threads(p.threads));
    assert(preorder(p)[0] == p);
    assert(reads_of_list(preorder(p)) == mmap_reads(p.pid, p.mmaps) + reads_of_list(
        preorder_threads(p.threads),
    ));
    lemma_ids_of_reads_concat(
        mmap_reads(p.pid, p.mmaps),
        reads_of_list(preorder_threads(p.threads)),
    );
}

pub proof fn lemma_threads_schedule_ids(ts: Seq<ThreadV>)
    ensures
        ids_of_reads(reads_of_list(preorder_threads(ts))) == crate::capture::buffer_ids_threads(
            ts,
        ),
    decreases ts, 1int,
{
    if ts.len() == 0 {
        assert(ids_of_reads(reads_of_list(preorder_threads(ts))) =~= crate::capture::buffer_ids_threads(ts));
    } else {
        lemma_schedule_ids(ts[0].children);
        lemma_threads_schedule_ids(ts.skip(1));
        lemma_reads_concat(preorder_list(ts[0].children), preorder_threads(ts.skip(1)));
        lemma_ids_of_reads_concat(
            reads_of_list(preorder_list(ts[0].children)),
            reads_of_list(preorder_threads(ts.skip(1))),
        );
    }
}

/// The schedule of a concatenation is the concatenation of schedules.
pub proof fn lemma_reads_concat(a: Seq<ProcessV>, b: Seq<ProcessV>)
    ensures
        reads_of_list(a + b) == reads_of_list(a) + reads_of_list(b),
    decreases a.len(),
{
    if a.len() == 0 {
        assert(a + b =~= b);
        assert(reads_of_list(a) =~= Seq::<BufferRead>::empty());
    } else {
        lemma_reads_concat(a.skip(1), b);
        assert((a + b).skip(1) =~= a.skip(1) + b);
        assert((a + b)[0] == a[0]);
        assert(reads_of_list(a + b) =~= reads_of_list(a) + reads_of_list(b));
    }
}

} // verus!
