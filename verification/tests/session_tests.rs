use escapepod::codec::encode_message;
use escapepod::error::Error;
use escapepod::proto::{
    Buffer, EscapeeMessage, MemoryMapping, MemoryMappingData, Process, Thread,
};
use escapepod::session::{
    buffer_schedule, session_step, BufferRead, SessionAction, SessionState, StreamDecoder,
};

fn tree_msg() -> EscapeeMessage {
    EscapeeMessage::ProcessTrees(vec![Process { pid: 1, mmaps: vec![], fd_table: vec![], threads: vec![] }])
}

#[test]
fn session_accepts_tree_buffers_done() {
    let st = SessionState::AwaitingTree;
    let (st, act) = session_step(st, tree_msg()).unwrap();
    assert!(matches!(act, SessionAction::StartRestore(_)));
    let (st, act) =
        session_step(st, EscapeeMessage::Buffer(Buffer { buffer: 0, buf: vec![1] })).unwrap();
    assert!(matches!(act, SessionAction::DeliverBuffer(_)));
    let (st, act) = session_step(st, EscapeeMessage::Done).unwrap();
    assert_eq!(st, SessionState::Finished);
    assert_eq!(act, SessionAction::Finish);
}

#[test]
fn session_rejects_buffer_before_tree() {
    let r = session_step(
        SessionState::AwaitingTree,
        EscapeeMessage::Buffer(Buffer { buffer: 0, buf: vec![] }),
    );
    assert_eq!(r.unwrap_err(), Error::Malformed);
}

#[test]
fn session_rejects_second_tree_and_anything_after_done() {
    let r = session_step(SessionState::Receiving, tree_msg());
    assert_eq!(r.unwrap_err(), Error::Malformed);
    let r = session_step(SessionState::Finished, EscapeeMessage::Done);
    assert_eq!(r.unwrap_err(), Error::Malformed);
}

#[test]
fn stream_decoder_handles_split_messages() {
    let first = EscapeeMessage::Buffer(Buffer { buffer: 3, buf: vec![1, 2, 3] });
    let second = EscapeeMessage::Done;
    let mut bytes = encode_message(&first);
    bytes.extend_from_slice(&encode_message(&second));

    let mut dec = StreamDecoder::new();
    let (head, tail) = bytes.split_at(4);
    dec.feed(&head.to_vec());
    // Not a whole message yet.
    assert!(dec.try_next().unwrap().is_none());
    dec.feed(&tail.to_vec());
    assert_eq!(dec.try_next().unwrap().unwrap(), first);
    assert_eq!(dec.try_next().unwrap().unwrap(), second);
    assert!(dec.try_next().unwrap().is_none());
}

#[test]
fn stream_decoder_rejects_garbage() {
    let mut dec = StreamDecoder::new();
    dec.feed(&vec![200u8]);
    assert_eq!(dec.try_next().unwrap_err(), Error::Malformed);
}

#[test]
fn schedule_walks_preorder_and_mapping_order() {
    let child = Process {
        pid: 20,
        mmaps: vec![MemoryMapping {
            address: 0x7000,
            len: 0x1000,
            perm: 5,
            data: MemoryMappingData::Buffer(2),
        }],
        fd_table: vec![],
        threads: vec![],
    };
    let root = Process {
        pid: 10,
        mmaps: vec![
            MemoryMapping { address: 0x1000, len: 0x1000, perm: 5, data: MemoryMappingData::Buffer(0) },
            MemoryMapping { address: 0x3000, len: 0x1000, perm: 5, data: MemoryMappingData::KernelVvar },
            MemoryMapping { address: 0x5000, len: 0x2000, perm: 5, data: MemoryMappingData::Buffer(1) },
        ],
        fd_table: vec![],
        threads: vec![Thread { tid: 10, uid: 0, gid: 0, reg: vec![], children: vec![child] }],
    };
    let sched = buffer_schedule(&vec![root]);
    assert_eq!(
        sched,
        vec![
            BufferRead { pid: 10, buffer: 0, address: 0x1000, len: 0x1000 },
            BufferRead { pid: 10, buffer: 1, address: 0x5000, len: 0x2000 },
            BufferRead { pid: 20, buffer: 2, address: 0x7000, len: 0x1000 },
        ]
    );
}
