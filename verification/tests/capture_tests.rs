use escapepod::capture::{
    buffer_from_read, classify_fd, freeze, freeze_proc_recursive, parse_proc_recursive,
    FreezeStep, PidTree, RawFd, RawFdTarget, RawMapping, RawProcess, RawThread,
};
use escapepod::error::Error;
use escapepod::proto::{FdType, MemoryMappingData};

fn raw_map(start: u64, end: u64, vvar: bool) -> RawMapping {
    RawMapping { start, end, perm: 5, is_vvar: vvar }
}

fn small_tree() -> RawProcess {
    RawProcess {
        pid: 100,
        mmaps: vec![
            raw_map(0x1000, 0x3000, false),
            raw_map(0x4000, 0x5000, true),
            raw_map(0x6000, 0x7000, false),
        ],
        fds: vec![
            RawFd { fd: 0, mode: 0, target: RawFdTarget::Path(b"/dev/null".to_vec()) },
            RawFd { fd: 3, mode: 0, target: RawFdTarget::Pipe(555) },
        ],
        threads: vec![RawThread {
            tid: 100,
            uid: 0,
            gid: 0,
            reg: vec![1, 2, 3],
            children: vec![RawProcess {
                pid: 101,
                mmaps: vec![raw_map(0x1000, 0x2000, false)],
                fds: vec![],
                threads: vec![],
            }],
        }],
    }
}

#[test]
fn classify_path_and_pipe() {
    let f = RawFd { fd: 4, mode: 7, target: RawFdTarget::Path(b"/tmp/x".to_vec()) };
    let fd = classify_fd(&f).unwrap();
    assert_eq!(fd.fd, 4);
    assert_eq!(fd.mode, 7);
    match fd.ty {
        FdType::File(g) => {
            assert_eq!(g.file, b"/tmp/x".to_vec());
            assert_eq!(g.position, 0);
        }
        other => panic!("wrong class: {other:?}"),
    }

    let p = RawFd { fd: 5, mode: 0, target: RawFdTarget::Pipe(88) };
    match classify_fd(&p).unwrap().ty {
        FdType::Pipe(h) => assert_eq!(h.pipe_id, 88),
        other => panic!("wrong class: {other:?}"),
    }
}

#[test]
fn sockets_are_unsupported() {
    let s = RawFd { fd: 6, mode: 0, target: RawFdTarget::Socket(12) };
    assert_eq!(classify_fd(&s).unwrap_err(), Error::CaptureUnsupported);
    let a = RawFd { fd: 7, mode: 0, target: RawFdTarget::AnonInode(b"eventfd".to_vec()) };
    assert_eq!(classify_fd(&a).unwrap_err(), Error::CaptureUnsupported);
}

#[test]
fn parse_assigns_consecutive_ids() {
    let raw = small_tree();
    let mut counter: u32 = 10;
    let p = parse_proc_recursive(&raw, &mut counter).unwrap();
    assert_eq!(counter, 13);
    assert_eq!(p.pid, 100);
    assert_eq!(p.mmaps.len(), 3);
    match p.mmaps[0].data {
        MemoryMappingData::Buffer(id) => assert_eq!(id, 10),
        ref other => panic!("wrong data: {other:?}"),
    }
    assert_eq!(p.mmaps[1].data, MemoryMappingData::KernelVvar);
    match p.mmaps[2].data {
        MemoryMappingData::Buffer(id) => assert_eq!(id, 11),
        ref other => panic!("wrong data: {other:?}"),
    }
    // The child's single mapping takes the next id.
    let child = &p.threads[0].children[0];
    match child.mmaps[0].data {
        MemoryMappingData::Buffer(id) => assert_eq!(id, 12),
        ref other => panic!("wrong data: {other:?}"),
    }
    // No two buffer ids repeat anywhere in the snapshot.
    let mut ids = vec![];
    for q in p.self_and_descendents() {
        for m in &q.mmaps {
            if let MemoryMappingData::Buffer(id) = m.data {
                ids.push(id);
            }
        }
    }
    let mut sorted = ids.clone();
    sorted.sort();
    sorted.dedup();
    assert_eq!(sorted.len(), ids.len());
}

#[test]
fn parse_rejects_unsupported_descriptor() {
    let mut raw = small_tree();
    raw.threads[0].children[0].fds =
        vec![RawFd { fd: 1, mode: 0, target: RawFdTarget::MemFd(b"shm".to_vec()) }];
    let mut counter: u32 = 0;
    assert_eq!(parse_proc_recursive(&raw, &mut counter).unwrap_err(), Error::CaptureUnsupported);
}

#[test]
fn freeze_returns_one_root() {
    let raw = small_tree();
    let mut counter: u32 = 0;
    let procs = freeze(&raw, &mut counter).unwrap();
    assert_eq!(procs.len(), 1);
    assert_eq!(procs[0].pid, 100);
    assert_eq!(procs[0].self_and_descendents().len(), 2);
}

#[test]
fn freeze_schedule_stops_before_collect() {
    let tree = PidTree {
        pid: 1,
        children: vec![
            PidTree { pid: 2, children: vec![] },
            PidTree { pid: 3, children: vec![PidTree { pid: 4, children: vec![] }] },
        ],
    };
    let mut steps = vec![];
    freeze_proc_recursive(&tree, &mut steps);
    assert_eq!(
        steps,
        vec![
            FreezeStep::Stop(1),
            FreezeStep::Stop(2),
            FreezeStep::Collect(2),
            FreezeStep::Stop(3),
            FreezeStep::Stop(4),
            FreezeStep::Collect(4),
            FreezeStep::Collect(3),
            FreezeStep::Collect(1),
        ]
    );
}

#[test]
fn partial_memory_read_is_rejected() {
    let ok = buffer_from_read(9, 4, vec![1, 2, 3, 4]).unwrap();
    assert_eq!(ok.buffer, 9);
    assert_eq!(ok.buf, vec![1, 2, 3, 4]);
    assert_eq!(buffer_from_read(9, 4, vec![1, 2, 3]).unwrap_err(), Error::MemoryRead);
}
