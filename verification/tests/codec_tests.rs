use escapepod::codec::{decode_message, encode_message};
use escapepod::error::Error;
use escapepod::proto::{
    Buffer, EscapeeMessage, Fd, FdFile, FdPipe, FdSocketIp, FdSocketUnix, FdType, File, FileData,
    MappedFile, MemoryMapping, MemoryMappingData, Process, SockAddr, Thread,
};

fn sample_process() -> Process {
    Process {
        pid: 4242,
        mmaps: vec![
            MemoryMapping {
                address: 0x1000,
                len: 0x2000,
                perm: 5,
                data: MemoryMappingData::Buffer(7),
            },
            MemoryMapping {
                address: 0x5000,
                len: 0x1000,
                perm: 3,
                data: MemoryMappingData::File(MappedFile { fd: 3, offset: 64 }),
            },
            MemoryMapping {
                address: 0x9000,
                len: 0x1000,
                perm: 1,
                data: MemoryMappingData::KernelVvar,
            },
        ],
        fd_table: vec![
            Fd {
                fd: 0,
                mode: 0o600,
                ty: FdType::File(FdFile { file: b"/dev/null".to_vec(), position: 12 }),
            },
            Fd { fd: 1, mode: 0, ty: FdType::Pipe(FdPipe { pipe_id: 991 }) },
            Fd {
                fd: 2,
                mode: 0,
                ty: FdType::SocketUnix(FdSocketUnix::Connect(b"/tmp/sock".to_vec())),
            },
            Fd {
                fd: 5,
                mode: 0,
                ty: FdType::SocketIp(FdSocketIp::Bind(SockAddr::V4 {
                    ip: 0x7f000001,
                    port: 8080,
                })),
            },
        ],
        threads: vec![Thread {
            tid: 4242,
            uid: 1000,
            gid: 1000,
            reg: vec![1, 2, 3, 4, 5, 6, 7, 8],
            children: vec![Process {
                pid: 4300,
                mmaps: vec![],
                fd_table: vec![],
                threads: vec![Thread {
                    tid: 4300,
                    uid: 1000,
                    gid: 1000,
                    reg: vec![9, 9],
                    children: vec![],
                }],
            }],
        }],
    }
}

#[test]
fn round_trip_process_trees() {
    let msg = EscapeeMessage::ProcessTrees(vec![sample_process()]);
    let bytes = encode_message(&msg);
    let (back, used) = decode_message(&bytes, 0).unwrap();
    assert_eq!(used, bytes.len());
    assert_eq!(back, msg);
}

#[test]
fn round_trip_buffer() {
    let msg = EscapeeMessage::Buffer(Buffer { buffer: 7, buf: vec![0xde, 0xad, 0xbe, 0xef] });
    let bytes = encode_message(&msg);
    let (back, used) = decode_message(&bytes, 0).unwrap();
    assert_eq!(used, bytes.len());
    assert_eq!(back, msg);
}

#[test]
fn round_trip_file_and_data() {
    let msg = EscapeeMessage::File(File {
        id: 3,
        uid: 1000,
        gid: 100,
        mode: 0o644,
        path: b"/etc/hosts".to_vec(),
    });
    let bytes = encode_message(&msg);
    let (back, _) = decode_message(&bytes, 0).unwrap();
    assert_eq!(back, msg);

    let msg = EscapeeMessage::FileData(FileData { id: 3, data: vec![104, 105] });
    let bytes = encode_message(&msg);
    let (back, _) = decode_message(&bytes, 0).unwrap();
    assert_eq!(back, msg);
}

#[test]
fn round_trip_done() {
    let msg = EscapeeMessage::Done;
    let bytes = encode_message(&msg);
    assert_eq!(bytes, vec![4u8]);
    let (back, used) = decode_message(&bytes, 0).unwrap();
    assert_eq!(used, 1);
    assert_eq!(back, msg);
}

#[test]
fn round_trip_v6_endpoint() {
    let msg = EscapeeMessage::ProcessTrees(vec![Process {
        pid: 1,
        mmaps: vec![],
        fd_table: vec![Fd {
            fd: 9,
            mode: 2,
            ty: FdType::SocketIp(FdSocketIp::Connect(SockAddr::V6 {
                ip_hi: 0xfe80_0000_0000_0001,
                ip_lo: 0x0000_0000_0000_00aa,
                port: 443,
            })),
        }],
        threads: vec![],
    }]);
    let bytes = encode_message(&msg);
    let (back, _) = decode_message(&bytes, 0).unwrap();
    assert_eq!(back, msg);
}

#[test]
fn codec_stability_is_bitwise() {
    // Encode, decode, and encode again: the two encodings are identical.
    let msg = EscapeeMessage::ProcessTrees(vec![sample_process(), sample_process()]);
    let bytes = encode_message(&msg);
    let (back, _) = decode_message(&bytes, 0).unwrap();
    let bytes2 = encode_message(&back);
    assert_eq!(bytes, bytes2);
}

#[test]
fn empty_input_is_truncated() {
    let bytes: Vec<u8> = vec![];
    assert_eq!(decode_message(&bytes, 0).unwrap_err(), Error::Truncated);
}

#[test]
fn unknown_tag_is_malformed() {
    let bytes: Vec<u8> = vec![9];
    assert_eq!(decode_message(&bytes, 0).unwrap_err(), Error::Malformed);
}

#[test]
fn short_message_is_truncated() {
    let msg = EscapeeMessage::Buffer(Buffer { buffer: 1, buf: vec![1, 2, 3, 4, 5, 6, 7] });
    let mut bytes = encode_message(&msg);
    bytes.pop();
    assert_eq!(decode_message(&bytes, 0).unwrap_err(), Error::Truncated);
}

#[test]
fn non_minimal_count_is_malformed() {
    // A buffer whose byte count three is sent in the 16-bit form: the
    // prefix is not minimal and must be rejected.
    let bytes: Vec<u8> = vec![1, 1, 0, 0, 0, 251, 3, 0, 1, 2, 3];
    assert_eq!(decode_message(&bytes, 0).unwrap_err(), Error::Malformed);
}

#[test]
fn large_buffer_uses_wide_count() {
    let msg = EscapeeMessage::Buffer(Buffer { buffer: 2, buf: vec![0xab; 300] });
    let bytes = encode_message(&msg);
    // tag, four id bytes, then the 16-bit count marker.
    assert_eq!(bytes[5], 251);
    assert_eq!(bytes[6], 44);
    assert_eq!(bytes[7], 1);
    let (back, _) = decode_message(&bytes, 0).unwrap();
    assert_eq!(back, msg);
}

#[test]
fn messages_decode_back_to_back() {
    let first = EscapeeMessage::Buffer(Buffer { buffer: 1, buf: vec![1, 2] });
    let second = EscapeeMessage::Done;
    let mut bytes = encode_message(&first);
    bytes.extend_from_slice(&encode_message(&second));
    let (a, p1) = decode_message(&bytes, 0).unwrap();
    let (b, p2) = decode_message(&bytes, p1).unwrap();
    assert_eq!(a, first);
    assert_eq!(b, second);
    assert_eq!(p2, bytes.len());
}
