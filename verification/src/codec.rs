//! Wire codec: the canonical binary encoding of `EscapeeMessage`.
//!
//! Integers travel in fixed little-endian widths; sequences carry a
//! variable-length count prefix. Decoding is driven by the schema alone:
//! no length frame surrounds a message, so a buffered reader can pull
//! messages off a byte stream back to back.
//!
//! The specification-level encoder `enc_msg` and decoder `sdec_msg` are the
//! reference; the executable `encode_message` and `decode_message` are
//! proved equal to them, and `lemma_decode_encode` proves the round trip.

use vstd::prelude::*;

use crate::error::Error;
use crate::wire::{
    Dec, enc_bytes, enc_i32, enc_u16, enc_u32, enc_u64, enc_varint, lemma_rt_bytes,
    lemma_rt_i32, lemma_rt_u16, lemma_rt_u32, lemma_rt_u64, lemma_rt_varint, sdec_bytes,
    sdec_i32, sdec_u16, sdec_u32, sdec_u64, sdec_varint, push_bytes, push_i32, push_u16,
    push_u32, push_u64, push_varint, take_bytes, take_i32, take_u16, take_u32, take_u64,
    take_varint,
};
use crate::proto::{
    Buffer, BufferV, EscapeeMessage, Fd, FdFile, FdFileV, FdPipe, FdPipeV, FdSocketIp,
    FdSocketUnix, FdType, FdTypeV, FdV, File, FileData, FileDataV, FileV, MappedFile,
    MappedFileV, MemoryMapping, MemoryMappingData, MmapDataV, MmapV, MsgV, Process, ProcessV,
    SockAddr, SockAddrV, SockIpV, SockUnixV, Thread, ThreadV, dv_fds, dv_mmaps, dv_processes,
    dv_threads, lemma_dv_fds, lemma_dv_mmaps, lemma_dv_processes, lemma_dv_threads,
    lemma_dv_fds_snoc, lemma_dv_mmaps_snoc, lemma_dv_processes_snoc, lemma_dv_threads_snoc,
};

verus! {

broadcast use vstd::std_specs::vec::group_vec_axioms, crate::wire::lemma_enc_u16_len,
    crate::wire::lemma_enc_u32_len, crate::wire::lemma_enc_u64_len,
    crate::wire::lemma_enc_varint_len, crate::wire::lemma_enc_bytes_len;

// ---------------------------------------------------------------------------
// Message encoding: specification
// ---------------------------------------------------------------------------

pub open spec fn enc_sockaddr(a: SockAddrV) -> Seq<u8> {
    match a {
        SockAddrV::V4 { ip, port } => seq![0u8] + enc_u32(ip) + enc_u16(port),
        SockAddrV::V6 { ip_hi, ip_lo, port } => seq![1u8] + enc_u64(ip_hi) + enc_u64(ip_lo)
            + enc_u16(port),
    }
}

pub open spec fn enc_sockunix(u: SockUnixV) -> Seq<u8> {
    match u {
        SockUnixV::Bind(p) => seq![0u8] + enc_bytes(p),
        SockUnixV::Connect(p) => seq![1u8] + enc_bytes(p),
    }
}

pub open spec fn enc_sockip(i: SockIpV) -> Seq<u8> {
    match i {
        SockIpV::Bind(a) => seq![0u8] + enc_sockaddr(a),
        SockIpV::Connect(a) => seq![1u8] + enc_sockaddr(a),
    }
}

pub open spec fn enc_fdtype(t: FdTypeV) -> Seq<u8> {
    match t {
        FdTypeV::File(f) => seq![0u8] + enc_bytes(f.file) + enc_u64(f.position),
        FdTypeV::Pipe(p) => seq![1u8] + enc_u64(p.pipe_id),
        FdTypeV::SocketUnix(u) => seq![2u8] + enc_sockunix(u),
        FdTypeV::SocketIp(i) => seq![3u8] + enc_sockip(i),
    }
}

pub open spec fn enc_fd(f: FdV) -> Seq<u8> {
    enc_i32(f.fd) + enc_u32(f.mode) + enc_fdtype(f.ty)
}

pub open spec fn enc_fd_list(s: Seq<FdV>) -> Seq<u8>
    decreases s,
{
    if s.len() == 0 {
        Seq::empty()
    } else {
        enc_fd(s[0]) + enc_fd_list(s.skip(1))
    }
}

pub open spec fn enc_fds(s: Seq<FdV>) -> Seq<u8> {
    enc_varint(s.len()) + enc_fd_list(s)
}

pub open spec fn enc_mmapdata(d: MmapDataV) -> Seq<u8> {
    match d {
        MmapDataV::Buffer(id) => seq![0u8] + enc_u32(id),
        MmapDataV::File(f) => seq![1u8] + enc_i32(f.fd) + enc_u64(f.offset),
        MmapDataV::KernelVvar => seq![2u8],
    }
}

pub open spec fn enc_mmap(m: MmapV) -> Seq<u8> {
    enc_u64(m.address) + enc_u64(m.len) + enc_i32(m.perm) + enc_mmapdata(m.data)
}

pub open spec fn enc_mmap_list(s: Seq<MmapV>) -> Seq<u8>
    decreases s,
{
    if s.len() == 0 {
        Seq::empty()
    } else {
        enc_mmap(s[0]) + enc_mmap_list(s.skip(1))
    }
}

pub open spec fn enc_mmaps(s: Seq<MmapV>) -> Seq<u8> {
    enc_varint(s.len()) + enc_mmap_list(s)
}

pub open spec fn enc_thread(t: ThreadV) -> Seq<u8>
    decreases t, 0int,
{
    enc_i32(t.tid) + enc_u32(t.uid) + enc_u32(t.gid) + enc_bytes(t.reg) + enc_processes(
        t.children,
    )
}

pub open spec fn enc_thread_list(s: Seq<ThreadV>) -> Seq<u8>
    decreases s, 0int,
{
    if s.len() == 0 {
        Seq::empty()
    } else {
        enc_thread(s[0]) + enc_thread_list(s.skip(1))
    }
}

pub open spec fn enc_threads(s: Seq<ThreadV>) -> Seq<u8>
    decreases s, 1int,
{
    enc_varint(s.len()) + enc_thread_list(s)
}

pub open spec fn enc_process(p: ProcessV) -> Seq<u8>
    decreases p, 0int,
{
    enc_i32(p.pid) + enc_mmaps(p.mmaps) + enc_fds(p.fd_table) + enc_threads(p.threads)
}

pub open spec fn enc_process_list(s: Seq<ProcessV>) -> Seq<u8>
    decreases s, 0int,
{
    if s.len() == 0 {
        Seq::empty()
    } else {
        enc_process(s[0]) + enc_process_list(s.skip(1))
    }
}

pub open spec fn enc_processes(s: Seq<ProcessV>) -> Seq<u8>
    decreases s, 1int,
{
    enc_varint(s.len()) + enc_process_list(s)
}

pub open spec fn enc_buffer(b: BufferV) -> Seq<u8> {
    enc_u32(b.buffer) + enc_bytes(b.buf)
}

pub open spec fn enc_file(f: FileV) -> Seq<u8> {
    enc_u32(f.id) + enc_u32(f.uid) + enc_u32(f.gid) + enc_u32(f.mode) + enc_bytes(f.path)
}

pub open spec fn enc_filedata(d: FileDataV) -> Seq<u8> {
    enc_u32(d.id) + enc_bytes(d.data)
}

pub open spec fn enc_msg(m: MsgV) -> Seq<u8> {
    match m {
        MsgV::ProcessTrees(ps) => seq![0u8] + enc_processes(ps),
        MsgV::Buffer(b) => seq![1u8] + enc_buffer(b),
        MsgV::File(f) => seq![2u8] + enc_file(f),
        MsgV::FileData(d) => seq![3u8] + enc_filedata(d),
        MsgV::Done => seq![4u8],
    }
}

// ---------------------------------------------------------------------------
// Well-formed views: every count fits the largest wire width
// ---------------------------------------------------------------------------

pub open spec fn wf_len(n: nat) -> bool {
    n <= 0xffff_ffff_ffff_ffff
}

pub open spec fn wf_fd(f: FdV) -> bool {
    match f.ty {
        FdTypeV::File(g) => wf_len(g.file.len()),
        FdTypeV::Pipe(_) => true,
        FdTypeV::SocketUnix(SockUnixV::Bind(p)) => wf_len(p.len()),
        FdTypeV::SocketUnix(SockUnixV::Connect(p)) => wf_len(p.len()),
        FdTypeV::SocketIp(_) => true,
    }
}

pub open spec fn wf_fd_seq(s: Seq<FdV>) -> bool {
    wf_len(s.len()) && forall|i: int| 0 <= i < s.len() ==> wf_fd(#[trigger] s[i])
}

pub open spec fn wf_thread(t: ThreadV) -> bool
    decreases t, 0int,
{
    wf_len(t.reg.len()) && wf_len(t.children.len()) && wf_process_list(t.children)
}

pub open spec fn wf_thread_list(s: Seq<ThreadV>) -> bool
    decreases s, 1int,
{
    if s.len() == 0 {
        true
    } else {
        wf_thread(s[0]) && wf_thread_list(s.skip(1))
    }
}

pub open spec fn wf_process(p: ProcessV) -> bool
    decreases p, 0int,
{
    wf_len(p.mmaps.len()) && wf_fd_seq(p.fd_table) && wf_len(p.threads.len())
        && wf_thread_list(p.threads)
}

pub open spec fn wf_process_list(s: Seq<ProcessV>) -> bool
    decreases s, 1int,
{
    if s.len() == 0 {
        true
    } else {
        wf_process(s[0]) && wf_process_list(s.skip(1))
    }
}

pub open spec fn wf_msg(m: MsgV) -> bool {
    match m {
        MsgV::ProcessTrees(ps) => wf_len(ps.len()) && wf_process_list(ps),
        MsgV::Buffer(b) => wf_len(b.buf.len()),
        MsgV::File(f) => wf_len(f.path.len()),
        MsgV::FileData(d) => wf_len(d.data.len()),
        MsgV::Done => true,
    }
}

// ---------------------------------------------------------------------------
// Message decoding: specification
// ---------------------------------------------------------------------------

pub open spec fn sdec_sockaddr(s: Seq<u8>) -> Dec<SockAddrV> {
    if s.len() < 1 {
        Dec::Short
    } else if s[0] == 0 {
        match sdec_u32(s.skip(1)) {
            Dec::Val(ip, _) => match sdec_u16(s.skip(5)) {
                Dec::Val(port, _) => Dec::Val(SockAddrV::V4 { ip, port }, 7),
                Dec::Short => Dec::Short,
                Dec::Bad => Dec::Bad,
            },
            Dec::Short => Dec::Short,
            Dec::Bad => Dec::Bad,
        }
    } else if s[0] == 1 {
        match sdec_u64(s.skip(1)) {
            Dec::Val(ip_hi, _) => match sdec_u64(s.skip(9)) {
                Dec::Val(ip_lo, _) => match sdec_u16(s.skip(17)) {
                    Dec::Val(port, _) => Dec::Val(SockAddrV::V6 { ip_hi, ip_lo, port }, 19),
                    Dec::Short => Dec::Short,
                    Dec::Bad => Dec::Bad,
                },
                Dec::Short => Dec::Short,
                Dec::Bad => Dec::Bad,
            },
            Dec::Short => Dec::Short,
            Dec::Bad => Dec::Bad,
        }
    } else {
        Dec::Bad
    }
}

pub open spec fn sdec_sockunix(s: Seq<u8>) -> Dec<SockUnixV> {
    if s.len() < 1 {
        Dec::Short
    } else if s[0] == 0 || s[0] == 1 {
        match sdec_bytes(s.skip(1)) {
            Dec::Val(p, u) => Dec::Val(
                if s[0] == 0 {
                    SockUnixV::Bind(p)
                } else {
                    SockUnixV::Connect(p)
                },
                1 + u,
            ),
            Dec::Short => Dec::Short,
            Dec::Bad => Dec::Bad,
        }
    } else {
        Dec::Bad
    }
}

pub open spec fn sdec_sockip(s: Seq<u8>) -> Dec<SockIpV> {
    if s.len() < 1 {
        Dec::Short
    } else if s[0] == 0 || s[0] == 1 {
        match sdec_sockaddr(s.skip(1)) {
            Dec::Val(a, u) => Dec::Val(
                if s[0] == 0 {
                    SockIpV::Bind(a)
                } else {
                    SockIpV::Connect(a)
                },
                1 + u,
            ),
            Dec::Short => Dec::Short,
            Dec::Bad => Dec::Bad,
        }
    } else {
        Dec::Bad
    }
}

pub open spec fn sdec_fdtype(s: Seq<u8>) -> Dec<FdTypeV> {
    if s.len() < 1 {
        Dec::Short
    } else if s[0] == 0 {
        match sdec_bytes(s.skip(1)) {
            Dec::Val(file, u) => match sdec_u64(s.skip(1 + u as int)) {
                Dec::Val(position, _) => Dec::Val(
                    FdTypeV::File(FdFileV { file, position }),
                    1 + u + 8,
                ),
                Dec::Short => Dec::Short,
                Dec::Bad => Dec::Bad,
            },
            Dec::Short => Dec::Short,
            Dec::Bad => Dec::Bad,
        }
    } else if s[0] == 1 {
        match sdec_u64(s.skip(1)) {
            Dec::Val(pipe_id, _) => Dec::Val(FdTypeV::Pipe(FdPipeV { pipe_id }), 9),
            Dec::Short => Dec::Short,
            Dec::Bad => Dec::Bad,
        }
    } else if s[0] == 2 {
        match sdec_sockunix(s.skip(1)) {
            Dec::Val(u, n) => Dec::Val(FdTypeV::SocketUnix(u), 1 + n),
            Dec::Short => Dec::Short,
            Dec::Bad => Dec::Bad,
        }
    } else if s[0] == 3 {
        match sdec_sockip(s.skip(1)) {
            Dec::Val(i, n) => Dec::Val(FdTypeV::SocketIp(i), 1 + n),
            Dec::Short => Dec::Short,
            Dec::Bad => Dec::Bad,
        }
    } else {
        Dec::Bad
    }
}

pub open spec fn sdec_fd(s: Seq<u8>) -> Dec<FdV> {
    match sdec_i32(s) {
        Dec::Val(fd, _) => match sdec_u32(s.skip(4)) {
            Dec::Val(mode, _) => match sdec_fdtype(s.skip(8)) {
                Dec::Val(ty, u) => Dec::Val(FdV { fd, mode, ty }, 8 + u),
                Dec::Short => Dec::Short,
                Dec::Bad => Dec::Bad,
            },
            Dec::Short => Dec::Short,
            Dec::Bad => Dec::Bad,
        },
        Dec::Short => Dec::Short,
        Dec::Bad => Dec::Bad,
    }
}

pub open spec fn sdec_fd_list(s: Seq<u8>, n: nat) -> Dec<Seq<FdV>>
    decreases s.len(), n,
{
    if n == 0 {
        Dec::Val(Seq::empty(), 0)
    } else {
        match sdec_fd(s) {
            Dec::Val(v, u) => if u <= s.len() {
                match sdec_fd_list(s.skip(u as int), (n - 1) as nat) {
                    Dec::Val(vs, u2) => Dec::Val(seq![v] + vs, u + u2),
                    Dec::Short => Dec::Short,
                    Dec::Bad => Dec::Bad,
                }
            } else {
                Dec::Bad
            },
            Dec::Short => Dec::Short,
            Dec::Bad => Dec::Bad,
        }
    }
}

pub open spec fn sdec_fds(s: Seq<u8>) -> Dec<Seq<FdV>> {
    match sdec_varint(s) {
        Dec::Val(n, u) => if 1 <= u <= s.len() {
            match sdec_fd_list(s.skip(u as int), n) {
                Dec::Val(vs, u2) => Dec::Val(vs, u + u2),
                Dec::Short => Dec::Short,
                Dec::Bad => Dec::Bad,
            }
        } else {
            Dec::Bad
        },
        Dec::Short => Dec::Short,
        Dec::Bad => Dec::Bad,
    }
}

pub open spec fn sdec_mmapdata(s: Seq<u8>) -> Dec<MmapDataV> {
    if s.len() < 1 {
        Dec::Short
    } else if s[0] == 0 {
        match sdec_u32(s.skip(1)) {
            Dec::Val(id, _) => Dec::Val(MmapDataV::Buffer(id), 5),
            Dec::Short => Dec::Short,
            Dec::Bad => Dec::Bad,
        }
    } else if s[0] == 1 {
        match sdec_i32(s.skip(1)) {
            Dec::Val(fd, _) => match sdec_u64(s.skip(5)) {
                Dec::Val(offset, _) => Dec::Val(MmapDataV::File(MappedFileV { fd, offset }), 13),
                Dec::Short => Dec::Short,
                Dec::Bad => Dec::Bad,
            },
            Dec::Short => Dec::Short,
            Dec::Bad => Dec::Bad,
        }
    } else if s[0] == 2 {
        Dec::Val(MmapDataV::KernelVvar, 1)
    } else {
        Dec::Bad
    }
}

pub open spec fn sdec_mmap(s: Seq<u8>) -> Dec<MmapV> {
    match sdec_u64(s) {
        Dec::Val(address, _) => match sdec_u64(s.skip(8)) {
            Dec::Val(len, _) => match sdec_i32(s.skip(16)) {
                Dec::Val(perm, _) => match sdec_mmapdata(s.skip(20)) {
                    Dec::Val(data, u) => Dec::Val(MmapV { address, len, perm, data }, 20 + u),
                    Dec::Short => Dec::Short,
                    Dec::Bad => Dec::Bad,
                },
                Dec::Short => Dec::Short,
                Dec::Bad => Dec::Bad,
            },
            Dec::Short => Dec::Short,
            Dec::Bad => Dec::Bad,
        },
        Dec::Short => Dec::Short,
        Dec::Bad => Dec::Bad,
    }
}

pub open spec fn sdec_mmap_list(s: Seq<u8>, n: nat) -> Dec<Seq<MmapV>>
    decreases s.len(), n,
{
    if n == 0 {
        Dec::Val(Seq::empty(), 0)
    } else {
        match sdec_mmap(s) {
            Dec::Val(v, u) => if u <= s.len() {
                match sdec_mmap_list(s.skip(u as int), (n - 1) as nat) {
                    Dec::Val(vs, u2) => Dec::Val(seq![v] + vs, u + u2),
                    Dec::Short => Dec::Short,
                    Dec::Bad => Dec::Bad,
                }
            } else {
                Dec::Bad
            },
            Dec::Short => Dec::Short,
            Dec::Bad => Dec::Bad,
        }
    }
}

pub open spec fn sdec_mmaps(s: Seq<u8>) -> Dec<Seq<MmapV>> {
    match sdec_varint(s) {
        Dec::Val(n, u) => if 1 <= u <= s.len() {
            match sdec_mmap_list(s.skip(u as int), n) {
                Dec::Val(vs, u2) => Dec::Val(vs, u + u2),
                Dec::Short => Dec::Short,
                Dec::Bad => Dec::Bad,
            }
        } else {
            Dec::Bad
        },
        Dec::Short => Dec::Short,
        Dec::Bad => Dec::Bad,
    }
}

pub open spec fn sdec_thread(s: Seq<u8>) -> Dec<ThreadV>
    decreases s.len(), 0int, 0int,
{
    match sdec_i32(s) {
        Dec::Val(tid, _) => match sdec_u32(s.skip(4)) {
            Dec::Val(uid, _) => match sdec_u32(s.skip(8)) {
                Dec::Val(gid, _) => match sdec_bytes(s.skip(12)) {
                    Dec::Val(reg, ur) => if 12 + ur <= s.len() {
                        match sdec_processes(s.skip(12 + ur as int)) {
                            Dec::Val(children, uc) => Dec::Val(
                                ThreadV { tid, uid, gid, reg, children },
                                12 + ur + uc,
                            ),
                            Dec::Short => Dec::Short,
                            Dec::Bad => Dec::Bad,
                        }
                    } else {
                        Dec::Bad
                    },
                    Dec::Short => Dec::Short,
                    Dec::Bad => Dec::Bad,
                },
                Dec::Short => Dec::Short,
                Dec::Bad => Dec::Bad,
            },
            Dec::Short => Dec::Short,
            Dec::Bad => Dec::Bad,
        },
        Dec::Short => Dec::Short,
        Dec::Bad => Dec::Bad,
    }
}

pub open spec fn sdec_thread_list(s: Seq<u8>, n: nat) -> Dec<Seq<ThreadV>>
    decreases s.len(), 1int, n,
{
    if n == 0 {
        Dec::Val(Seq::empty(), 0)
    } else {
        match sdec_thread(s) {
            Dec::Val(v, u) => if u <= s.len() {
                match sdec_thread_list(s.skip(u as int), (n - 1) as nat) {
                    Dec::Val(vs, u2) => Dec::Val(seq![v] + vs, u + u2),
                    Dec::Short => Dec::Short,
                    Dec::Bad => Dec::Bad,
                }
            } else {
                Dec::Bad
            },
            Dec::Short => Dec::Short,
            Dec::Bad => Dec::Bad,
        }
    }
}

pub open spec fn sdec_threads(s: Seq<u8>) -> Dec<Seq<ThreadV>>
    decreases s.len(), 2int, 0int,
{
    match sdec_varint(s) {
        Dec::Val(n, u) => if 1 <= u <= s.len() {
            match sdec_thread_list(s.skip(u as int), n) {
                Dec::Val(vs, u2) => Dec::Val(vs, u + u2),
                Dec::Short => Dec::Short,
                Dec::Bad => Dec::Bad,
            }
        } else {
            Dec::Bad
        },
        Dec::Short => Dec::Short,
        Dec::Bad => Dec::Bad,
    }
}

pub open spec fn sdec_process(s: Seq<u8>) -> Dec<ProcessV>
    decreases s.len(), 3int, 0int,
{
    match sdec_i32(s) {
        Dec::Val(pid, _) => match sdec_mmaps(s.skip(4)) {
            Dec::Val(mmaps, um) => if 4 + um <= s.len() {
                match sdec_fds(s.skip(4 + um as int)) {
                    Dec::Val(fd_table, uf) => if 4 + um + uf <= s.len() {
                        match sdec_threads(s.skip(4 + um + uf as int)) {
                            Dec::Val(threads, ut) => Dec::Val(
                                ProcessV { pid, mmaps, fd_table, threads },
                                4 + um + uf + ut,
                            ),
                            Dec::Short => Dec::Short,
                            Dec::Bad => Dec::Bad,
                        }
                    } else {
                        Dec::Bad
                    },
                    Dec::Short => Dec::Short,
                    Dec::Bad => Dec::Bad,
                }
            } else {
                Dec::Bad
            },
            Dec::Short => Dec::Short,
            Dec::Bad => Dec::Bad,
        },
        Dec::Short => Dec::Short,
        Dec::Bad => Dec::Bad,
    }
}

pub open spec fn sdec_process_list(s: Seq<u8>, n: nat) -> Dec<Seq<ProcessV>>
    decreases s.len(), 4int, n,
{
    if n == 0 {
        Dec::Val(Seq::empty(), 0)
    } else {
        match sdec_process(s) {
            Dec::Val(v, u) => if u <= s.len() {
                match sdec_process_list(s.skip(u as int), (n - 1) as nat) {
                    Dec::Val(vs, u2) => Dec::Val(seq![v] + vs, u + u2),
                    Dec::Short => Dec::Short,
                    Dec::Bad => Dec::Bad,
                }
            } else {
                Dec::Bad
            },
            Dec::Short => Dec::Short,
            Dec::Bad => Dec::Bad,
        }
    }
}

pub open spec fn sdec_processes(s: Seq<u8>) -> Dec<Seq<ProcessV>>
    decreases s.len(), 5int, 0int,
{
    match sdec_varint(s) {
        Dec::Val(n, u) => if 1 <= u <= s.len() {
            match sdec_process_list(s.skip(u as int), n) {
                Dec::Val(vs, u2) => Dec::Val(vs, u + u2),
                Dec::Short => Dec::Short,
                Dec::Bad => Dec::Bad,
            }
        } else {
            Dec::Bad
        },
        Dec::Short => Dec::Short,
        Dec::Bad => Dec::Bad,
    }
}

pub open spec fn sdec_buffer(s: Seq<u8>) -> Dec<BufferV> {
    match sdec_u32(s) {
        Dec::Val(buffer, _) => match sdec_bytes(s.skip(4)) {
            Dec::Val(buf, u) => Dec::Val(BufferV { buffer, buf }, 4 + u),
            Dec::Short => Dec::Short,
            Dec::Bad => Dec::Bad,
        },
        Dec::Short => Dec::Short,
        Dec::Bad => Dec::Bad,
    }
}

pub open spec fn sdec_file(s: Seq<u8>) -> Dec<FileV> {
    match sdec_u32(s) {
        Dec::Val(id, _) => match sdec_u32(s.skip(4)) {
            Dec::Val(uid, _) => match sdec_u32(s.skip(8)) {
                Dec::Val(gid, _) => match sdec_u32(s.skip(12)) {
                    Dec::Val(mode, _) => match sdec_bytes(s.skip(16)) {
                        Dec::Val(path, u) => Dec::Val(
                            FileV { id, uid, gid, mode, path },
                            16 + u,
                        ),
                        Dec::Short => Dec::Short,
                        Dec::Bad => Dec::Bad,
                    },
                    Dec::Short => Dec::Short,
                    Dec::Bad => Dec::Bad,
                },
                Dec::Short => Dec::Short,
                Dec::Bad => Dec::Bad,
            },
            Dec::Short => Dec::Short,
            Dec::Bad => Dec::Bad,
        },
        Dec::Short => Dec::Short,
        Dec::Bad => Dec::Bad,
    }
}

pub open spec fn sdec_filedata(s: Seq<u8>) -> Dec<FileDataV> {
    match sdec_u32(s) {
        Dec::Val(id, _) => match sdec_bytes(s.skip(4)) {
            Dec::Val(data, u) => Dec::Val(FileDataV { id, data }, 4 + u),
            Dec::Short => Dec::Short,
            Dec::Bad => Dec::Bad,
        },
        Dec::Short => Dec::Short,
        Dec::Bad => Dec::Bad,
    }
}

pub open spec fn sdec_msg(s: Seq<u8>) -> Dec<MsgV> {
    if s.len() < 1 {
        Dec::Short
    } else if s[0] == 0 {
        match sdec_processes(s.skip(1)) {
            Dec::Val(ps, u) => Dec::Val(MsgV::ProcessTrees(ps), 1 + u),
            Dec::Short => Dec::Short,
            Dec::Bad => Dec::Bad,
        }
    } else if s[0] == 1 {
        match sdec_buffer(s.skip(1)) {
            Dec::Val(b, u) => Dec::Val(MsgV::Buffer(b), 1 + u),
            Dec::Short => Dec::Short,
            Dec::Bad => Dec::Bad,
        }
    } else if s[0] == 2 {
        match sdec_file(s.skip(1)) {
            Dec::Val(f, u) => Dec::Val(MsgV::File(f), 1 + u),
            Dec::Short => Dec::Short,
            Dec::Bad => Dec::Bad,
        }
    } else if s[0] == 3 {
        match sdec_filedata(s.skip(1)) {
            Dec::Val(d, u) => Dec::Val(MsgV::FileData(d), 1 + u),
            Dec::Short => Dec::Short,
            Dec::Bad => Dec::Bad,
        }
    } else if s[0] == 4 {
        Dec::Val(MsgV::Done, 1)
    } else {
        Dec::Bad
    }
}

// ---------------------------------------------------------------------------
// Round trip: decoding an encoding yields the encoded value
// ---------------------------------------------------------------------------

pub proof fn lemma_rt_sockaddr(a: SockAddrV, rest: Seq<u8>)
    ensures
        sdec_sockaddr(enc_sockaddr(a) + rest) == Dec::<SockAddrV>::Val(a, enc_sockaddr(a).len()),
{
    let s = enc_sockaddr(a) + rest;
    match a {
        SockAddrV::V4 { ip, port } => {
            assert(s[0] == 0u8);
            assert(s.skip(1) =~= enc_u32(ip) + (enc_u16(port) + rest));
            lemma_rt_u32(ip, enc_u16(port) + rest);
            assert(s.skip(5) =~= enc_u16(port) + rest);
            lemma_rt_u16(port, rest);
        },
        SockAddrV::V6 { ip_hi, ip_lo, port } => {
            assert(s[0] == 1u8);
            assert(s.skip(1) =~= enc_u64(ip_hi) + (enc_u64(ip_lo) + (enc_u16(port) + rest)));
            lemma_rt_u64(ip_hi, enc_u64(ip_lo) + (enc_u16(port) + rest));
            assert(s.skip(9) =~= enc_u64(ip_lo) + (enc_u16(port) + rest));
            lemma_rt_u64(ip_lo, enc_u16(port) + rest);
            assert(s.skip(17) =~= enc_u16(port) + rest);
            lemma_rt_u16(port, rest);
        },
    }
}

pub proof fn lemma_rt_sockunix(u: SockUnixV, rest: Seq<u8>)
    requires
        wf_len(u->Bind_0.len()) || u is Connect,
        wf_len(u->Connect_0.len()) || u is Bind,
    ensures
        sdec_sockunix(enc_sockunix(u) + rest) == Dec::<SockUnixV>::Val(u, enc_sockunix(u).len()),
{
    let s = enc_sockunix(u) + rest;
    match u {
        SockUnixV::Bind(p) => {
            assert(s[0] == 0u8);
            assert(s.skip(1) =~= enc_bytes(p) + rest);
            lemma_rt_bytes(p, rest);
        },
        SockUnixV::Connect(p) => {
            assert(s[0] == 1u8);
            assert(s.skip(1) =~= enc_bytes(p) + rest);
            lemma_rt_bytes(p, rest);
        },
    }
}

pub proof fn lemma_rt_sockip(i: SockIpV, rest: Seq<u8>)
    ensures
        sdec_sockip(enc_sockip(i) + rest) == Dec::<SockIpV>::Val(i, enc_sockip(i).len()),
{
    let s = enc_sockip(i) + rest;
    match i {
        SockIpV::Bind(a) => {
            assert(s[0] == 0u8);
            assert(s.skip(1) =~= enc_sockaddr(a) + rest);
            lemma_rt_sockaddr(a, rest);
        },
        SockIpV::Connect(a) => {
            assert(s[0] == 1u8);
            assert(s.skip(1) =~= enc_sockaddr(a) + rest);
            lemma_rt_sockaddr(a, rest);
        },
    }
}

#[verifier::rlimit(100)]
pub proof fn lemma_rt_fdtype(t: FdTypeV, rest: Seq<u8>)
    requires
        wf_fd(FdV { fd: 0, mode: 0, ty: t }),
    ensures
        sdec_fdtype(enc_fdtype(t) + rest) == Dec::<FdTypeV>::Val(t, enc_fdtype(t).len()),
{
    let s = enc_fdtype(t) + rest;
    match t {
        FdTypeV::File(f) => {
            assert(s[0] == 0u8);
            assert(s.skip(1) =~= enc_bytes(f.file) + (enc_u64(f.position) + rest));
            lemma_rt_bytes(f.file, enc_u64(f.position) + rest);
            let ub = enc_bytes(f.file).len();
            assert(s.skip(1 + ub as int) =~= enc_u64(f.position) + rest);
            lemma_rt_u64(f.position, rest);
        },
        FdTypeV::Pipe(p) => {
            assert(s[0] == 1u8);
            assert(s.skip(1) =~= enc_u64(p.pipe_id) + rest);
            lemma_rt_u64(p.pipe_id, rest);
        },
        FdTypeV::SocketUnix(u) => {
            assert(s[0] == 2u8);
            assert(s.skip(1) =~= enc_sockunix(u) + rest);
            lemma_rt_sockunix(u, rest);
        },
        FdTypeV::SocketIp(i) => {
            assert(s[0] == 3u8);
            assert(s.skip(1) =~= enc_sockip(i) + rest);
            lemma_rt_sockip(i, rest);
        },
    }
}

#[verifier::rlimit(100)]
pub proof fn lemma_rt_fd(f: FdV, rest: Seq<u8>)
    requires
        wf_fd(f),
    ensures
        sdec_fd(enc_fd(f) + rest) == Dec::<FdV>::Val(f, enc_fd(f).len()),
{
    let s = enc_fd(f) + rest;
    assert(s =~= enc_i32(f.fd) + (enc_u32(f.mode) + (enc_fdtype(f.ty) + rest)));
    lemma_rt_i32(f.fd, enc_u32(f.mode) + (enc_fdtype(f.ty) + rest));
    assert(s.skip(4) =~= enc_u32(f.mode) + (enc_fdtype(f.ty) + rest));
    lemma_rt_u32(f.mode, enc_fdtype(f.ty) + rest);
    assert(s.skip(8) =~= enc_fdtype(f.ty) + rest);
    lemma_rt_fdtype(f.ty, rest);
}

#[verifier::rlimit(100)]
pub proof fn lemma_rt_fd_list(fs: Seq<FdV>, rest: Seq<u8>)
    requires
        wf_fd_seq(fs),
    ensures
        sdec_fd_list(enc_fd_list(fs) + rest, fs.len()) == Dec::<Seq<FdV>>::Val(
            fs,
            enc_fd_list(fs).len(),
        ),
    decreases fs.len(),
{
    let s = enc_fd_list(fs) + rest;
    if fs.len() == 0 {
        assert(fs =~= Seq::<FdV>::empty());
    } else {
        let tail = fs.skip(1);
        assert(s =~= enc_fd(fs[0]) + (enc_fd_list(tail) + rest));
        lemma_rt_fd(fs[0], enc_fd_list(tail) + rest);
        let u0 = enc_fd(fs[0]).len();
        assert(s.skip(u0 as int) =~= enc_fd_list(tail) + rest);
        assert(wf_fd_seq(tail)) by {
            assert(forall|i: int| 0 <= i < tail.len() ==> tail[i] == #[trigger] fs[i + 1]);
        }
        lemma_rt_fd_list(tail, rest);
        assert(seq![fs[0]] + tail =~= fs);
    }
}

#[verifier::rlimit(100)]
pub proof fn lemma_rt_fds(fs: Seq<FdV>, rest: Seq<u8>)
    requires
        wf_fd_seq(fs),
    ensures
        sdec_fds(enc_fds(fs) + rest) == Dec::<Seq<FdV>>::Val(fs, enc_fds(fs).len()),
{
    let s = enc_fds(fs) + rest;
    assert(s =~= enc_varint(fs.len()) + (enc_fd_list(fs) + rest));
    lemma_rt_varint(fs.len(), enc_fd_list(fs) + rest);
    let u = enc_varint(fs.len()).len();
    assert(u >= 1);
    assert(s.skip(u as int) =~= enc_fd_list(fs) + rest);
    lemma_rt_fd_list(fs, rest);
}

pub proof fn lemma_rt_mmapdata(d: MmapDataV, rest: Seq<u8>)
    ensures
        sdec_mmapdata(enc_mmapdata(d) + rest) == Dec::<MmapDataV>::Val(d, enc_mmapdata(d).len()),
{
    let s = enc_mmapdata(d) + rest;
    match d {
        MmapDataV::Buffer(id) => {
            assert(s[0] == 0u8);
            assert(s.skip(1) =~= enc_u32(id) + rest);
            lemma_rt_u32(id, rest);
        },
        MmapDataV::File(f) => {
            assert(s[0] == 1u8);
            assert(s.skip(1) =~= enc_i32(f.fd) + (enc_u64(f.offset) + rest));
            lemma_rt_i32(f.fd, enc_u64(f.offset) + rest);
            assert(s.skip(5) =~= enc_u64(f.offset) + rest);
            lemma_rt_u64(f.offset, rest);
        },
        MmapDataV::KernelVvar => {
            assert(s[0] == 2u8);
        },
    }
}

#[verifier::rlimit(100)]
pub proof fn lemma_rt_mmap(m: MmapV, rest: Seq<u8>)
    ensures
        sdec_mmap(enc_mmap(m) + rest) == Dec::<MmapV>::Val(m, enc_mmap(m).len()),
{
    let s = enc_mmap(m) + rest;
    assert(s =~= enc_u64(m.address) + (enc_u64(m.len) + (enc_i32(m.perm) + (enc_mmapdata(m.data)
        + rest))));
    lemma_rt_u64(m.address, enc_u64(m.len) + (enc_i32(m.perm) + (enc_mmapdata(m.data) + rest)));
    assert(s.skip(8) =~= enc_u64(m.len) + (enc_i32(m.perm) + (enc_mmapdata(m.data) + rest)));
    lemma_rt_u64(m.len, enc_i32(m.perm) + (enc_mmapdata(m.data) + rest));
    assert(s.skip(16) =~= enc_i32(m.perm) + (enc_mmapdata(m.data) + rest));
    lemma_rt_i32(m.perm, enc_mmapdata(m.data) + rest);
    assert(s.skip(20) =~= enc_mmapdata(m.data) + rest);
    lemma_rt_mmapdata(m.data, rest);
}

#[verifier::rlimit(100)]
pub proof fn lemma_rt_mmap_list(ms: Seq<MmapV>, rest: Seq<u8>)
    ensures
        sdec_mmap_list(enc_mmap_list(ms) + rest, ms.len()) == Dec::<Seq<MmapV>>::Val(
            ms,
            enc_mmap_list(ms).len(),
        ),
    decreases ms.len(),
{
    let s = enc_mmap_list(ms) + rest;
    if ms.len() == 0 {
        assert(ms =~= Seq::<MmapV>::empty());
    } else {
        let tail = ms.skip(1);
        assert(s =~= enc_mmap(ms[0]) + (enc_mmap_list(tail) + rest));
        lemma_rt_mmap(ms[0], enc_mmap_list(tail) + rest);
        let u0 = enc_mmap(ms[0]).len();
        assert(s.skip(u0 as int) =~= enc_mmap_list(tail) + rest);
        lemma_rt_mmap_list(tail, rest);
        assert(seq![ms[0]] + tail =~= ms);
    }
}

#[verifier::rlimit(100)]
pub proof fn lemma_rt_mmaps(ms: Seq<MmapV>, rest: Seq<u8>)
    requires
        wf_len(ms.len()),
    ensures
        sdec_mmaps(enc_mmaps(ms) + rest) == Dec::<Seq<MmapV>>::Val(ms, enc_mmaps(ms).len()),
{
    let s = enc_mmaps(ms) + rest;
    assert(s =~= enc_varint(ms.len()) + (enc_mmap_list(ms) + rest));
    lemma_rt_varint(ms.len(), enc_mmap_list(ms) + rest);
    let u = enc_varint(ms.len()).len();
    assert(u >= 1);
    assert(s.skip(u as int) =~= enc_mmap_list(ms) + rest);
    lemma_rt_mmap_list(ms, rest);
}

#[verifier::rlimit(100)]
pub proof fn lemma_rt_thread(t: ThreadV, rest: Seq<u8>)
    requires
        wf_thread(t),
    ensures
        sdec_thread(enc_thread(t) + rest) == Dec::<ThreadV>::Val(t, enc_thread(t).len()),
    decreases t, 0int,
{
    let s = enc_thread(t) + rest;
    let t4 = enc_u32(t.uid) + (enc_u32(t.gid) + (enc_bytes(t.reg) + (enc_processes(t.children)
        + rest)));
    assert(s =~= enc_i32(t.tid) + t4);
    lemma_rt_i32(t.tid, t4);
    assert(s.skip(4) =~= t4);
    lemma_rt_u32(t.uid, enc_u32(t.gid) + (enc_bytes(t.reg) + (enc_processes(t.children) + rest)));
    assert(s.skip(8) =~= enc_u32(t.gid) + (enc_bytes(t.reg) + (enc_processes(t.children)
        + rest)));
    lemma_rt_u32(t.gid, enc_bytes(t.reg) + (enc_processes(t.children) + rest));
    assert(s.skip(12) =~= enc_bytes(t.reg) + (enc_processes(t.children) + rest));
    lemma_rt_bytes(t.reg, enc_processes(t.children) + rest);
    let ur = enc_bytes(t.reg).len();
    assert(s.skip(12 + ur as int) =~= enc_processes(t.children) + rest);
    lemma_rt_processes(t.children, rest);
}

#[verifier::rlimit(100)]
pub proof fn lemma_rt_thread_list(ts: Seq<ThreadV>, rest: Seq<u8>)
    requires
        wf_thread_list(ts),
    ensures
        sdec_thread_list(enc_thread_list(ts) + rest, ts.len()) == Dec::<Seq<ThreadV>>::Val(
            ts,
            enc_thread_list(ts).len(),
        ),
    decreases ts, 0int,
{
    let s = enc_thread_list(ts) + rest;
    if ts.len() == 0 {
        assert(ts =~= Seq::<ThreadV>::empty());
    } else {
        let tail = ts.skip(1);
        assert(s =~= enc_thread(ts[0]) + (enc_thread_list(tail) + rest));
        lemma_rt_thread(ts[0], enc_thread_list(tail) + rest);
        let u0 = enc_thread(ts[0]).len();
        assert(s.skip(u0 as int) =~= enc_thread_list(tail) + rest);
        lemma_rt_thread_list(tail, rest);
        assert(seq![ts[0]] + tail =~= ts);
    }
}

#[verifier::rlimit(100)]
pub proof fn lemma_rt_threads(ts: Seq<ThreadV>, rest: Seq<u8>)
    requires
        wf_len(ts.len()),
        wf_thread_list(ts),
    ensures
        sdec_threads(enc_threads(ts) + rest) == Dec::<Seq<ThreadV>>::Val(
            ts,
            enc_threads(ts).len(),
        ),
    decreases ts, 1int,
{
    let s = enc_threads(ts) + rest;
    assert(s =~= enc_varint(ts.len()) + (enc_thread_list(ts) + rest));
    lemma_rt_varint(ts.len(), enc_thread_list(ts) + rest);
    let u = enc_varint(ts.len()).len();
    assert(u >= 1);
    assert(s.skip(u as int) =~= enc_thread_list(ts) + rest);
    lemma_rt_thread_list(ts, rest);
}

#[verifier::rlimit(100)]
pub proof fn lemma_rt_process(p: ProcessV, rest: Seq<u8>)
    requires
        wf_process(p),
    ensures
        sdec_process(enc_process(p) + rest) == Dec::<ProcessV>::Val(p, enc_process(p).len()),
    decreases p, 0int,
{
    let s = enc_process(p) + rest;
    let t4 = enc_mmaps(p.mmaps) + (enc_fds(p.fd_table) + (enc_threads(p.threads) + rest));
    assert(s =~= enc_i32(p.pid) + t4);
    lemma_rt_i32(p.pid, t4);
    assert(s.skip(4) =~= t4);
    lemma_rt_mmaps(p.mmaps, enc_fds(p.fd_table) + (enc_threads(p.threads) + rest));
    let um = enc_mmaps(p.mmaps).len();
    assert(s.skip(4 + um as int) =~= enc_fds(p.fd_table) + (enc_threads(p.threads) + rest));
    lemma_rt_fds(p.fd_table, enc_threads(p.threads) + rest);
    let uf = enc_fds(p.fd_table).len();
    assert(s.skip(4 + um + uf as int) =~= enc_threads(p.threads) + rest);
    lemma_rt_threads(p.threads, rest);
}

#[verifier::rlimit(100)]
pub proof fn lemma_rt_process_list(ps: Seq<ProcessV>, rest: Seq<u8>)
    requires
        wf_process_list(ps),
    ensures
        sdec_process_list(enc_process_list(ps) + rest, ps.len()) == Dec::<Seq<ProcessV>>::Val(
            ps,
            enc_process_list(ps).len(),
        ),
    decreases ps, 0int,
{
    let s = enc_process_list(ps) + rest;
    if ps.len() == 0 {
        assert(ps =~= Seq::<ProcessV>::empty());
    } else {
        let tail = ps.skip(1);
        assert(s =~= enc_process(ps[0]) + (enc_process_list(tail) + rest));
        lemma_rt_process(ps[0], enc_process_list(tail) + rest);
        let u0 = enc_process(ps[0]).len();
        assert(s.skip(u0 as int) =~= enc_process_list(tail) + rest);
        lemma_rt_process_list(tail, rest);
        assert(seq![ps[0]] + tail =~= ps);
    }
}

#[verifier::rlimit(100)]
pub proof fn lemma_rt_processes(ps: Seq<ProcessV>, rest: Seq<u8>)
    requires
        wf_len(ps.len()),
        wf_process_list(ps),
    ensures
        sdec_processes(enc_processes(ps) + rest) == Dec::<Seq<ProcessV>>::Val(
            ps,
            enc_processes(ps).len(),
        ),
    decreases ps, 1int,
{
    let s = enc_processes(ps) + rest;
    assert(s =~= enc_varint(ps.len()) + (enc_process_list(ps) + rest));
    lemma_rt_varint(ps.len(), enc_process_list(ps) + rest);
    let u = enc_varint(ps.len()).len();
    assert(u >= 1);
    assert(s.skip(u as int) =~= enc_process_list(ps) + rest);
    lemma_rt_process_list(ps, rest);
}

#[verifier::rlimit(100)]
pub proof fn lemma_rt_buffer(b: BufferV, rest: Seq<u8>)
    requires
        wf_len(b.buf.len()),
    ensures
        sdec_buffer(enc_buffer(b) + rest) == Dec::<BufferV>::Val(b, enc_buffer(b).len()),
{
    let s = enc_buffer(b) + rest;
    assert(s =~= enc_u32(b.buffer) + (enc_bytes(b.buf) + rest));
    lemma_rt_u32(b.buffer, enc_bytes(b.buf) + rest);
    assert(s.skip(4) =~= enc_bytes(b.buf) + rest);
    lemma_rt_bytes(b.buf, rest);
}

#[verifier::rlimit(100)]
pub proof fn lemma_rt_file(f: FileV, rest: Seq<u8>)
    requires
        wf_len(f.path.len()),
    ensures
        sdec_file(enc_file(f) + rest) == Dec::<FileV>::Val(f, enc_file(f).len()),
{
    let s = enc_file(f) + rest;
    let t1 = enc_u32(f.uid) + (enc_u32(f.gid) + (enc_u32(f.mode) + (enc_bytes(f.path) + rest)));
    assert(s =~= enc_u32(f.id) + t1);
    lemma_rt_u32(f.id, t1);
    assert(s.skip(4) =~= t1);
    lemma_rt_u32(f.uid, enc_u32(f.gid) + (enc_u32(f.mode) + (enc_bytes(f.path) + rest)));
    assert(s.skip(8) =~= enc_u32(f.gid) + (enc_u32(f.mode) + (enc_bytes(f.path) + rest)));
    lemma_rt_u32(f.gid, enc_u32(f.mode) + (enc_bytes(f.path) + rest));
    assert(s.skip(12) =~= enc_u32(f.mode) + (enc_bytes(f.path) + rest));
    lemma_rt_u32(f.mode, enc_bytes(f.path) + rest);
    assert(s.skip(16) =~= enc_bytes(f.path) + rest);
    lemma_rt_bytes(f.path, rest);
}

#[verifier::rlimit(100)]
#[verifier::rlimit(100)]
pub proof fn lemma_rt_filedata(d: FileDataV, rest: Seq<u8>)
    requires
        wf_len(d.data.len()),
    ensures
        sdec_filedata(enc_filedata(d) + rest) == Dec::<FileDataV>::Val(d, enc_filedata(d).len()),
{
    let s = enc_filedata(d) + rest;
    assert(s =~= enc_u32(d.id) + (enc_bytes(d.data) + rest));
    lemma_rt_u32(d.id, enc_bytes(d.data) + rest);
    assert(s.skip(4) =~= enc_bytes(d.data) + rest);
    lemma_rt_bytes(d.data, rest);
}

/// Round trip: decoding an encoded message, with anything at all behind it
/// on the stream, yields exactly the encoded message and consumes exactly
/// its encoding.
#[verifier::rlimit(100)]
pub proof fn lemma_decode_encode(m: MsgV, rest: Seq<u8>)
    requires
        wf_msg(m),
    ensures
        sdec_msg(enc_msg(m) + rest) == Dec::<MsgV>::Val(m, enc_msg(m).len()),
{
    let s = enc_msg(m) + rest;
    match m {
        MsgV::ProcessTrees(ps) => {
            assert(s[0] == 0u8);
            assert(s.skip(1) =~= enc_processes(ps) + rest);
            lemma_rt_processes(ps, rest);
        },
        MsgV::Buffer(b) => {
            assert(s[0] == 1u8);
            assert(s.skip(1) =~= enc_buffer(b) + rest);
            lemma_rt_buffer(b, rest);
        },
        MsgV::File(f) => {
            assert(s[0] == 2u8);
            assert(s.skip(1) =~= enc_file(f) + rest);
            lemma_rt_file(f, rest);
        },
        MsgV::FileData(d) => {
            assert(s[0] == 3u8);
            assert(s.skip(1) =~= enc_filedata(d) + rest);
            lemma_rt_filedata(d, rest);
        },
        MsgV::Done => {
            assert(s[0] == 4u8);
        },
    }
}

// Every view taken of an executable value is well formed: every count in
// it is the length of a real vector, which fits the largest wire width.

pub proof fn lemma_fd_dv_wf(f: Fd)
    ensures
        wf_fd(f.dv()),
{
    match f.ty {
        FdType::File(g) => {
            assert(g.file@.len() == g.file.len());
        },
        FdType::SocketUnix(FdSocketUnix::Bind(p)) => {
            assert(p@.len() == p.len());
        },
        FdType::SocketUnix(FdSocketUnix::Connect(p)) => {
            assert(p@.len() == p.len());
        },
        _ => {},
    }
}

pub proof fn lemma_thread_dv_wf(t: Thread)
    ensures
        wf_thread(t.dv()),
    decreases t, 0int,
{
    assert(t.reg@.len() == t.reg.len());
    assert(t.children@.len() == t.children.len());
    lemma_dv_processes(t.children@);
    lemma_process_list_dv_wf(t.children@);
}

pub proof fn lemma_thread_list_dv_wf(ts: Seq<Thread>)
    ensures
        wf_thread_list(dv_threads(ts)),
    decreases ts, 1int,
{
    if ts.len() > 0 {
        lemma_thread_dv_wf(ts[0]);
        lemma_thread_list_dv_wf(ts.skip(1));
        assert(dv_threads(ts).skip(1) =~= dv_threads(ts.skip(1)));
    }
}

pub proof fn lemma_process_dv_wf(p: Process)
    ensures
        wf_process(p.dv()),
    decreases p, 0int,
{
    lemma_dv_mmaps(p.mmaps@);
    lemma_dv_fds(p.fd_table@);
    lemma_dv_threads(p.threads@);
    assert(p.mmaps@.len() == p.mmaps.len());
    assert(p.fd_table@.len() == p.fd_table.len());
    assert(p.threads@.len() == p.threads.len());
    assert forall|i: int| 0 <= i < dv_fds(p.fd_table@).len() implies wf_fd(
        #[trigger] dv_fds(p.fd_table@)[i],
    ) by {
        lemma_fd_dv_wf(p.fd_table@[i]);
    }
    lemma_thread_list_dv_wf(p.threads@);
}

pub proof fn lemma_process_list_dv_wf(ps: Seq<Process>)
    ensures
        wf_process_list(dv_processes(ps)),
    decreases ps, 1int,
{
    if ps.len() > 0 {
        lemma_process_dv_wf(ps[0]);
        lemma_process_list_dv_wf(ps.skip(1));
        assert(dv_processes(ps).skip(1) =~= dv_processes(ps.skip(1)));
    }
}

/// The view of every executable message is well formed.
pub proof fn lemma_msg_dv_wf(m: &EscapeeMessage)
    ensures
        wf_msg(m.dv()),
{
    match m {
        EscapeeMessage::ProcessTrees(ps) => {
            assert(ps@.len() == ps.len());
            lemma_dv_processes(ps@);
            lemma_process_list_dv_wf(ps@);
        },
        EscapeeMessage::Buffer(b) => {
            assert(b.buf@.len() == b.buf.len());
        },
        EscapeeMessage::File(f) => {
            assert(f.path@.len() == f.path.len());
        },
        EscapeeMessage::FileData(d) => {
            assert(d.data@.len() == d.data.len());
        },
        EscapeeMessage::Done => {},
    }
}

/// Round trip for every executable message: decoding its encoding yields
/// exactly its view and consumes the whole encoding.
pub proof fn lemma_message_round_trip(m: &EscapeeMessage)
    ensures
        sdec_msg(enc_msg(m.dv())) == Dec::<MsgV>::Val(m.dv(), enc_msg(m.dv()).len()),
{
    lemma_msg_dv_wf(m);
    lemma_round_trip(m.dv());
}

/// Round trip on a stream holding exactly one message.
pub proof fn lemma_round_trip(m: MsgV)
    requires
        wf_msg(m),
    ensures
        sdec_msg(enc_msg(m)) == Dec::<MsgV>::Val(m, enc_msg(m).len()),
{
    lemma_decode_encode(m, Seq::empty());
    assert(enc_msg(m) + Seq::empty() =~= enc_msg(m));
}

// ---------------------------------------------------------------------------
// Executable encoder
// ---------------------------------------------------------------------------

pub proof fn lemma_enc_mmap_list_snoc(s: Seq<MmapV>, i: int)
    requires
        0 <= i < s.len(),
    ensures
        enc_mmap_list(s.take(i + 1)) == enc_mmap_list(s.take(i)) + enc_mmap(s[i]),
    decreases i,
{
    let pre = s.take(i + 1);
    if i == 0 {
        assert(pre.skip(1) =~= s.take(0));
        assert(enc_mmap_list(s.take(0)) =~= Seq::<u8>::empty());
        assert(enc_mmap_list(pre) =~= enc_mmap_list(s.take(0)) + enc_mmap(s[0]));
    } else {
        lemma_enc_mmap_list_snoc(s.skip(1), i - 1);
        assert(pre.skip(1) =~= s.skip(1).take(i));
        assert(s.take(i).skip(1) =~= s.skip(1).take(i - 1));
        assert(s.skip(1)[i - 1] == s[i]);
        assert(enc_mmap_list(s.take(i + 1)) =~= enc_mmap_list(s.take(i)) + enc_mmap(s[i]));
    }
}

pub proof fn lemma_enc_fd_list_snoc(s: Seq<FdV>, i: int)
    requires
        0 <= i < s.len(),
    ensures
        enc_fd_list(s.take(i + 1)) == enc_fd_list(s.take(i)) + enc_fd(s[i]),
    decreases i,
{
    let pre = s.take(i + 1);
    if i == 0 {
        assert(pre.skip(1) =~= s.take(0));
        assert(enc_fd_list(s.take(0)) =~= Seq::<u8>::empty());
        assert(enc_fd_list(pre) =~= enc_fd_list(s.take(0)) + enc_fd(s[0]));
    } else {
        lemma_enc_fd_list_snoc(s.skip(1), i - 1);
        assert(pre.skip(1) =~= s.skip(1).take(i));
        assert(s.take(i).skip(1) =~= s.skip(1).take(i - 1));
        assert(s.skip(1)[i - 1] == s[i]);
        assert(enc_fd_list(s.take(i + 1)) =~= enc_fd_list(s.take(i)) + enc_fd(s[i]));
    }
}

pub proof fn lemma_enc_thread_list_snoc(s: Seq<ThreadV>, i: int)
    requires
        0 <= i < s.len(),
    ensures
        enc_thread_list(s.take(i + 1)) == enc_thread_list(s.take(i)) + enc_thread(s[i]),
    decreases i,
{
    let pre = s.take(i + 1);
    if i == 0 {
        assert(pre.skip(1) =~= s.take(0));
        assert(enc_thread_list(s.take(0)) =~= Seq::<u8>::empty());
        assert(enc_thread_list(pre) =~= enc_thread_list(s.take(0)) + enc_thread(s[0]));
    } else {
        lemma_enc_thread_list_snoc(s.skip(1), i - 1);
        assert(pre.skip(1) =~= s.skip(1).take(i));
        assert(s.take(i).skip(1) =~= s.skip(1).take(i - 1));
        assert(s.skip(1)[i - 1] == s[i]);
        assert(enc_thread_list(s.take(i + 1)) =~= enc_thread_list(s.take(i)) + enc_thread(s[i]));
    }
}

pub proof fn lemma_enc_process_list_snoc(s: Seq<ProcessV>, i: int)
    requires
        0 <= i < s.len(),
    ensures
        enc_process_list(s.take(i + 1)) == enc_process_list(s.take(i)) + enc_process(s[i]),
    decreases i,
{
    let pre = s.take(i + 1);
    if i == 0 {
        assert(pre.skip(1) =~= s.take(0));
        assert(enc_process_list(s.take(0)) =~= Seq::<u8>::empty());
        assert(enc_process_list(pre) =~= enc_process_list(s.take(0)) + enc_process(s[0]));
    } else {
        lemma_enc_process_list_snoc(s.skip(1), i - 1);
        assert(pre.skip(1) =~= s.skip(1).take(i));
        assert(s.take(i).skip(1) =~= s.skip(1).take(i - 1));
        assert(s.skip(1)[i - 1] == s[i]);
        assert(enc_process_list(s.take(i + 1)) =~= enc_process_list(s.take(i)) + enc_process(
            s[i],
        ));
    }
}

fn enc_sockaddr_into(a: &SockAddr, out: &mut Vec<u8>)
    ensures
        final(out)@ == old(out)@ + enc_sockaddr(a.dv()),
{
    match a {
        SockAddr::V4 { ip, port } => {
            out.push(0u8);
            assert(out@ =~= old(out)@ + seq![0u8]);
            push_u32(out, *ip);
            push_u16(out, *port);
            assert(out@ =~= old(out)@ + enc_sockaddr(a.dv()));
        },
        SockAddr::V6 { ip_hi, ip_lo, port } => {
            out.push(1u8);
            assert(out@ =~= old(out)@ + seq![1u8]);
            push_u64(out, *ip_hi);
            push_u64(out, *ip_lo);
            push_u16(out, *port);
            assert(out@ =~= old(out)@ + enc_sockaddr(a.dv()));
        },
    }
}

fn enc_fdtype_into(t: &FdType, out: &mut Vec<u8>)
    ensures
        final(out)@ == old(out)@ + enc_fdtype(t.dv()),
{
    match t {
        FdType::File(f) => {
            out.push(0u8);
            assert(out@ =~= old(out)@ + seq![0u8]);
            push_bytes(out, &f.file);
            push_u64(out, f.position);
            assert(out@ =~= old(out)@ + enc_fdtype(t.dv()));
        },
        FdType::Pipe(p) => {
            out.push(1u8);
            assert(out@ =~= old(out)@ + seq![1u8]);
            push_u64(out, p.pipe_id);
            assert(out@ =~= old(out)@ + enc_fdtype(t.dv()));
        },
        FdType::SocketUnix(u) => {
            out.push(2u8);
            assert(out@ =~= old(out)@ + seq![2u8]);
            match u {
                FdSocketUnix::Bind(p) => {
                    out.push(0u8);
                    push_bytes(out, p);
                },
                FdSocketUnix::Connect(p) => {
                    out.push(1u8);
                    push_bytes(out, p);
                },
            }
            assert(out@ =~= old(out)@ + enc_fdtype(t.dv()));
        },
        FdType::SocketIp(i) => {
            out.push(3u8);
            assert(out@ =~= old(out)@ + seq![3u8]);
            match i {
                FdSocketIp::Bind(a) => {
                    out.push(0u8);
                    enc_sockaddr_into(a, out);
                },
                FdSocketIp::Connect(a) => {
                    out.push(1u8);
                    enc_sockaddr_into(a, out);
                },
            }
            assert(out@ =~= old(out)@ + enc_fdtype(t.dv()));
        },
    }
}

fn enc_fd_into(f: &Fd, out: &mut Vec<u8>)
    ensures
        final(out)@ == old(out)@ + enc_fd(f.dv()),
{
    push_i32(out, f.fd);
    push_u32(out, f.mode);
    enc_fdtype_into(&f.ty, out);
    assert(out@ =~= old(out)@ + enc_fd(f.dv()));
}

fn enc_fds_into(v: &Vec<Fd>, out: &mut Vec<u8>)
    ensures
        final(out)@ == old(out)@ + enc_fds(dv_fds(v@)),
{
    proof {
        lemma_dv_fds(v@);
    }
    push_varint(out, v.len() as u64);
    let ghost d = dv_fds(v@);
    let ghost mid = out@;
    let mut i: usize = 0;
    while i < v.len()
        invariant
            i <= v.len(),
            d == dv_fds(v@),
            d.len() == v@.len(),
            forall|j: int| 0 <= j < v@.len() ==> d[j] == #[trigger] v@[j].dv(),
            out@ == mid + enc_fd_list(d.take(i as int)),
        decreases v.len() - i,
    {
        enc_fd_into(&v[i], out);
        proof {
            lemma_enc_fd_list_snoc(d, i as int);
        }
        i = i + 1;
    }
    assert(d.take(d.len() as int) =~= d);
    assert(out@ =~= old(out)@ + enc_fds(d));
}

fn enc_mmap_into(m: &MemoryMapping, out: &mut Vec<u8>)
    ensures
        final(out)@ == old(out)@ + enc_mmap(m.dv()),
{
    push_u64(out, m.address);
    push_u64(out, m.len);
    push_i32(out, m.perm);
    match &m.data {
        MemoryMappingData::Buffer(id) => {
            out.push(0u8);
            push_u32(out, *id);
        },
        MemoryMappingData::File(f) => {
            out.push(1u8);
            push_i32(out, f.fd);
            push_u64(out, f.offset);
        },
        MemoryMappingData::KernelVvar => {
            out.push(2u8);
        },
    }
    assert(out@ =~= old(out)@ + enc_mmap(m.dv()));
}

fn enc_mmaps_into(v: &Vec<MemoryMapping>, out: &mut Vec<u8>)
    ensures
        final(out)@ == old(out)@ + enc_mmaps(dv_mmaps(v@)),
{
    proof {
        lemma_dv_mmaps(v@);
    }
    push_varint(out, v.len() as u64);
    let ghost d = dv_mmaps(v@);
    let ghost mid = out@;
    let mut i: usize = 0;
    while i < v.len()
        invariant
            i <= v.len(),
            d == dv_mmaps(v@),
            d.len() == v@.len(),
            forall|j: int| 0 <= j < v@.len() ==> d[j] == #[trigger] v@[j].dv(),
            out@ == mid + enc_mmap_list(d.take(i as int)),
        decreases v.len() - i,
    {
        enc_mmap_into(&v[i], out);
        proof {
            lemma_enc_mmap_list_snoc(d, i as int);
        }
        i = i + 1;
    }
    assert(d.take(d.len() as int) =~= d);
    assert(out@ =~= old(out)@ + enc_mmaps(d));
}

#[verifier::loop_isolation(false)]
fn enc_process_into(p: &Process, out: &mut Vec<u8>)
    ensures
        final(out)@ == old(out)@ + enc_process(p.dv()),
    decreases *p,
{
    push_i32(out, p.pid);
    enc_mmaps_into(&p.mmaps, out);
    enc_fds_into(&p.fd_table, out);
    proof {
        lemma_dv_threads(p.threads@);
    }
    push_varint(out, p.threads.len() as u64);
    let ghost d = dv_threads(p.threads@);
    let ghost mid = out@;
    let mut i: usize = 0;
    while i < p.threads.len()
        invariant
            i <= p.threads.len(),
            out@ == mid + enc_thread_list(d.take(i as int)),
        decreases p.threads.len() - i,
    {
        let thread = &p.threads[i];
        proof {
            assert(decreases_to!(*p => p.threads));
            assert(decreases_to!(p.threads => p.threads@[i as int]));
        }
        enc_thread_into(thread, out);
        proof {
            lemma_enc_thread_list_snoc(d, i as int);
        }
        i = i + 1;
    }
    assert(d.take(d.len() as int) =~= d);
    assert(out@ =~= old(out)@ + enc_process(p.dv()));
}

#[verifier::loop_isolation(false)]
fn enc_thread_into(t: &Thread, out: &mut Vec<u8>)
    ensures
        final(out)@ == old(out)@ + enc_thread(t.dv()),
    decreases *t,
{
    push_i32(out, t.tid);
    push_u32(out, t.uid);
    push_u32(out, t.gid);
    push_bytes(out, &t.reg);
    proof {
        lemma_dv_processes(t.children@);
    }
    push_varint(out, t.children.len() as u64);
    let ghost d = dv_processes(t.children@);
    let ghost mid = out@;
    let mut i: usize = 0;
    while i < t.children.len()
        invariant
            i <= t.children.len(),
            out@ == mid + enc_process_list(d.take(i as int)),
        decreases t.children.len() - i,
    {
        let child = &t.children[i];
        proof {
            assert(decreases_to!(*t => t.children));
            assert(decreases_to!(t.children => t.children@[i as int]));
        }
        enc_process_into(child, out);
        proof {
            lemma_enc_process_list_snoc(d, i as int);
        }
        i = i + 1;
    }
    assert(d.take(d.len() as int) =~= d);
    assert(out@ =~= old(out)@ + enc_thread(t.dv()));
}

/// Encode one message into its canonical byte form.
pub fn encode_message(m: &EscapeeMessage) -> (r: Vec<u8>)
    ensures
        r@ == enc_msg(m.dv()),
{
    let mut out: Vec<u8> = Vec::new();
    match m {
        EscapeeMessage::ProcessTrees(ps) => {
            out.push(0u8);
            proof {
                lemma_dv_processes(ps@);
            }
            push_varint(&mut out, ps.len() as u64);
            let ghost d = dv_processes(ps@);
            let ghost mid = out@;
            let mut i: usize = 0;
            while i < ps.len()
                invariant
                    i <= ps.len(),
                    d == dv_processes(ps@),
                    d.len() == ps@.len(),
                    forall|j: int| 0 <= j < ps@.len() ==> d[j] == #[trigger] ps@[j].dv(),
                    out@ == mid + enc_process_list(d.take(i as int)),
                decreases ps.len() - i,
            {
                enc_process_into(&ps[i], &mut out);
                proof {
                    lemma_enc_process_list_snoc(d, i as int);
                }
                i = i + 1;
            }
            assert(d.take(d.len() as int) =~= d);
            assert(out@ =~= seq![0u8] + enc_processes(d));
        },
        EscapeeMessage::Buffer(b) => {
            out.push(1u8);
            push_u32(&mut out, b.buffer);
            push_bytes(&mut out, &b.buf);
            assert(out@ =~= seq![1u8] + enc_buffer(b.dv()));
        },
        EscapeeMessage::File(f) => {
            out.push(2u8);
            push_u32(&mut out, f.id);
            push_u32(&mut out, f.uid);
            push_u32(&mut out, f.gid);
            push_u32(&mut out, f.mode);
            push_bytes(&mut out, &f.path);
            assert(out@ =~= seq![2u8] + enc_file(f.dv()));
        },
        EscapeeMessage::FileData(d) => {
            out.push(3u8);
            push_u32(&mut out, d.id);
            push_bytes(&mut out, &d.data);
            assert(out@ =~= seq![3u8] + enc_filedata(d.dv()));
        },
        EscapeeMessage::Done => {
            out.push(4u8);
            assert(out@ =~= seq![4u8]);
        },
    }
    out
}

// ---------------------------------------------------------------------------
// Executable decoder
// ---------------------------------------------------------------------------

#[verifier::loop_isolation(false)]
fn dec_sockaddr(buf: &Vec<u8>, pos: usize) -> (r: Result<(SockAddr, usize), Error>)
    requires
        pos <= buf.len(),
    ensures
        match r {
            Ok(vp) => sdec_sockaddr(buf@.skip(pos as int)) == Dec::<SockAddrV>::Val(
                vp.0.dv(),
                (vp.1 - pos) as nat,
            ) && pos < vp.1 <= buf.len(),
            Err(e) => (e == Error::Truncated && sdec_sockaddr(buf@.skip(pos as int)) is Short)
                || (e == Error::Malformed && sdec_sockaddr(buf@.skip(pos as int)) is Bad),
        },
{
    let ghost s = buf@.skip(pos as int);
    if buf.len() - pos < 1 {
        return Err(Error::Truncated);
    }
    let tag = buf[pos];
    assert(s[0] == tag);
    assert(s.skip(1) =~= buf@.skip(pos as int + 1));
    if tag == 0 {
        let (ip, p1) = match take_u32(buf, pos + 1) {
            Ok(v) => v,
            Err(e) => {
                return Err(e);
            },
        };
        assert(s.skip(5) =~= buf@.skip(p1 as int));
        let (port, p2) = match take_u16(buf, p1) {
            Ok(v) => v,
            Err(e) => {
                return Err(e);
            },
        };
        Ok((SockAddr::V4 { ip, port }, p2))
    } else if tag == 1 {
        let (ip_hi, p1) = match take_u64(buf, pos + 1) {
            Ok(v) => v,
            Err(e) => {
                return Err(e);
            },
        };
        assert(s.skip(9) =~= buf@.skip(p1 as int));
        let (ip_lo, p2) = match take_u64(buf, p1) {
            Ok(v) => v,
            Err(e) => {
                return Err(e);
            },
        };
        assert(s.skip(17) =~= buf@.skip(p2 as int));
        let (port, p3) = match take_u16(buf, p2) {
            Ok(v) => v,
            Err(e) => {
                return Err(e);
            },
        };
        Ok((SockAddr::V6 { ip_hi, ip_lo, port }, p3))
    } else {
        Err(Error::Malformed)
    }
}

#[verifier::loop_isolation(false)]
fn dec_fdtype(buf: &Vec<u8>, pos: usize) -> (r: Result<(FdType, usize), Error>)
    requires
        pos <= buf.len(),
    ensures
        match r {
            Ok(vp) => sdec_fdtype(buf@.skip(pos as int)) == Dec::<FdTypeV>::Val(
                vp.0.dv(),
                (vp.1 - pos) as nat,
            ) && pos < vp.1 <= buf.len(),
            Err(e) => (e == Error::Truncated && sdec_fdtype(buf@.skip(pos as int)) is Short) || (
            e == Error::Malformed && sdec_fdtype(buf@.skip(pos as int)) is Bad),
        },
{
    let ghost s = buf@.skip(pos as int);
    if buf.len() - pos < 1 {
        return Err(Error::Truncated);
    }
    let tag = buf[pos];
    assert(s[0] == tag);
    assert(s.skip(1) =~= buf@.skip(pos as int + 1));
    if tag == 0 {
        let (file, p1) = match take_bytes(buf, pos + 1) {
            Ok(v) => v,
            Err(e) => {
                return Err(e);
            },
        };
        assert(s.skip(1 + (p1 - pos - 1) as int) =~= buf@.skip(p1 as int));
        let (position, p2) = match take_u64(buf, p1) {
            Ok(v) => v,
            Err(e) => {
                return Err(e);
            },
        };
        Ok((FdType::File(FdFile { file, position }), p2))
    } else if tag == 1 {
        let (pipe_id, p1) = match take_u64(buf, pos + 1) {
            Ok(v) => v,
            Err(e) => {
                return Err(e);
            },
        };
        Ok((FdType::Pipe(FdPipe { pipe_id }), p1))
    } else if tag == 2 {
        let ghost s2 = buf@.skip(pos as int + 1);
        if buf.len() - (pos + 1) < 1 {
            return Err(Error::Truncated);
        }
        let which = buf[pos + 1];
        assert(s2[0] == which);
        assert(s2.skip(1) =~= buf@.skip(pos as int + 2));
        if which == 0 || which == 1 {
            let (path, p1) = match take_bytes(buf, pos + 2) {
                Ok(v) => v,
                Err(e) => {
                    return Err(e);
                },
            };
            if which == 0 {
                Ok((FdType::SocketUnix(FdSocketUnix::Bind(path)), p1))
            } else {
                Ok((FdType::SocketUnix(FdSocketUnix::Connect(path)), p1))
            }
        } else {
            Err(Error::Malformed)
        }
    } else if tag == 3 {
        let ghost s2 = buf@.skip(pos as int + 1);
        if buf.len() - (pos + 1) < 1 {
            return Err(Error::Truncated);
        }
        let which = buf[pos + 1];
        assert(s2[0] == which);
        assert(s2.skip(1) =~= buf@.skip(pos as int + 2));
        if which == 0 || which == 1 {
            let (addr, p1) = match dec_sockaddr(buf, pos + 2) {
                Ok(v) => v,
                Err(e) => {
                    return Err(e);
                },
            };
            if which == 0 {
                Ok((FdType::SocketIp(FdSocketIp::Bind(addr)), p1))
            } else {
                Ok((FdType::SocketIp(FdSocketIp::Connect(addr)), p1))
            }
        } else {
            Err(Error::Malformed)
        }
    } else {
        Err(Error::Malformed)
    }
}

#[verifier::loop_isolation(false)]
fn dec_fd(buf: &Vec<u8>, pos: usize) -> (r: Result<(Fd, usize), Error>)
    requires
        pos <= buf.len(),
    ensures
        match r {
            Ok(vp) => sdec_fd(buf@.skip(pos as int)) == Dec::<FdV>::Val(
                vp.0.dv(),
                (vp.1 - pos) as nat,
            ) && pos < vp.1 <= buf.len(),
            Err(e) => (e == Error::Truncated && sdec_fd(buf@.skip(pos as int)) is Short) || (e
                == Error::Malformed && sdec_fd(buf@.skip(pos as int)) is Bad),
        },
{
    let ghost s = buf@.skip(pos as int);
    let (fd, p1) = match take_i32(buf, pos) {
        Ok(v) => v,
        Err(e) => {
            return Err(e);
        },
    };
    assert(s.skip(4) =~= buf@.skip(p1 as int));
    let (mode, p2) = match take_u32(buf, p1) {
        Ok(v) => v,
        Err(e) => {
            return Err(e);
        },
    };
    assert(s.skip(8) =~= buf@.skip(p2 as int));
    let (ty, p3) = match dec_fdtype(buf, p2) {
        Ok(v) => v,
        Err(e) => {
            return Err(e);
        },
    };
    Ok((Fd { fd, mode, ty }, p3))
}

#[verifier::loop_isolation(false)]
fn dec_mmap(buf: &Vec<u8>, pos: usize) -> (r: Result<(MemoryMapping, usize), Error>)
    requires
        pos <= buf.len(),
    ensures
        match r {
            Ok(vp) => sdec_mmap(buf@.skip(pos as int)) == Dec::<MmapV>::Val(
                vp.0.dv(),
                (vp.1 - pos) as nat,
            ) && pos < vp.1 <= buf.len(),
            Err(e) => (e == Error::Truncated && sdec_mmap(buf@.skip(pos as int)) is Short) || (e
                == Error::Malformed && sdec_mmap(buf@.skip(pos as int)) is Bad),
        },
{
    let ghost s = buf@.skip(pos as int);
    let (address, p1) = match take_u64(buf, pos) {
        Ok(v) => v,
        Err(e) => {
            return Err(e);
        },
    };
    assert(s.skip(8) =~= buf@.skip(p1 as int));
    let (len, p2) = match take_u64(buf, p1) {
        Ok(v) => v,
        Err(e) => {
            return Err(e);
        },
    };
    assert(s.skip(16) =~= buf@.skip(p2 as int));
    let (perm, p3) = match take_i32(buf, p2) {
        Ok(v) => v,
        Err(e) => {
            return Err(e);
        },
    };
    assert(s.skip(20) =~= buf@.skip(p3 as int));
    let ghost s3 = buf@.skip(p3 as int);
    if buf.len() - p3 < 1 {
        return Err(Error::Truncated);
    }
    let tag = buf[p3];
    assert(s3[0] == tag);
    assert(s3.skip(1) =~= buf@.skip(p3 as int + 1));
    if tag == 0 {
        let (id, p4) = match take_u32(buf, p3 + 1) {
            Ok(v) => v,
            Err(e) => {
                return Err(e);
            },
        };
        Ok((MemoryMapping { address, len, perm, data: MemoryMappingData::Buffer(id) }, p4))
    } else if tag == 1 {
        let (fd, p4) = match take_i32(buf, p3 + 1) {
            Ok(v) => v,
            Err(e) => {
                return Err(e);
            },
        };
        assert(s3.skip(5) =~= buf@.skip(p4 as int));
        let (offset, p5) = match take_u64(buf, p4) {
            Ok(v) => v,
            Err(e) => {
                return Err(e);
            },
        };
        Ok(
            (
                MemoryMapping {
                    address,
                    len,
                    perm,
                    data: MemoryMappingData::File(MappedFile { fd, offset }),
                },
                p5,
            ),
        )
    } else if tag == 2 {
        Ok((MemoryMapping { address, len, perm, data: MemoryMappingData::KernelVvar }, p3 + 1))
    } else {
        Err(Error::Malformed)
    }
}

#[verifier::loop_isolation(false)]
#[verifier::rlimit(100)]
fn dec_mmaps(buf: &Vec<u8>, pos: usize) -> (r: Result<(Vec<MemoryMapping>, usize), Error>)
    requires
        pos <= buf.len(),
    ensures
        match r {
            Ok(vp) => sdec_mmaps(buf@.skip(pos as int)) == Dec::<Seq<MmapV>>::Val(
                dv_mmaps(vp.0@),
                (vp.1 - pos) as nat,
            ) && pos < vp.1 <= buf.len(),
            Err(e) => (e == Error::Truncated && sdec_mmaps(buf@.skip(pos as int)) is Short) || (
            e == Error::Malformed && sdec_mmaps(buf@.skip(pos as int)) is Bad),
        },
{
    let ghost s = buf@.skip(pos as int);
    let (n, p1) = match take_varint(buf, pos) {
        Ok(v) => v,
        Err(e) => {
            return Err(e);
        },
    };
    let ghost s1 = buf@.skip(p1 as int);
    proof {
        assert(s.skip((p1 - pos) as int) =~= s1);
    }
    let mut acc: Vec<MemoryMapping> = Vec::new();
    let mut cur: usize = p1;
    let mut i: u64 = 0;
    proof {
        let w = sdec_mmap_list(s1, n as nat);
        assert(dv_mmaps(acc@) =~= Seq::<MmapV>::empty());
        if w is Val {
            assert(dv_mmaps(acc@) + w->Val_0 =~= w->Val_0);
        }
    }
    while i < n
        invariant
            i <= n,
            p1 <= cur <= buf.len(),
            sdec_mmap_list(s1, n as nat) == match sdec_mmap_list(
                buf@.skip(cur as int),
                (n - i) as nat,
            ) {
                Dec::Val(vs, u) => Dec::<Seq<MmapV>>::Val(
                    dv_mmaps(acc@) + vs,
                    (cur - p1) as nat + u,
                ),
                Dec::Short => Dec::Short,
                Dec::Bad => Dec::Bad,
            },
        decreases n - i,
    {
        let ghost accv = acc@;
        match dec_mmap(buf, cur) {
            Ok((m, p2)) => {
                proof {
                    assert(buf@.skip(cur as int).skip((p2 - cur) as int) =~= buf@.skip(
                        p2 as int,
                    ));
                }
                acc.push(m);
                proof {
                    lemma_dv_mmaps_snoc(accv, m);
                    assert(acc@ == accv.push(m));
                    let w2 = sdec_mmap_list(buf@.skip(p2 as int), (n - i - 1) as nat);
                    if w2 is Val {
                        assert(dv_mmaps(accv) + (seq![m.dv()] + w2->Val_0) =~= dv_mmaps(acc@)
                            + w2->Val_0);
                    }
                }
                cur = p2;
                i = i + 1;
            },
            Err(e) => {
                return Err(e);
            },
        }
    }
    proof {
        assert(dv_mmaps(acc@) + Seq::<MmapV>::empty() =~= dv_mmaps(acc@));
    }
    Ok((acc, cur))
}

#[verifier::loop_isolation(false)]
#[verifier::rlimit(100)]
fn dec_fds(buf: &Vec<u8>, pos: usize) -> (r: Result<(Vec<Fd>, usize), Error>)
    requires
        pos <= buf.len(),
    ensures
        match r {
            Ok(vp) => sdec_fds(buf@.skip(pos as int)) == Dec::<Seq<FdV>>::Val(
                dv_fds(vp.0@),
                (vp.1 - pos) as nat,
            ) && pos < vp.1 <= buf.len(),
            Err(e) => (e == Error::Truncated && sdec_fds(buf@.skip(pos as int)) is Short) || (e
                == Error::Malformed && sdec_fds(buf@.skip(pos as int)) is Bad),
        },
{
    let ghost s = buf@.skip(pos as int);
    let (n, p1) = match take_varint(buf, pos) {
        Ok(v) => v,
        Err(e) => {
            return Err(e);
        },
    };
    let ghost s1 = buf@.skip(p1 as int);
    proof {
        assert(s.skip((p1 - pos) as int) =~= s1);
    }
    let mut acc: Vec<Fd> = Vec::new();
    let mut cur: usize = p1;
    let mut i: u64 = 0;
    proof {
        let w = sdec_fd_list(s1, n as nat);
        assert(dv_fds(acc@) =~= Seq::<FdV>::empty());
        if w is Val {
            assert(dv_fds(acc@) + w->Val_0 =~= w->Val_0);
        }
    }
    while i < n
        invariant
            i <= n,
            p1 <= cur <= buf.len(),
            sdec_fd_list(s1, n as nat) == match sdec_fd_list(
                buf@.skip(cur as int),
                (n - i) as nat,
            ) {
                Dec::Val(vs, u) => Dec::<Seq<FdV>>::Val(dv_fds(acc@) + vs, (cur - p1) as nat + u),
                Dec::Short => Dec::Short,
                Dec::Bad => Dec::Bad,
            },
        decreases n - i,
    {
        let ghost accv = acc@;
        match dec_fd(buf, cur) {
            Ok((f, p2)) => {
                proof {
                    assert(buf@.skip(cur as int).skip((p2 - cur) as int) =~= buf@.skip(
                        p2 as int,
                    ));
                }
                acc.push(f);
                proof {
                    lemma_dv_fds_snoc(accv, f);
                    assert(acc@ == accv.push(f));
                    let w2 = sdec_fd_list(buf@.skip(p2 as int), (n - i - 1) as nat);
                    if w2 is Val {
                        assert(dv_fds(accv) + (seq![f.dv()] + w2->Val_0) =~= dv_fds(acc@)
                            + w2->Val_0);
                    }
                }
                cur = p2;
                i = i + 1;
            },
            Err(e) => {
                return Err(e);
            },
        }
    }
    proof {
        assert(dv_fds(acc@) + Seq::<FdV>::empty() =~= dv_fds(acc@));
    }
    Ok((acc, cur))
}

#[verifier::loop_isolation(false)]
#[verifier::rlimit(100)]
fn dec_thread(buf: &Vec<u8>, pos: usize) -> (r: Result<(Thread, usize), Error>)
    requires
        pos <= buf.len(),
    ensures
        match r {
            Ok(vp) => sdec_thread(buf@.skip(pos as int)) == Dec::<ThreadV>::Val(
                vp.0.dv(),
                (vp.1 - pos) as nat,
            ) && pos < vp.1 <= buf.len(),
            Err(e) => (e == Error::Truncated && sdec_thread(buf@.skip(pos as int)) is Short) || (
            e == Error::Malformed && sdec_thread(buf@.skip(pos as int)) is Bad),
        },
    decreases buf.len() - pos, 1int,
{
    let ghost s = buf@.skip(pos as int);
    let (tid, p1) = match take_i32(buf, pos) {
        Ok(v) => v,
        Err(e) => {
            return Err(e);
        },
    };
    assert(s.skip(4) =~= buf@.skip(p1 as int));
    let (uid, p2) = match take_u32(buf, p1) {
        Ok(v) => v,
        Err(e) => {
            return Err(e);
        },
    };
    assert(s.skip(8) =~= buf@.skip(p2 as int));
    let (gid, p3) = match take_u32(buf, p2) {
        Ok(v) => v,
        Err(e) => {
            return Err(e);
        },
    };
    assert(s.skip(12) =~= buf@.skip(p3 as int));
    let (reg, p4) = match take_bytes(buf, p3) {
        Ok(v) => v,
        Err(e) => {
            return Err(e);
        },
    };
    assert(s.skip(12 + (p4 - p3) as int) =~= buf@.skip(p4 as int));
    let (children, p5) = match dec_processes(buf, p4) {
        Ok(v) => v,
        Err(e) => {
            return Err(e);
        },
    };
    Ok((Thread { tid, uid, gid, reg, children }, p5))
}

#[verifier::loop_isolation(false)]
#[verifier::rlimit(100)]
#[verifier::spinoff_prover]
fn dec_thread_list(buf: &Vec<u8>, pos: usize, n: u64) -> (r: Result<(Vec<Thread>, usize), Error>)
    requires
        pos <= buf.len(),
    ensures
        match r {
            Ok(vp) => sdec_thread_list(buf@.skip(pos as int), n as nat) == Dec::<
                Seq<ThreadV>,
            >::Val(dv_threads(vp.0@), (vp.1 - pos) as nat) && pos <= vp.1 <= buf.len(),
            Err(e) => (e == Error::Truncated && sdec_thread_list(
                buf@.skip(pos as int),
                n as nat,
            ) is Short) || (e == Error::Malformed && sdec_thread_list(
                buf@.skip(pos as int),
                n as nat,
            ) is Bad),
        },
    decreases buf.len() - pos, 6int,
{
    let ghost s1 = buf@.skip(pos as int);
    let mut acc: Vec<Thread> = Vec::new();
    let mut cur: usize = pos;
    let mut i: u64 = 0;
    proof {
        let w = sdec_thread_list(s1, n as nat);
        assert(dv_threads(acc@) =~= Seq::<ThreadV>::empty());
        if w is Val {
            assert(dv_threads(acc@) + w->Val_0 =~= w->Val_0);
        }
    }
    while i < n
        invariant
            i <= n,
            pos <= cur <= buf.len(),
            sdec_thread_list(s1, n as nat) == match sdec_thread_list(
                buf@.skip(cur as int),
                (n - i) as nat,
            ) {
                Dec::Val(vs, u) => Dec::<Seq<ThreadV>>::Val(
                    dv_threads(acc@) + vs,
                    (cur - pos) as nat + u,
                ),
                Dec::Short => Dec::Short,
                Dec::Bad => Dec::Bad,
            },
        decreases n - i,
    {
        let ghost accv = acc@;
        let rr = dec_thread(buf, cur);
        match rr {
            Ok((t, p2)) => {
                proof {
                    assert(buf@.skip(cur as int).skip((p2 - cur) as int) =~= buf@.skip(
                        p2 as int,
                    ));
                }
                acc.push(t);
                proof {
                    lemma_dv_threads_snoc(accv, t);
                    assert(acc@ == accv.push(t));
                    let w2 = sdec_thread_list(buf@.skip(p2 as int), (n - i - 1) as nat);
                    if w2 is Val {
                        assert(dv_threads(accv) + (seq![t.dv()] + w2->Val_0) =~= dv_threads(acc@)
                            + w2->Val_0);
                    }
                }
                cur = p2;
                i = i + 1;
            },
            Err(e) => {
                return Err(e);
            },
        }
    }
    proof {
        assert(dv_threads(acc@) + Seq::<ThreadV>::empty() =~= dv_threads(acc@));
    }
    Ok((acc, cur))
}

#[verifier::loop_isolation(false)]
#[verifier::rlimit(100)]
#[verifier::spinoff_prover]
fn dec_threads(buf: &Vec<u8>, pos: usize) -> (r: Result<(Vec<Thread>, usize), Error>)
    requires
        pos <= buf.len(),
    ensures
        match r {
            Ok(vp) => sdec_threads(buf@.skip(pos as int)) == Dec::<Seq<ThreadV>>::Val(
                dv_threads(vp.0@),
                (vp.1 - pos) as nat,
            ) && pos < vp.1 <= buf.len(),
            Err(e) => (e == Error::Truncated && sdec_threads(buf@.skip(pos as int)) is Short)
                || (e == Error::Malformed && sdec_threads(buf@.skip(pos as int)) is Bad),
        },
    decreases buf.len() - pos, 2int,
{
    let ghost s = buf@.skip(pos as int);
    let (n, p1) = match take_varint(buf, pos) {
        Ok(v) => v,
        Err(e) => {
            return Err(e);
        },
    };
    proof {
        assert(s.skip((p1 - pos) as int) =~= buf@.skip(p1 as int));
    }
    let (ts, p2) = match dec_thread_list(buf, p1, n) {
        Ok(v) => v,
        Err(e) => {
            return Err(e);
        },
    };
    Ok((ts, p2))
}

#[verifier::loop_isolation(false)]
#[verifier::rlimit(100)]
fn dec_process(buf: &Vec<u8>, pos: usize) -> (r: Result<(Process, usize), Error>)
    requires
        pos <= buf.len(),
    ensures
        match r {
            Ok(vp) => sdec_process(buf@.skip(pos as int)) == Dec::<ProcessV>::Val(
                vp.0.dv(),
                (vp.1 - pos) as nat,
            ) && pos < vp.1 <= buf.len(),
            Err(e) => (e == Error::Truncated && sdec_process(buf@.skip(pos as int)) is Short)
                || (e == Error::Malformed && sdec_process(buf@.skip(pos as int)) is Bad),
        },
    decreases buf.len() - pos, 3int,
{
    let ghost s = buf@.skip(pos as int);
    let (pid, p1) = match take_i32(buf, pos) {
        Ok(v) => v,
        Err(e) => {
            return Err(e);
        },
    };
    assert(s.skip(4) =~= buf@.skip(p1 as int));
    let (mmaps, p2) = match dec_mmaps(buf, p1) {
        Ok(v) => v,
        Err(e) => {
            return Err(e);
        },
    };
    assert(s.skip(4 + (p2 - p1) as int) =~= buf@.skip(p2 as int));
    let (fd_table, p3) = match dec_fds(buf, p2) {
        Ok(v) => v,
        Err(e) => {
            return Err(e);
        },
    };
    assert(s.skip(4 + (p2 - p1) as int + (p3 - p2) as int) =~= buf@.skip(p3 as int));
    let (threads, p4) = match dec_threads(buf, p3) {
        Ok(v) => v,
        Err(e) => {
            return Err(e);
        },
    };
    Ok((Process { pid, mmaps, fd_table, threads }, p4))
}

#[verifier::loop_isolation(false)]
#[verifier::rlimit(100)]
#[verifier::spinoff_prover]
fn dec_process_list(buf: &Vec<u8>, pos: usize, n: u64) -> (r: Result<(Vec<Process>, usize), Error>)
    requires
        pos <= buf.len(),
    ensures
        match r {
            Ok(vp) => sdec_process_list(buf@.skip(pos as int), n as nat) == Dec::<
                Seq<ProcessV>,
            >::Val(dv_processes(vp.0@), (vp.1 - pos) as nat) && pos <= vp.1 <= buf.len(),
            Err(e) => (e == Error::Truncated && sdec_process_list(
                buf@.skip(pos as int),
                n as nat,
            ) is Short) || (e == Error::Malformed && sdec_process_list(
                buf@.skip(pos as int),
                n as nat,
            ) is Bad),
        },
    decreases buf.len() - pos, 5int,
{
    let ghost s1 = buf@.skip(pos as int);
    let mut acc: Vec<Process> = Vec::new();
    let mut cur: usize = pos;
    let mut i: u64 = 0;
    proof {
        let w = sdec_process_list(s1, n as nat);
        assert(dv_processes(acc@) =~= Seq::<ProcessV>::empty());
        if w is Val {
            assert(dv_processes(acc@) + w->Val_0 =~= w->Val_0);
        }
    }
    while i < n
        invariant
            i <= n,
            pos <= cur <= buf.len(),
            sdec_process_list(s1, n as nat) == match sdec_process_list(
                buf@.skip(cur as int),
                (n - i) as nat,
            ) {
                Dec::Val(vs, u) => Dec::<Seq<ProcessV>>::Val(
                    dv_processes(acc@) + vs,
                    (cur - pos) as nat + u,
                ),
                Dec::Short => Dec::Short,
                Dec::Bad => Dec::Bad,
            },
        decreases n - i,
    {
        let ghost accv = acc@;
        let rr = dec_process(buf, cur);
        match rr {
            Ok((p, p2)) => {
                proof {
                    assert(buf@.skip(cur as int).skip((p2 - cur) as int) =~= buf@.skip(
                        p2 as int,
                    ));
                }
                acc.push(p);
                proof {
                    lemma_dv_processes_snoc(accv, p);
                    assert(acc@ == accv.push(p));
                    let w2 = sdec_process_list(buf@.skip(p2 as int), (n - i - 1) as nat);
                    if w2 is Val {
                        assert(dv_processes(accv) + (seq![p.dv()] + w2->Val_0) =~= dv_processes(
                            acc@,
                        ) + w2->Val_0);
                    }
                }
                cur = p2;
                i = i + 1;
            },
            Err(e) => {
                return Err(e);
            },
        }
    }
    proof {
        assert(dv_processes(acc@) + Seq::<ProcessV>::empty() =~= dv_processes(acc@));
    }
    Ok((acc, cur))
}

#[verifier::loop_isolation(false)]
#[verifier::rlimit(100)]
#[verifier::spinoff_prover]
fn dec_processes(buf: &Vec<u8>, pos: usize) -> (r: Result<(Vec<Process>, usize), Error>)
    requires
        pos <= buf.len(),
    ensures
        match r {
            Ok(vp) => sdec_processes(buf@.skip(pos as int)) == Dec::<Seq<ProcessV>>::Val(
                dv_processes(vp.0@),
                (vp.1 - pos) as nat,
            ) && pos < vp.1 <= buf.len(),
            Err(e) => (e == Error::Truncated && sdec_processes(buf@.skip(pos as int)) is Short)
                || (e == Error::Malformed && sdec_processes(buf@.skip(pos as int)) is Bad),
        },
    decreases buf.len() - pos, 4int,
{
    let ghost s = buf@.skip(pos as int);
    let (n, p1) = match take_varint(buf, pos) {
        Ok(v) => v,
        Err(e) => {
            return Err(e);
        },
    };
    proof {
        assert(s.skip((p1 - pos) as int) =~= buf@.skip(p1 as int));
    }
    let (ps, p2) = match dec_process_list(buf, p1, n) {
        Ok(v) => v,
        Err(e) => {
            return Err(e);
        },
    };
    Ok((ps, p2))
}

/// Decode one message off the byte stream starting at `pos`. On success,
/// the returned position is the start of the next message.
#[verifier::loop_isolation(false)]
#[verifier::rlimit(100)]
#[verifier::spinoff_prover]
pub fn decode_message(buf: &Vec<u8>, pos: usize) -> (r: Result<(EscapeeMessage, usize), Error>)
    requires
        pos <= buf.len(),
    ensures
        match r {
            Ok(vp) => sdec_msg(buf@.skip(pos as int)) == Dec::<MsgV>::Val(
                vp.0.dv(),
                (vp.1 - pos) as nat,
            ) && pos < vp.1 <= buf.len(),
            Err(e) => (e == Error::Truncated && sdec_msg(buf@.skip(pos as int)) is Short) || (e
                == Error::Malformed && sdec_msg(buf@.skip(pos as int)) is Bad),
        },
{
    let ghost s = buf@.skip(pos as int);
    if buf.len() - pos < 1 {
        return Err(Error::Truncated);
    }
    let tag = buf[pos];
    assert(s[0] == tag);
    assert(s.skip(1) =~= buf@.skip(pos as int + 1));
    if tag == 0 {
        let (ps, p1) = match dec_processes(buf, pos + 1) {
            Ok(v) => v,
            Err(e) => {
                return Err(e);
            },
        };
        Ok((EscapeeMessage::ProcessTrees(ps), p1))
    } else if tag == 1 {
        let (buffer, p1) = match take_u32(buf, pos + 1) {
            Ok(v) => v,
            Err(e) => {
                return Err(e);
            },
        };
        assert(s.skip(1).skip(4) =~= buf@.skip(p1 as int));
        let (data, p2) = match take_bytes(buf, p1) {
            Ok(v) => v,
            Err(e) => {
                return Err(e);
            },
        };
        Ok((EscapeeMessage::Buffer(Buffer { buffer, buf: data }), p2))
    } else if tag == 2 {
        let (id, p1) = match take_u32(buf, pos + 1) {
            Ok(v) => v,
            Err(e) => {
                return Err(e);
            },
        };
        assert(s.skip(1).skip(4) =~= buf@.skip(p1 as int));
        let (uid, p2) = match take_u32(buf, p1) {
            Ok(v) => v,
            Err(e) => {
                return Err(e);
            },
        };
        assert(s.skip(1).skip(8) =~= buf@.skip(p2 as int));
        let (gid, p3) = match take_u32(buf, p2) {
            Ok(v) => v,
            Err(e) => {
                return Err(e);
            },
        };
        assert(s.skip(1).skip(12) =~= buf@.skip(p3 as int));
        let (mode, p4) = match take_u32(buf, p3) {
            Ok(v) => v,
            Err(e) => {
                return Err(e);
            },
        };
        assert(s.skip(1).skip(16) =~= buf@.skip(p4 as int));
        let (path, p5) = match take_bytes(buf, p4) {
            Ok(v) => v,
            Err(e) => {
                return Err(e);
            },
        };
        Ok((EscapeeMessage::File(File { id, uid, gid, mode, path }), p5))
    } else if tag == 3 {
        let (id, p1) = match take_u32(buf, pos + 1) {
            Ok(v) => v,
            Err(e) => {
                return Err(e);
            },
        };
        assert(s.skip(1).skip(4) =~= buf@.skip(p1 as int));
        let (data, p2) = match take_bytes(buf, p1) {
            Ok(v) => v,
            Err(e) => {
                return Err(e);
            },
        };
        Ok((EscapeeMessage::FileData(FileData { id, data }), p2))
    } else if tag == 4 {
        Ok((EscapeeMessage::Done, pos + 1))
    } else {
        Err(Error::Malformed)
    }
}

} // verus!
