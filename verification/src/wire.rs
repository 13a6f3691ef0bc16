//! Primitive wire forms: little-endian integers, the variable-length
//! count prefix, and length-prefixed byte strings.
//!
//! The bit-level definitions are opaque; the rest of the codec sees them
//! only through the round-trip and length lemmas proved here.

use vstd::prelude::*;

use crate::error::Error;

verus! {

/// Outcome of a specification-level decoder on some input suffix: a value
/// together with the count of bytes it consumed, or one of the two
/// wire-format failures (`Short` — the input ended inside the value;
/// `Bad` — a tag or prefix outside the defined set).
pub ghost enum Dec<T> {
    Val(T, nat),
    Short,
    Bad,
}

// ---------------------------------------------------------------------------
// Little-endian integers: specification
// ---------------------------------------------------------------------------

#[verifier::opaque]
pub open spec fn enc_u16(x: u16) -> Seq<u8> {
    seq![(x & 0xff) as u8, ((x >> 8) & 0xff) as u8]
}

#[verifier::opaque]
pub open spec fn enc_u32(x: u32) -> Seq<u8> {
    seq![
        (x & 0xff) as u8,
        ((x >> 8) & 0xff) as u8,
        ((x >> 16) & 0xff) as u8,
        ((x >> 24) & 0xff) as u8,
    ]
}

#[verifier::opaque]
pub open spec fn enc_u64(x: u64) -> Seq<u8> {
    seq![
        (x & 0xff) as u8,
        ((x >> 8) & 0xff) as u8,
        ((x >> 16) & 0xff) as u8,
        ((x >> 24) & 0xff) as u8,
        ((x >> 32) & 0xff) as u8,
        ((x >> 40) & 0xff) as u8,
        ((x >> 48) & 0xff) as u8,
        ((x >> 56) & 0xff) as u8,
    ]
}

pub open spec fn enc_i32(x: i32) -> Seq<u8> {
    enc_u32(x as u32)
}

pub open spec fn u16_of(b0: u8, b1: u8) -> u16 {
    (b0 as u16) | ((b1 as u16) << 8)
}

pub open spec fn u32_of(b0: u8, b1: u8, b2: u8, b3: u8) -> u32 {
    (b0 as u32) | ((b1 as u32) << 8) | ((b2 as u32) << 16) | ((b3 as u32) << 24)
}

pub open spec fn u64_of(b0: u8, b1: u8, b2: u8, b3: u8, b4: u8, b5: u8, b6: u8, b7: u8) -> u64 {
    (b0 as u64) | ((b1 as u64) << 8) | ((b2 as u64) << 16) | ((b3 as u64) << 24) | ((b4
        as u64) << 32) | ((b5 as u64) << 40) | ((b6 as u64) << 48) | ((b7 as u64) << 56)
}

#[verifier::opaque]
pub open spec fn sdec_u16(s: Seq<u8>) -> Dec<u16> {
    if s.len() >= 2 {
        Dec::Val(u16_of(s[0], s[1]), 2)
    } else {
        Dec::Short
    }
}

#[verifier::opaque]
pub open spec fn sdec_u32(s: Seq<u8>) -> Dec<u32> {
    if s.len() >= 4 {
        Dec::Val(u32_of(s[0], s[1], s[2], s[3]), 4)
    } else {
        Dec::Short
    }
}

#[verifier::opaque]
pub open spec fn sdec_u64(s: Seq<u8>) -> Dec<u64> {
    if s.len() >= 8 {
        Dec::Val(u64_of(s[0], s[1], s[2], s[3], s[4], s[5], s[6], s[7]), 8)
    } else {
        Dec::Short
    }
}

pub open spec fn sdec_i32(s: Seq<u8>) -> Dec<i32> {
    match sdec_u32(s) {
        Dec::Val(x, n) => Dec::Val(x as i32, n),
        Dec::Short => Dec::Short,
        Dec::Bad => Dec::Bad,
    }
}

pub proof fn lemma_rt_u16(x: u16, rest: Seq<u8>)
    ensures
        sdec_u16(enc_u16(x) + rest) == Dec::<u16>::Val(x, 2),
{
    reveal(enc_u16);
    reveal(sdec_u16);
    let s = enc_u16(x) + rest;
    assert(s[0] == (x & 0xff) as u8 && s[1] == ((x >> 8) & 0xff) as u8);
    assert(u16_of((x & 0xff) as u8, ((x >> 8) & 0xff) as u8) == x) by (bit_vector);
}

pub proof fn lemma_rt_u32(x: u32, rest: Seq<u8>)
    ensures
        sdec_u32(enc_u32(x) + rest) == Dec::<u32>::Val(x, 4),
{
    reveal(enc_u32);
    reveal(sdec_u32);
    let s = enc_u32(x) + rest;
    assert(s[0] == (x & 0xff) as u8 && s[1] == ((x >> 8) & 0xff) as u8 && s[2] == ((x >> 16)
        & 0xff) as u8 && s[3] == ((x >> 24) & 0xff) as u8);
    assert(u32_of(
        (x & 0xff) as u8,
        ((x >> 8) & 0xff) as u8,
        ((x >> 16) & 0xff) as u8,
        ((x >> 24) & 0xff) as u8,
    ) == x) by (bit_vector);
}

pub proof fn lemma_rt_u64(x: u64, rest: Seq<u8>)
    ensures
        sdec_u64(enc_u64(x) + rest) == Dec::<u64>::Val(x, 8),
{
    reveal(enc_u64);
    reveal(sdec_u64);
    let s = enc_u64(x) + rest;
    assert(s[0] == (x & 0xff) as u8 && s[1] == ((x >> 8) & 0xff) as u8 && s[2] == ((x >> 16)
        & 0xff) as u8 && s[3] == ((x >> 24) & 0xff) as u8 && s[4] == ((x >> 32) & 0xff) as u8
        && s[5] == ((x >> 40) & 0xff) as u8 && s[6] == ((x >> 48) & 0xff) as u8 && s[7] == ((x
        >> 56) & 0xff) as u8);
    assert(u64_of(
        (x & 0xff) as u8,
        ((x >> 8) & 0xff) as u8,
        ((x >> 16) & 0xff) as u8,
        ((x >> 24) & 0xff) as u8,
        ((x >> 32) & 0xff) as u8,
        ((x >> 40) & 0xff) as u8,
        ((x >> 48) & 0xff) as u8,
        ((x >> 56) & 0xff) as u8,
    ) == x) by (bit_vector);
}

pub proof fn lemma_rt_i32(x: i32, rest: Seq<u8>)
    ensures
        sdec_i32(enc_i32(x) + rest) == Dec::<i32>::Val(x, 4),
{
    lemma_rt_u32(x as u32, rest);
    assert((x as u32) as i32 == x) by (bit_vector);
}

// ---------------------------------------------------------------------------
// Variable-length count prefix: specification
// ---------------------------------------------------------------------------

/// Counts below 251 travel as one byte; the markers 251, 252 and 253
/// announce a 16-, 32- or 64-bit little-endian count. The encoding is
/// minimal, and the decoder rejects a non-minimal form as `Bad`.
#[verifier::opaque]
pub open spec fn enc_varint(n: nat) -> Seq<u8> {
    if n < 251 {
        seq![n as u8]
    } else if n <= 0xffff {
        seq![251u8] + enc_u16(n as u16)
    } else if n <= 0xffff_ffff {
        seq![252u8] + enc_u32(n as u32)
    } else if n <= 0xffff_ffff_ffff_ffff {
        seq![253u8] + enc_u64(n as u64)
    } else {
        Seq::empty()
    }
}

#[verifier::opaque]
pub open spec fn sdec_varint(s: Seq<u8>) -> Dec<nat> {
    if s.len() < 1 {
        Dec::Short
    } else {
        let b = s[0];
        if b < 251 {
            Dec::Val(b as nat, 1)
        } else if b == 251 {
            match sdec_u16(s.skip(1)) {
                Dec::Val(x, _) => if x >= 251 {
                    Dec::Val(x as nat, 3)
                } else {
                    Dec::Bad
                },
                Dec::Short => Dec::Short,
                Dec::Bad => Dec::Bad,
            }
        } else if b == 252 {
            match sdec_u32(s.skip(1)) {
                Dec::Val(x, _) => if x > 0xffff {
                    Dec::Val(x as nat, 5)
                } else {
                    Dec::Bad
                },
                Dec::Short => Dec::Short,
                Dec::Bad => Dec::Bad,
            }
        } else if b == 253 {
            match sdec_u64(s.skip(1)) {
                Dec::Val(x, _) => if x > 0xffff_ffff {
                    Dec::Val(x as nat, 9)
                } else {
                    Dec::Bad
                },
                Dec::Short => Dec::Short,
                Dec::Bad => Dec::Bad,
            }
        } else {
            Dec::Bad
        }
    }
}

pub proof fn lemma_rt_varint(n: nat, rest: Seq<u8>)
    requires
        n <= 0xffff_ffff_ffff_ffff,
    ensures
        sdec_varint(enc_varint(n) + rest) == Dec::<nat>::Val(n, enc_varint(n).len()),
{
    reveal(enc_varint);
    reveal(sdec_varint);
    reveal(enc_u16);
    reveal(enc_u32);
    reveal(enc_u64);
    let s = enc_varint(n) + rest;
    if n < 251 {
        assert(s[0] == n as u8);
    } else if n <= 0xffff {
        assert(s[0] == 251u8);
        assert(s.skip(1) =~= enc_u16(n as u16) + rest);
        lemma_rt_u16(n as u16, rest);
    } else if n <= 0xffff_ffff {
        assert(s[0] == 252u8);
        assert(s.skip(1) =~= enc_u32(n as u32) + rest);
        lemma_rt_u32(n as u32, rest);
    } else {
        assert(s[0] == 253u8);
        assert(s.skip(1) =~= enc_u64(n as u64) + rest);
        lemma_rt_u64(n as u64, rest);
    }
}

// ---------------------------------------------------------------------------
// Byte strings: specification
// ---------------------------------------------------------------------------

#[verifier::opaque]
pub open spec fn enc_bytes(b: Seq<u8>) -> Seq<u8> {
    enc_varint(b.len()) + b
}

#[verifier::opaque]
pub open spec fn sdec_bytes(s: Seq<u8>) -> Dec<Seq<u8>> {
    match sdec_varint(s) {
        Dec::Val(n, u) => {
            if s.len() >= u + n {
                Dec::Val(s.skip(u as int).take(n as int), u + n)
            } else {
                Dec::Short
            }
        },
        Dec::Short => Dec::Short,
        Dec::Bad => Dec::Bad,
    }
}

pub proof fn lemma_rt_bytes(b: Seq<u8>, rest: Seq<u8>)
    requires
        b.len() <= 0xffff_ffff_ffff_ffff,
    ensures
        sdec_bytes(enc_bytes(b) + rest) == Dec::<Seq<u8>>::Val(b, enc_bytes(b).len()),
{
    reveal(enc_bytes);
    reveal(sdec_bytes);
    lemma_enc_varint_len(b.len());
    let s = enc_bytes(b) + rest;
    assert(s =~= enc_varint(b.len()) + (b + rest));
    lemma_rt_varint(b.len(), b + rest);
    let u = enc_varint(b.len()).len();
    assert(s.skip(u as int) =~= b + rest);
    assert(s.skip(u as int).take(b.len() as int) =~= b);
}


pub broadcast proof fn lemma_enc_u16_len(x: u16)
    ensures
        (#[trigger] enc_u16(x)).len() == 2,
{
    reveal(enc_u16);
}

pub broadcast proof fn lemma_enc_u32_len(x: u32)
    ensures
        (#[trigger] enc_u32(x)).len() == 4,
{
    reveal(enc_u32);
}

pub broadcast proof fn lemma_enc_u64_len(x: u64)
    ensures
        (#[trigger] enc_u64(x)).len() == 8,
{
    reveal(enc_u64);
}

pub broadcast proof fn lemma_enc_varint_len(n: nat)
    ensures
        n <= 0xffff_ffff_ffff_ffff ==> 1 <= (#[trigger] enc_varint(n)).len() <= 9,
{
    reveal(enc_varint);
    reveal(enc_u16);
    reveal(enc_u32);
    reveal(enc_u64);
}

pub broadcast proof fn lemma_enc_bytes_len(b: Seq<u8>)
    ensures
        (#[trigger] enc_bytes(b)).len() == enc_varint(b.len()).len() + b.len(),
{
    reveal(enc_bytes);
}

// ---------------------------------------------------------------------------
// Executable forms
// ---------------------------------------------------------------------------

pub fn push_u16(out: &mut Vec<u8>, x: u16)
    ensures
        final(out)@ == old(out)@ + enc_u16(x),
{
    proof {
        reveal(enc_u16);
    }
    out.push((x & 0xff) as u8);
    out.push(((x >> 8) & 0xff) as u8);
    assert(out@ =~= old(out)@ + enc_u16(x));
}

pub fn push_u32(out: &mut Vec<u8>, x: u32)
    ensures
        final(out)@ == old(out)@ + enc_u32(x),
{
    proof {
        reveal(enc_u32);
    }
    out.push((x & 0xff) as u8);
    out.push(((x >> 8) & 0xff) as u8);
    out.push(((x >> 16) & 0xff) as u8);
    out.push(((x >> 24) & 0xff) as u8);
    assert(out@ =~= old(out)@ + enc_u32(x));
}

pub fn push_u64(out: &mut Vec<u8>, x: u64)
    ensures
        final(out)@ == old(out)@ + enc_u64(x),
{
    proof {
        reveal(enc_u64);
    }
    out.push((x & 0xff) as u8);
    out.push(((x >> 8) & 0xff) as u8);
    out.push(((x >> 16) & 0xff) as u8);
    out.push(((x >> 24) & 0xff) as u8);
    out.push(((x >> 32) & 0xff) as u8);
    out.push(((x >> 40) & 0xff) as u8);
    out.push(((x >> 48) & 0xff) as u8);
    out.push(((x >> 56) & 0xff) as u8);
    assert(out@ =~= old(out)@ + enc_u64(x));
}

pub fn push_i32(out: &mut Vec<u8>, x: i32)
    ensures
        final(out)@ == old(out)@ + enc_i32(x),
{
    push_u32(out, x as u32);
}

pub fn push_varint(out: &mut Vec<u8>, n: u64)
    ensures
        final(out)@ == old(out)@ + enc_varint(n as nat),
{
    proof {
        reveal(enc_varint);
    }
    if n < 251 {
        out.push(n as u8);
        assert(out@ =~= old(out)@ + enc_varint(n as nat));
    } else if n <= 0xffff {
        out.push(251u8);
        push_u16(out, n as u16);
        assert(out@ =~= old(out)@ + enc_varint(n as nat));
    } else if n <= 0xffff_ffff {
        out.push(252u8);
        push_u32(out, n as u32);
        assert(out@ =~= old(out)@ + enc_varint(n as nat));
    } else {
        out.push(253u8);
        push_u64(out, n);
        assert(out@ =~= old(out)@ + enc_varint(n as nat));
    }
}

pub fn push_bytes(out: &mut Vec<u8>, b: &Vec<u8>)
    ensures
        final(out)@ == old(out)@ + enc_bytes(b@),
{
    proof {
        reveal(enc_bytes);
    }
    push_varint(out, b.len() as u64);
    let ghost mid = out@;
    let mut i: usize = 0;
    while i < b.len()
        invariant
            i <= b.len(),
            out@ == mid + b@.take(i as int),
        decreases b.len() - i,
    {
        out.push(b[i]);
        assert(out@ =~= mid + b@.take(i as int + 1));
        i = i + 1;
    }
    assert(b@.take(b.len() as int) =~= b@);
    assert(out@ =~= old(out)@ + enc_bytes(b@));
}

pub fn take_u16(buf: &Vec<u8>, pos: usize) -> (r: Result<(u16, usize), Error>)
    requires
        pos <= buf.len(),
    ensures
        match r {
            Ok(vp) => sdec_u16(buf@.skip(pos as int)) == Dec::<u16>::Val(
                vp.0,
                (vp.1 - pos) as nat,
            ) && vp.1 == pos + 2 && vp.1 <= buf.len(),
            Err(e) => e == Error::Truncated && sdec_u16(buf@.skip(pos as int)) is Short,
        },
{
    proof {
        reveal(sdec_u16);
    }
    if buf.len() - pos >= 2 {
        let b0 = buf[pos];
        let b1 = buf[pos + 1];
        assert(buf@.skip(pos as int)[0] == b0 && buf@.skip(pos as int)[1] == b1);
        Ok(((b0 as u16) | ((b1 as u16) << 8), pos + 2))
    } else {
        Err(Error::Truncated)
    }
}

pub fn take_u32(buf: &Vec<u8>, pos: usize) -> (r: Result<(u32, usize), Error>)
    requires
        pos <= buf.len(),
    ensures
        match r {
            Ok(vp) => sdec_u32(buf@.skip(pos as int)) == Dec::<u32>::Val(
                vp.0,
                (vp.1 - pos) as nat,
            ) && vp.1 == pos + 4 && vp.1 <= buf.len(),
            Err(e) => e == Error::Truncated && sdec_u32(buf@.skip(pos as int)) is Short,
        },
{
    proof {
        reveal(sdec_u32);
    }
    if buf.len() - pos >= 4 {
        let b0 = buf[pos];
        let b1 = buf[pos + 1];
        let b2 = buf[pos + 2];
        let b3 = buf[pos + 3];
        assert(buf@.skip(pos as int)[0] == b0 && buf@.skip(pos as int)[1] == b1 && buf@.skip(
            pos as int,
        )[2] == b2 && buf@.skip(pos as int)[3] == b3);
        Ok(
            (
                (b0 as u32) | ((b1 as u32) << 8) | ((b2 as u32) << 16) | ((b3 as u32) << 24),
                pos + 4,
            ),
        )
    } else {
        Err(Error::Truncated)
    }
}

pub fn take_u64(buf: &Vec<u8>, pos: usize) -> (r: Result<(u64, usize), Error>)
    requires
        pos <= buf.len(),
    ensures
        match r {
            Ok(vp) => sdec_u64(buf@.skip(pos as int)) == Dec::<u64>::Val(
                vp.0,
                (vp.1 - pos) as nat,
            ) && vp.1 == pos + 8 && vp.1 <= buf.len(),
            Err(e) => e == Error::Truncated && sdec_u64(buf@.skip(pos as int)) is Short,
        },
{
    proof {
        reveal(sdec_u64);
    }
    if buf.len() - pos >= 8 {
        let b0 = buf[pos];
        let b1 = buf[pos + 1];
        let b2 = buf[pos + 2];
        let b3 = buf[pos + 3];
        let b4 = buf[pos + 4];
        let b5 = buf[pos + 5];
        let b6 = buf[pos + 6];
        let b7 = buf[pos + 7];
        assert(buf@.skip(pos as int)[0] == b0 && buf@.skip(pos as int)[1] == b1 && buf@.skip(
            pos as int,
        )[2] == b2 && buf@.skip(pos as int)[3] == b3 && buf@.skip(pos as int)[4] == b4
            && buf@.skip(pos as int)[5] == b5 && buf@.skip(pos as int)[6] == b6 && buf@.skip(
            pos as int,
        )[7] == b7);
        Ok(
            (
                (b0 as u64) | ((b1 as u64) << 8) | ((b2 as u64) << 16) | ((b3 as u64) << 24) | ((
                b4 as u64) << 32) | ((b5 as u64) << 40) | ((b6 as u64) << 48) | ((b7
                    as u64) << 56),
                pos + 8,
            ),
        )
    } else {
        Err(Error::Truncated)
    }
}

pub fn take_i32(buf: &Vec<u8>, pos: usize) -> (r: Result<(i32, usize), Error>)
    requires
        pos <= buf.len(),
    ensures
        match r {
            Ok(vp) => sdec_i32(buf@.skip(pos as int)) == Dec::<i32>::Val(
                vp.0,
                (vp.1 - pos) as nat,
            ) && vp.1 == pos + 4 && vp.1 <= buf.len(),
            Err(e) => e == Error::Truncated && sdec_i32(buf@.skip(pos as int)) is Short,
        },
{
    match take_u32(buf, pos) {
        Ok((v, p)) => Ok((v as i32, p)),
        Err(e) => Err(e),
    }
}

pub fn take_varint(buf: &Vec<u8>, pos: usize) -> (r: Result<(u64, usize), Error>)
    requires
        pos <= buf.len(),
    ensures
        match r {
            Ok(vp) => sdec_varint(buf@.skip(pos as int)) == Dec::<nat>::Val(
                vp.0 as nat,
                (vp.1 - pos) as nat,
            ) && pos < vp.1 <= buf.len(),
            Err(e) => (e == Error::Truncated && sdec_varint(buf@.skip(pos as int)) is Short) || (
            e == Error::Malformed && sdec_varint(buf@.skip(pos as int)) is Bad),
        },
{
    proof {
        reveal(sdec_varint);
    }
    if buf.len() - pos < 1 {
        return Err(Error::Truncated);
    }
    let b = buf[pos];
    assert(buf@.skip(pos as int)[0] == b);
    if b < 251 {
        Ok((b as u64, pos + 1))
    } else if b == 251 {
        assert(buf@.skip(pos as int).skip(1) =~= buf@.skip(pos as int + 1));
        match take_u16(buf, pos + 1) {
            Ok((x, p)) => if x >= 251 {
                Ok((x as u64, p))
            } else {
                Err(Error::Malformed)
            },
            Err(e) => Err(e),
        }
    } else if b == 252 {
        assert(buf@.skip(pos as int).skip(1) =~= buf@.skip(pos as int + 1));
        match take_u32(buf, pos + 1) {
            Ok((x, p)) => if x > 0xffff {
                Ok((x as u64, p))
            } else {
                Err(Error::Malformed)
            },
            Err(e) => Err(e),
        }
    } else if b == 253 {
        assert(buf@.skip(pos as int).skip(1) =~= buf@.skip(pos as int + 1));
        match take_u64(buf, pos + 1) {
            Ok((x, p)) => if x > 0xffff_ffff {
                Ok((x, p))
            } else {
                Err(Error::Malformed)
            },
            Err(e) => Err(e),
        }
    } else {
        Err(Error::Malformed)
    }
}

pub fn take_bytes(buf: &Vec<u8>, pos: usize) -> (r: Result<(Vec<u8>, usize), Error>)
    requires
        pos <= buf.len(),
    ensures
        match r {
            Ok(vp) => sdec_bytes(buf@.skip(pos as int)) == Dec::<Seq<u8>>::Val(
                vp.0@,
                (vp.1 - pos) as nat,
            ) && pos < vp.1 <= buf.len(),
            Err(e) => (e == Error::Truncated && sdec_bytes(buf@.skip(pos as int)) is Short) || (
            e == Error::Malformed && sdec_bytes(buf@.skip(pos as int)) is Bad),
        },
{
    proof {
        reveal(sdec_bytes);
    }
    let ghost s = buf@.skip(pos as int);
    let (n, p1) = match take_varint(buf, pos) {
        Ok(v) => v,
        Err(e) => {
            return Err(e);
        },
    };
    if ((buf.len() - p1) as u64) < n {
        return Err(Error::Truncated);
    }
    let n_us = n as usize;
    let mut data: Vec<u8> = Vec::new();
    let mut i: usize = 0;
    while i < n_us
        invariant
            i <= n_us,
            pos < p1 <= buf.len(),
            n_us == n,
            n_us <= buf.len() - p1,
            data@ == buf@.skip(p1 as int).take(i as int),
        decreases n_us - i,
    {
        data.push(buf[p1 + i]);
        assert(data@ =~= buf@.skip(p1 as int).take(i as int + 1));
        i = i + 1;
    }
    proof {
        let u = (p1 - pos) as nat;
        assert(s.skip(u as int) =~= buf@.skip(p1 as int));
        assert(s.len() >= u + n as nat);
        assert(data@ == s.skip(u as int).take(n as int));
    }
    Ok((data, p1 + n_us))
}

} // verus!
