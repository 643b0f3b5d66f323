//! Length-prefixed frames on the wire: four bytes of big-endian length,
//! then the payload.
use vstd::prelude::*;
use crate::protocol::ClientId;

verus! {

/// Bytes in a frame header.
pub const HEADER_LEN: usize = 4;

/// The four big-endian bytes of `n`.
pub open spec fn be32(n: u32) -> Seq<u8> {
    seq![
        (n / 0x100_0000) as u8,
        ((n / 0x1_0000) % 0x100) as u8,
        ((n / 0x100) % 0x100) as u8,
        (n % 0x100) as u8,
    ]
}

/// The number that four big-endian bytes spell.
pub open spec fn from_be32(b: Seq<u8>) -> int {
    b[0] as int * 0x100_0000 + b[1] as int * 0x1_0000 + b[2] as int * 0x100 + b[3] as int
}

/// The eight little-endian bytes of `n`.
pub open spec fn le64(n: u64) -> Seq<u8> {
    Seq::new(8, |i: int| ((n as int / pow256(i)) % 0x100) as u8)
}

pub open spec fn pow256(i: int) -> int
    decreases i,
{
    if i <= 0 {
        1
    } else {
        0x100 * pow256(i - 1)
    }
}

/// The frame that carries `payload`.
pub open spec fn frame_of(payload: Seq<u8>) -> Seq<u8> {
    be32(payload.len() as u32) + payload
}

/// The first frame at the start of `buf`: its payload and the bytes it
/// takes; `None` while the header or the payload is incomplete.
pub open spec fn parse_frame(buf: Seq<u8>) -> Option<(Seq<u8>, int)> {
    if buf.len() < HEADER_LEN {
        None
    } else {
        let n = from_be32(buf.subrange(0, 4));
        if buf.len() < HEADER_LEN + n {
            None
        } else {
            Some((buf.subrange(4, 4 + n), 4 + n))
        }
    }
}

proof fn lemma_be32_round_trip(n: u32)
    ensures
        from_be32(be32(n)) == n,
{
    let b = be32(n);
    assert(b[0] as int == n / 0x100_0000);
    assert(b[1] as int == (n / 0x1_0000) % 0x100);
    assert(b[2] as int == (n / 0x100) % 0x100);
    assert(b[3] as int == n % 0x100);
}

/// A frame read back from the start of any stream yields the payload it
/// carries, and takes exactly its own bytes.
pub proof fn lemma_frame_round_trip(payload: Seq<u8>, rest: Seq<u8>)
    requires
        payload.len() <= u32::MAX,
    ensures
        parse_frame(frame_of(payload) + rest) == Some((payload, payload.len() + HEADER_LEN)),
{
    let buf = frame_of(payload) + rest;
    lemma_be32_round_trip(payload.len() as u32);
    assert(buf.subrange(0, 4) =~= be32(payload.len() as u32));
    assert(buf.subrange(4, 4 + payload.len() as int) =~= payload);
}

/// The frame carrying `payload`; `None` when its length does not fit the
/// four-byte header.
pub fn encode_frame(payload: &Vec<u8>) -> (r: Option<Vec<u8>>)
    ensures
        payload@.len() <= u32::MAX ==> r.is_some() && r.unwrap()@ == frame_of(payload@),
        payload@.len() > u32::MAX ==> r.is_none(),
{
    if payload.len() > 0xffff_ffff {
        return None;
    }
    let n = payload.len() as u32;
    let mut out: Vec<u8> = Vec::new();
    out.push((n / 0x100_0000) as u8);
    out.push(((n / 0x1_0000) % 0x100) as u8);
    out.push(((n / 0x100) % 0x100) as u8);
    out.push((n % 0x100) as u8);
    let mut i: usize = 0;
    while i < payload.len()
        invariant
            i <= payload@.len(),
            out@ == be32(n) + payload@.take(i as int),
        decreases payload@.len() - i,
    {
        out.push(payload[i]);
        i = i + 1;
        assert(out@ =~= be32(n) + payload@.take(i as int));
    }
    assert(payload@.take(i as int) =~= payload@);
    Some(out)
}

/// The payload length that the header at the start of `buf` announces.
pub fn frame_len(buf: &Vec<u8>) -> (r: u32)
    requires
        buf@.len() >= HEADER_LEN,
    ensures
        r == from_be32(buf@.subrange(0, 4)),
{
    let r = (buf[0] as u32) * 0x100_0000 + (buf[1] as u32) * 0x1_0000 + (buf[2] as u32) * 0x100
        + (buf[3] as u32);
    r
}

/// Splits the first frame off the start of `buf`: its payload and the
/// number of bytes it takes, or `None` while it is incomplete.
pub fn decode_frame(buf: &Vec<u8>) -> (r: Option<(Vec<u8>, usize)>)
    ensures
        r.is_none() <==> parse_frame(buf@).is_none(),
        r.is_some() ==> parse_frame(buf@) == Some((r.unwrap().0@, r.unwrap().1 as int)),
{
    if buf.len() < HEADER_LEN {
        return None;
    }
    let n = frame_len(buf) as usize;
    assert(buf@.len() <= usize::MAX);
    if buf.len() - HEADER_LEN < n {
        return None;
    }
    let mut out: Vec<u8> = Vec::new();
    let mut i: usize = 0;
    while i < n
        invariant
            i <= n,
            HEADER_LEN + n <= buf@.len(),
            buf@.len() <= usize::MAX,
            out@ == buf@.subrange(4, 4 + i),
        decreases n - i,
    {
        out.push(buf[HEADER_LEN + i]);
        i = i + 1;
        assert(out@ =~= buf@.subrange(4, 4 + i));
    }
    Some((out, HEADER_LEN + n))
}

/// The eight little-endian bytes of `n`.
pub fn encode_u64_le(n: u64) -> (r: Vec<u8>)
    ensures
        r@ == le64(n),
{
    let mut out: Vec<u8> = Vec::new();
    let mut m: u64 = n;
    let mut i: usize = 0;
    while i < 8
        invariant
            i <= 8,
            m as int == n as int / pow256(i as int),
            out@ == le64(n).take(i as int),
        decreases 8 - i,
    {
        out.push((m % 0x100) as u8);
        proof {
            assert(pow256(i as int) > 0) by {
                lemma_pow256_positive(i as int);
            }
            vstd::arithmetic::div_mod::lemma_div_denominator(n as int, pow256(i as int), 0x100);
            assert(pow256(i as int + 1) == 0x100 * pow256(i as int));
            assert(pow256(i as int) * 0x100 == 0x100 * pow256(i as int)) by (nonlinear_arith);
            assert(out@ =~= le64(n).take(i as int + 1));
        }
        m = m / 0x100;
        i = i + 1;
    }
    assert(le64(n).take(8) =~= le64(n));
    out
}

proof fn lemma_pow256_positive(i: int)
    ensures
        pow256(i) > 0,
    decreases i,
{
    if i > 0 {
        lemma_pow256_positive(i - 1);
    }
}

/// The host's first frame to a participant: its assigned id as a
/// little-endian `u64`.
pub fn client_id_frame(id: ClientId) -> (r: Vec<u8>)
    ensures
        r@ == frame_of(le64(id.0)),
{
    let payload = encode_u64_le(id.0);
    encode_frame(&payload).unwrap()
}

} // verus!
