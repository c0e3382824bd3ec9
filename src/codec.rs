//! The wire: frames of `[u32 big-endian length][payload]`, and the payloads
//! of the handshake and of the pointer hand-over, whose integers are written
//! by bincode.

use vstd::prelude::*;

use crate::display::Cid;

verus! {

/// The largest payload a frame may carry: one MiB.
pub const MAX_FRAME_LEN: u32 = 1048576;

/// Why bytes could not be read as a frame or a payload.
#[derive(Debug, Clone, Copy, PartialEq, Eq, Structural)]
pub enum CodecError {
    /// The bytes end inside the frame or the value.
    Truncated,
    /// The frame announces a payload longer than `MAX_FRAME_LEN`.
    Oversized,
    /// The payload is not a value of the expected kind.
    Malformed,
}

/// The outcome that closes the handshake.
#[derive(Debug, Clone, Copy, PartialEq, Eq, Structural)]
pub enum HandshakeStatus {
    HandshakeOk,
    HandshakeErr,
}

/// bincode's error, which the wrappers below hand back and the library only
/// tells apart from success.
#[verifier::external_type_specification]
#[verifier::external_body]
pub struct ExBincodeErrorKind(bincode::ErrorKind);

/// The four bytes of `v`, most significant first.
pub open spec fn be_bytes(v: int) -> Seq<u8> {
    seq![
        ((v / 0x1000000) % 0x100) as u8,
        ((v / 0x10000) % 0x100) as u8,
        ((v / 0x100) % 0x100) as u8,
        (v % 0x100) as u8,
    ]
}

/// The four bytes of `v`, least significant first.
pub open spec fn le_bytes(v: int) -> Seq<u8> {
    seq![
        (v % 0x100) as u8,
        ((v / 0x100) % 0x100) as u8,
        ((v / 0x10000) % 0x100) as u8,
        ((v / 0x1000000) % 0x100) as u8,
    ]
}

/// The number that the first four bytes of `b` spell, most significant first.
pub open spec fn be_value(b: Seq<u8>) -> int {
    b[0] * 0x1000000 + b[1] * 0x10000 + b[2] * 0x100 + b[3]
}

/// The number that the first four bytes of `b` spell, least significant first.
pub open spec fn le_value(b: Seq<u8>) -> int {
    b[0] + b[1] * 0x100 + b[2] * 0x10000 + b[3] * 0x1000000
}

/// The frame that carries `payload`.
pub open spec fn frame(payload: Seq<u8>) -> Seq<u8> {
    be_bytes(payload.len() as int) + payload
}

/// The first frame of `b`: its payload and the number of bytes it takes.
pub open spec fn unframe(b: Seq<u8>) -> Result<(Seq<u8>, int), CodecError> {
    if b.len() < 4 {
        Err(CodecError::Truncated)
    } else if be_value(b) > MAX_FRAME_LEN {
        Err(CodecError::Oversized)
    } else if b.len() < 4 + be_value(b) {
        Err(CodecError::Truncated)
    } else {
        Ok((b.subrange(4, 4 + be_value(b)), 4 + be_value(b)))
    }
}

/// The frames that carry `ps`, one after the other.
pub open spec fn frames(ps: Seq<Seq<u8>>) -> Seq<u8>
    decreases ps.len(),
{
    if ps.len() == 0 {
        Seq::empty()
    } else {
        frame(ps[0]) + frames(ps.drop_first())
    }
}

/// The payloads of the complete frames at the start of `b`, in order.
pub open spec fn unframe_all(b: Seq<u8>) -> Seq<Seq<u8>>
    decreases b.len(),
{
    match unframe(b) {
        Ok((p, used)) => if 0 < used <= b.len() {
            seq![p] + unframe_all(b.subrange(used, b.len() as int))
        } else {
            Seq::empty()
        },
        Err(_) => Seq::empty(),
    }
}

proof fn lemma_be_round_trip(v: int)
    requires
        0 <= v <= u32::MAX,
    ensures
        be_value(be_bytes(v)) == v,
{
    let b = be_bytes(v);
    assert(b[0] == (v / 0x1000000) % 0x100);
    assert(b[1] == (v / 0x10000) % 0x100);
    assert(b[2] == (v / 0x100) % 0x100);
    assert(b[3] == v % 0x100);
    assert(be_value(b) == v) by (nonlinear_arith)
        requires
            0 <= v <= u32::MAX,
            b[0] == (v / 0x1000000) % 0x100,
            b[1] == (v / 0x10000) % 0x100,
            b[2] == (v / 0x100) % 0x100,
            b[3] == v % 0x100,
            be_value(b) == b[0] * 0x1000000 + b[1] * 0x10000 + b[2] * 0x100 + b[3],
    ;
}

proof fn lemma_le_round_trip(v: int)
    requires
        0 <= v <= u32::MAX,
    ensures
        le_value(le_bytes(v)) == v,
{
    let b = le_bytes(v);
    assert(b[0] == v % 0x100);
    assert(b[1] == (v / 0x100) % 0x100);
    assert(b[2] == (v / 0x10000) % 0x100);
    assert(b[3] == (v / 0x1000000) % 0x100);
    assert(le_value(b) == v) by (nonlinear_arith)
        requires
            0 <= v <= u32::MAX,
            b[0] == v % 0x100,
            b[1] == (v / 0x100) % 0x100,
            b[2] == (v / 0x10000) % 0x100,
            b[3] == (v / 0x1000000) % 0x100,
            le_value(b) == b[0] + b[1] * 0x100 + b[2] * 0x10000 + b[3] * 0x1000000,
    ;
}

/// A payload of at most `MAX_FRAME_LEN` bytes comes out of its frame as it went
/// in, whatever bytes follow the frame.
pub proof fn lemma_frame_round_trip(p: Seq<u8>, rest: Seq<u8>)
    requires
        p.len() <= MAX_FRAME_LEN,
    ensures
        unframe(frame(p) + rest) == Ok::<(Seq<u8>, int), CodecError>((p, 4 + p.len() as int)),
{
    let b = frame(p) + rest;
    lemma_be_round_trip(p.len() as int);
    assert(b.subrange(0, 4) =~= be_bytes(p.len() as int));
    assert(be_value(b) == be_value(be_bytes(p.len() as int)));
    assert(b.subrange(4, 4 + p.len() as int) =~= p);
}

/// Frames sent one after the other on a connection come out in the order in
/// which they were sent, each payload as it was.
pub proof fn lemma_frames_in_order(ps: Seq<Seq<u8>>)
    requires
        forall|i: int| 0 <= i < ps.len() ==> (#[trigger] ps[i]).len() <= MAX_FRAME_LEN,
    ensures
        unframe_all(frames(ps)) == ps,
    decreases ps.len(),
{
    if ps.len() > 0 {
        let rest = frames(ps.drop_first());
        lemma_frame_round_trip(ps[0], rest);
        let b = frames(ps);
        assert(b == frame(ps[0]) + rest);
        assert(b.subrange(4 + ps[0].len() as int, b.len() as int) =~= rest);
        lemma_frames_in_order(ps.drop_first());
        assert(seq![ps[0]] + ps.drop_first() =~= ps);
    } else {
        assert(unframe(Seq::<u8>::empty()) is Err);
    }
}

/// Puts `payload` into a frame.
pub fn encode_frame(payload: &Vec<u8>) -> (r: Result<Vec<u8>, CodecError>)
    ensures
        payload@.len() <= MAX_FRAME_LEN ==> r == Ok::<Vec<u8>, CodecError>(r->Ok_0) && r->Ok_0@
            == frame(payload@),
        payload@.len() > MAX_FRAME_LEN ==> r == Err::<Vec<u8>, CodecError>(CodecError::Oversized),
{
    if payload.len() > MAX_FRAME_LEN as usize {
        return Err(CodecError::Oversized);
    }
    let n = payload.len() as u32;
    let mut out: Vec<u8> = Vec::new();
    out.push((n / 0x1000000) as u8);
    out.push(((n / 0x10000) % 0x100) as u8);
    out.push(((n / 0x100) % 0x100) as u8);
    out.push((n % 0x100) as u8);
    let mut i: usize = 0;
    while i < payload.len()
        invariant
            0 <= i <= payload@.len(),
            out@ == be_bytes(payload@.len() as int) + payload@.subrange(0, i as int),
        decreases payload.len() - i,
    {
        out.push(payload[i]);
        assert(payload@.subrange(0, i + 1) =~= payload@.subrange(0, i as int).push(payload@[i as int]));
        i += 1;
    }
    assert(payload@.subrange(0, i as int) =~= payload@);
    Ok(out)
}

/// The payload length that a frame header announces: `Truncated` when fewer
/// than four bytes are given, `Oversized` past `MAX_FRAME_LEN`.
pub fn frame_len(header: &[u8]) -> (r: Result<usize, CodecError>)
    ensures
        header@.len() < 4 ==> r == Err::<usize, CodecError>(CodecError::Truncated),
        header@.len() >= 4 && be_value(header@) > MAX_FRAME_LEN ==> r == Err::<usize, CodecError>(
            CodecError::Oversized,
        ),
        header@.len() >= 4 && be_value(header@) <= MAX_FRAME_LEN ==> r == Ok::<usize, CodecError>(
            be_value(header@) as usize,
        ),
{
    if header.len() < 4 {
        return Err(CodecError::Truncated);
    }
    let n: u64 = header[0] as u64 * 0x1000000 + header[1] as u64 * 0x10000 + header[2] as u64
        * 0x100 + header[3] as u64;
    if n > MAX_FRAME_LEN as u64 {
        return Err(CodecError::Oversized);
    }
    Ok(n as usize)
}

/// The first frame of `buf`: its payload, and how many bytes of `buf` it takes.
pub fn decode_frame(buf: &[u8]) -> (r: Result<(Vec<u8>, usize), CodecError>)
    ensures
        match r {
            Ok((p, used)) => unframe(buf@) == Ok::<(Seq<u8>, int), CodecError>((p@, used as int)),
            Err(e) => unframe(buf@) == Err::<(Seq<u8>, int), CodecError>(e),
        },
{
    let n = match frame_len(buf) {
        Ok(n) => n,
        Err(e) => {
            return Err(e);
        },
    };
    if buf.len() - 4 < n {
        return Err(CodecError::Truncated);
    }
    let end = 4 + n;
    let mut p: Vec<u8> = Vec::new();
    let mut i: usize = 4;
    while i < end
        invariant
            4 <= i <= end,
            end == 4 + n,
            end <= buf@.len(),
            p@ == buf@.subrange(4, i as int),
        decreases end - i,
    {
        p.push(buf[i]);
        assert(buf@.subrange(4, i + 1) =~= buf@.subrange(4, i as int).push(buf@[i as int]));
        i += 1;
    }
    Ok((p, 4 + n))
}

/// The payloads of the complete frames at the start of `buf`, in order, and
/// how many bytes they take; what follows them waits for more bytes.
pub fn split_frames(buf: &[u8]) -> (r: (Vec<Vec<u8>>, usize))
    ensures
        r.0@.map_values(|p: Vec<u8>| p@) == unframe_all(buf@),
        r.1 <= buf@.len(),
{
    let total = buf.len();
    let mut out: Vec<Vec<u8>> = Vec::new();
    let mut at: usize = 0;
    let mut rest: Vec<u8> = slice_tail(buf, 0);
    assert(buf@.subrange(0, buf@.len() as int) =~= buf@);
    loop
        invariant
            at <= buf@.len(),
            total == buf@.len(),
            rest@ == buf@.subrange(at as int, buf@.len() as int),
            out@.map_values(|p: Vec<u8>| p@) + unframe_all(rest@) == unframe_all(buf@),
        decreases buf@.len() - at,
    {
        match decode_frame(rest.as_slice()) {
            Ok((p, used)) => {
                let ghost old_rest = rest@;
                assert(used <= old_rest.len());
                let ghost old_out = out@.map_values(|q: Vec<u8>| q@);
                assert(unframe_all(old_rest) == seq![p@] + unframe_all(
                    old_rest.subrange(used as int, old_rest.len() as int),
                ));
                out.push(p);
                at = at + used;
                rest = slice_tail(buf, at);
                assert(old_rest.subrange(used as int, old_rest.len() as int) =~= rest@);
                assert(out@.map_values(|q: Vec<u8>| q@) =~= old_out.push(p@));
                assert(old_out.push(p@) + unframe_all(rest@) =~= old_out + (seq![p@] + unframe_all(
                    rest@,
                )));
            },
            Err(_) => {
                assert(unframe_all(rest@) == Seq::<Seq<u8>>::empty());
                assert(out@.map_values(|q: Vec<u8>| q@) + Seq::<Seq<u8>>::empty() =~= out@.map_values(
                    |q: Vec<u8>| q@,
                ));
                return (out, at);
            },
        }
    }
}

/// The bytes of `buf` from index `from` on.
fn slice_tail(buf: &[u8], from: usize) -> (r: Vec<u8>)
    requires
        from <= buf@.len(),
    ensures
        r@ == buf@.subrange(from as int, buf@.len() as int),
{
    let mut r: Vec<u8> = Vec::new();
    let mut i = from;
    while i < buf.len()
        invariant
            from <= i <= buf@.len(),
            r@ == buf@.subrange(from as int, i as int),
        decreases buf.len() - i,
    {
        r.push(buf[i]);
        assert(buf@.subrange(from as int, i + 1) =~= buf@.subrange(from as int, i as int).push(
            buf@[i as int],
        ));
        i += 1;
    }
    r
}

/// Relies on bincode::serialize: under bincode's default configuration a `u32`
/// is written as its four bytes, least significant first, and writing into a
/// `Vec` does not fail.
#[verifier::external_body]
fn bincode_serialize_u32(v: u32) -> (r: Result<Vec<u8>, Box<bincode::ErrorKind>>)
    ensures
        r is Ok,
        r->Ok_0@ == le_bytes(v as int),
{
    bincode::serialize(&v)
}

/// Relies on bincode::deserialize: under bincode's default configuration a
/// `u32` is read from the first four bytes, least significant first; further
/// bytes are left unread, and fewer than four bytes are an error.
#[verifier::external_body]
fn bincode_deserialize_u32(b: &[u8]) -> (r: Result<u32, Box<bincode::ErrorKind>>)
    ensures
        r is Ok <==> b@.len() >= 4,
        r is Ok ==> r->Ok_0 as int == le_value(b@),
{
    bincode::deserialize(b)
}

/// The payload that carries the number `v`.
pub fn encode_u32(v: u32) -> (r: Vec<u8>)
    ensures
        r@ == le_bytes(v as int),
{
    match bincode_serialize_u32(v) {
        Ok(b) => b,
        Err(_) => Vec::new(),
    }
}

/// The number that a payload carries.
pub fn decode_u32(b: &[u8]) -> (r: Result<u32, CodecError>)
    ensures
        b@.len() < 4 ==> r == Err::<u32, CodecError>(CodecError::Truncated),
        b@.len() >= 4 ==> r == Ok::<u32, CodecError>(le_value(b@) as u32),
{
    match bincode_deserialize_u32(b) {
        Ok(v) => Ok(v),
        Err(_) => Err(CodecError::Truncated),
    }
}

/// A number written and read back is the same number.
pub proof fn lemma_u32_round_trip(v: u32)
    ensures
        le_value(le_bytes(v as int)) == v,
{
    lemma_le_round_trip(v as int);
}

/// The payload of the client's `Hello`: its identifier.
pub fn encode_hello(cid: Cid) -> (r: Vec<u8>)
    ensures
        r@ == le_bytes(cid as int),
{
    encode_u32(cid)
}

/// The payload that carries a handshake outcome: its index, `0` for success.
pub fn encode_status(s: HandshakeStatus) -> (r: Vec<u8>)
    ensures
        r@ == le_bytes(status_index(s)),
{
    match s {
        HandshakeStatus::HandshakeOk => encode_u32(0),
        HandshakeStatus::HandshakeErr => encode_u32(1),
    }
}

pub open spec fn status_index(s: HandshakeStatus) -> int {
    match s {
        HandshakeStatus::HandshakeOk => 0,
        HandshakeStatus::HandshakeErr => 1,
    }
}

/// A handshake outcome written and read back is the same outcome.
pub proof fn lemma_status_round_trip(s: HandshakeStatus)
    ensures
        le_bytes(status_index(s)).len() == 4,
        le_value(le_bytes(status_index(s))) == status_index(s),
{
    lemma_le_round_trip(status_index(s));
}

/// The handshake outcome that a payload carries.
pub fn decode_status(b: &[u8]) -> (r: Result<HandshakeStatus, CodecError>)
    ensures
        b@.len() < 4 ==> r == Err::<HandshakeStatus, CodecError>(CodecError::Truncated),
        b@.len() >= 4 && le_value(b@) == 0 ==> r == Ok::<HandshakeStatus, CodecError>(
            HandshakeStatus::HandshakeOk,
        ),
        b@.len() >= 4 && le_value(b@) == 1 ==> r == Ok::<HandshakeStatus, CodecError>(
            HandshakeStatus::HandshakeErr,
        ),
        b@.len() >= 4 && le_value(b@) > 1 ==> r == Err::<HandshakeStatus, CodecError>(
            CodecError::Malformed,
        ),
{
    match decode_u32(b) {
        Ok(0) => Ok(HandshakeStatus::HandshakeOk),
        Ok(1) => Ok(HandshakeStatus::HandshakeErr),
        Ok(_) => Err(CodecError::Malformed),
        Err(e) => Err(e),
    }
}

/// The payload of a warp point: `x`, then `y`.
pub fn encode_warp_point(x: i32, y: i32) -> (r: Vec<u8>)
    ensures
        r@ == le_bytes(x as u32 as int) + le_bytes(y as u32 as int),
{
    let mut r = encode_u32(x as u32);
    let mut second = encode_u32(y as u32);
    r.append(&mut second);
    r
}

/// The warp point that a payload carries.
pub fn decode_warp_point(b: &[u8]) -> (r: Result<(i32, i32), CodecError>)
    ensures
        b@.len() < 8 ==> r == Err::<(i32, i32), CodecError>(CodecError::Truncated),
        b@.len() >= 8 ==> r == Ok::<(i32, i32), CodecError>(
            (le_value(b@) as u32 as i32, le_value(b@.subrange(4, 8)) as u32 as i32),
        ),
{
    if b.len() < 8 {
        return Err(CodecError::Truncated);
    }
    let second = slice_tail(b, 4);
    let x = match decode_u32(b) {
        Ok(v) => v,
        Err(e) => {
            return Err(e);
        },
    };
    let y = match decode_u32(second.as_slice()) {
        Ok(v) => v,
        Err(e) => {
            return Err(e);
        },
    };
    assert(second@.subrange(0, 4) =~= b@.subrange(4, 8));
    Ok((x as i32, y as i32))
}

/// A warp point written and read back is the same point.
pub proof fn lemma_warp_point_round_trip(x: i32, y: i32)
    ensures
        ({
            let b = le_bytes(x as u32 as int) + le_bytes(y as u32 as int);
            le_value(b) as u32 as i32 == x && le_value(b.subrange(4, 8)) as u32 as i32 == y
        }),
{
    let b = le_bytes(x as u32 as int) + le_bytes(y as u32 as int);
    assert(x as u32 as i32 == x) by (bit_vector);
    assert(y as u32 as i32 == y) by (bit_vector);
    lemma_le_round_trip(x as u32 as int);
    lemma_le_round_trip(y as u32 as int);
    assert(b.subrange(4, 8) =~= le_bytes(y as u32 as int));
    assert(le_value(b) == le_value(le_bytes(x as u32 as int)));
}

} // verus!
