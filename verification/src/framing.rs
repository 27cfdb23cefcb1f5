//! Wire framing: proxy datagrams and stream payloads are prefixed with a
//! fixed 4-byte big-endian channel identifier; stream-role frames are
//! length-prefixed and self-delimiting.

use vstd::prelude::*;

verus! {

/// The four big-endian bytes of a 32-bit identifier.
pub open spec fn u32_be_bytes(x: u32) -> Seq<u8> {
    seq![
        ((x >> 24) & 0xff) as u8,
        ((x >> 16) & 0xff) as u8,
        ((x >> 8) & 0xff) as u8,
        (x & 0xff) as u8,
    ]
}

/// The 32-bit identifier read from four big-endian bytes.
pub open spec fn u32_from_be(b0: u8, b1: u8, b2: u8, b3: u8) -> u32 {
    (((b0 as u32) << 24) | ((b1 as u32) << 16) | ((b2 as u32) << 8) | (b3 as u32)) as u32
}

/// Reading back the four big-endian bytes of an identifier yields it again.
pub proof fn lemma_u32_be_roundtrip(x: u32)
    ensures
        u32_from_be(
            u32_be_bytes(x)[0],
            u32_be_bytes(x)[1],
            u32_be_bytes(x)[2],
            u32_be_bytes(x)[3],
        ) == x,
{
    let b0 = ((x >> 24) & 0xff) as u8;
    let b1 = ((x >> 16) & 0xff) as u8;
    let b2 = ((x >> 8) & 0xff) as u8;
    let b3 = (x & 0xff) as u8;
    assert((((b0 as u32) << 24) | ((b1 as u32) << 16) | ((b2 as u32) << 8) | (b3 as u32)) == x)
        by (bit_vector)
        requires
            b0 == ((x >> 24) & 0xff) as u8,
            b1 == ((x >> 16) & 0xff) as u8,
            b2 == ((x >> 8) & 0xff) as u8,
            b3 == (x & 0xff) as u8,
    ;
}

/// Prefix a payload with its 4-byte big-endian channel identifier, as proxy
/// datagrams and proxy stream payloads are framed.
pub fn frame_with_channel_id(id: u32, payload: &[u8]) -> (r: Vec<u8>)
    ensures
        r@ == u32_be_bytes(id) + payload@,
{
    let mut r: Vec<u8> = Vec::new();
    r.push(((id >> 24) & 0xff) as u8);
    r.push(((id >> 16) & 0xff) as u8);
    r.push(((id >> 8) & 0xff) as u8);
    r.push((id & 0xff) as u8);
    let mut i: usize = 0;
    while i < payload.len()
        invariant
            i <= payload@.len(),
            r@ == u32_be_bytes(id) + payload@.take(i as int),
        decreases payload@.len() - i,
    {
        r.push(payload[i]);
        proof {
            assert(r@ =~= u32_be_bytes(id) + payload@.take(i + 1));
        }
        i += 1;
    }
    proof {
        assert(payload@.take(payload@.len() as int) =~= payload@);
    }
    r
}

/// Split a channel-id-prefixed frame back into identifier and payload.
/// Returns nothing when the frame is shorter than the 4-byte prefix.
pub fn parse_channel_frame(bytes: &[u8]) -> (r: Option<(u32, Vec<u8>)>)
    ensures
        r is Some <==> bytes@.len() >= 4,
        r is Some ==> {
            let (id, payload) = r->0;
            &&& id == u32_from_be(bytes@[0], bytes@[1], bytes@[2], bytes@[3])
            &&& payload@ == bytes@.skip(4)
        },
{
    if bytes.len() < 4 {
        return None;
    }
    let id = ((bytes[0] as u32) << 24) | ((bytes[1] as u32) << 16) | ((bytes[2] as u32) << 8) | (
    bytes[3] as u32);
    let mut payload: Vec<u8> = Vec::new();
    let mut i: usize = 4;
    while i < bytes.len()
        invariant
            4 <= i <= bytes@.len(),
            payload@ == bytes@.subrange(4, i as int),
        decreases bytes@.len() - i,
    {
        payload.push(bytes[i]);
        proof {
            assert(payload@ =~= bytes@.subrange(4, i + 1));
        }
        i += 1;
    }
    proof {
        assert(bytes@.subrange(4, bytes@.len() as int) =~= bytes@.skip(4));
    }
    Some((id, payload))
}

/// Splitting a framed payload yields the identifier and the payload again.
pub proof fn lemma_channel_frame_roundtrip(id: u32, payload: Seq<u8>)
    ensures
        ({
            let framed = u32_be_bytes(id) + payload;
            &&& framed.len() >= 4
            &&& u32_from_be(framed[0], framed[1], framed[2], framed[3]) == id
            &&& framed.skip(4) =~= payload
        }),
{
    lemma_u32_be_roundtrip(id);
}

/// Prefix a frame's payload with its 4-byte big-endian length, as
/// length-prefixed stream frames are laid out.
pub fn encode_length_frame(payload: &[u8]) -> (r: Option<Vec<u8>>)
    ensures
        r is Some <==> payload@.len() <= u32::MAX,
        r is Some ==> r->0@ == u32_be_bytes(payload@.len() as u32) + payload@,
{
    if payload.len() > (u32::MAX as usize) {
        return None;
    }
    Some(frame_with_channel_id(payload.len() as u32, payload))
}

/// Read one length-prefixed frame from the head of a buffer, returning the
/// payload and how many bytes the frame occupied. Returns nothing when the
/// buffer holds no complete frame yet.
pub fn decode_length_frame(buf: &[u8]) -> (r: Option<(Vec<u8>, usize)>)
    ensures
        r is Some <==> (buf@.len() >= 4 && buf@.len() >= 4 + u32_from_be(
            buf@[0],
            buf@[1],
            buf@[2],
            buf@[3],
        )),
        r is Some ==> {
            let (payload, used) = r->0;
            let n = u32_from_be(buf@[0], buf@[1], buf@[2], buf@[3]) as int;
            &&& used == 4 + n
            &&& payload@ == buf@.subrange(4, 4 + n)
        },
{
    if buf.len() < 4 {
        return None;
    }
    let n = ((buf[0] as u32) << 24) | ((buf[1] as u32) << 16) | ((buf[2] as u32) << 8) | (
    buf[3] as u32);
    let n = n as usize;
    if buf.len() < 4 || buf.len() - 4 < n {
        return None;
    }
    let mut payload: Vec<u8> = Vec::new();
    let mut i: usize = 4;
    while i < 4 + n
        invariant
            4 <= i <= 4 + n,
            4 + n <= buf@.len(),
            payload@ == buf@.subrange(4, i as int),
        decreases 4 + n - i,
    {
        payload.push(buf[i]);
        proof {
            assert(payload@ =~= buf@.subrange(4, i + 1));
        }
        i += 1;
    }
    Some((payload, 4 + n))
}

/// A full frame decodes back to its payload and length.
pub proof fn lemma_length_frame_roundtrip(payload: Seq<u8>)
    requires
        payload.len() <= u32::MAX,
    ensures
        ({
            let framed = u32_be_bytes(payload.len() as u32) + payload;
            &&& framed.len() >= 4
            &&& u32_from_be(framed[0], framed[1], framed[2], framed[3]) == payload.len()
            &&& framed.subrange(4, 4 + payload.len() as int) =~= payload
        }),
{
    lemma_u32_be_roundtrip(payload.len() as u32);
    let x = payload.len() as u32;
    assert(((x >> 24) & 0xff) <= 0xff && ((x >> 16) & 0xff) <= 0xff && ((x >> 8) & 0xff) <= 0xff
        && (x & 0xff) <= 0xff) by (bit_vector);
}

} // verus!
