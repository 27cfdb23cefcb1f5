//! Entity identifiers: 128-bit opaque ids stored as two 64-bit words, with a
//! reserved null value and a reserved "resources" singleton id.

use vstd::prelude::*;

verus! {

/// An identifier for an entity in the world.
#[derive(PartialEq, Eq, Structural, PartialOrd, Ord, Clone, Copy, Hash, Debug)]
pub struct EntityId {
    pub id0: u64,
    pub id1: u64,
}

impl EntityId {
    /// Return a null [`EntityId`].
    pub fn null() -> (r: Self)
        ensures
            r.id0 == 0 && r.id1 == 0,
    {
        Self { id0: 0, id1: 0 }
    }

    /// Returns true if this is a null [`EntityId`].
    pub fn is_null(&self) -> (r: bool)
        ensures
            r == (self.id0 == 0 && self.id1 == 0),
    {
        self.id0 == 0 && self.id1 == 0
    }

    /// Return an [`EntityId`] pointing to the resources entity, a singleton
    /// reserved by convention.
    pub fn resources() -> (r: Self)
        ensures
            r == (EntityId { id0: 0, id1: 1 }),
    {
        Self { id0: 0, id1: 1 }
    }

    /// Returns true if this is pointing to the resources entity.
    pub fn is_resources(&self) -> (r: bool)
        ensures
            r == (*self == (EntityId { id0: 0, id1: 1 })),
    {
        self.id0 == 0 && self.id1 == 1
    }

    /// The id as one 128-bit number: the first word in the high bits, the
    /// second in the low bits.
    pub fn to_u128(&self) -> (r: u128)
        ensures
            r == self.id0 * 0x1_0000_0000_0000_0000u128 + self.id1,
    {
        proof {
            let hi = self.id0 as u128;
            assert(hi << 64 == hi * 0x1_0000_0000_0000_0000) by (bit_vector)
                requires
                    hi < 0x1_0000_0000_0000_0000,
            ;
            assert(self.id0 * 0x1_0000_0000_0000_0000u128 + self.id1 <= u128::MAX) by (nonlinear_arith)
                requires
                    self.id0 <= 0xffff_ffff_ffff_ffffu64 && self.id1 <= 0xffff_ffff_ffff_ffffu64,
            ;
        }
        ((self.id0 as u128) << 64) + (self.id1 as u128)
    }

    /// Parse an id from its URL-safe unpadded base64 encoding: the decoded
    /// bytes, zero-padded to 16, hold the two words in little-endian order.
    /// Returns nothing when the input is not valid base64 or decodes to 16
    /// bytes or more.
    pub fn from_base64(encoded: &str) -> (r: Option<EntityId>)
        requires
            encoded@.len() <= usize::MAX / 32,
        ensures
            r is Some <==> (base64url_nopad_ok(encoded@) && base64url_nopad_decoded(
                encoded@,
            ).len() < 16),
            r is Some ==> ({
                let d = base64url_nopad_decoded(encoded@);
                &&& r->0.id0 == le_bytes_to_int(pad16(d).subrange(0, 8))
                &&& r->0.id1 == le_bytes_to_int(pad16(d).subrange(8, 16))
            }),
    {
        let bytes = match base64url_nopad_decode(encoded) {
            Ok(bytes) => bytes,
            Err(_) => {
                return None;
            },
        };
        Self::from_le_bytes(bytes)
    }

    /// Assemble an id from up to 15 little-endian bytes, zero-padded to the
    /// two 64-bit words. Returns nothing for 16 bytes or more.
    pub fn from_le_bytes(bytes: Vec<u8>) -> (r: Option<EntityId>)
        ensures
            r is Some <==> bytes@.len() < 16,
            r is Some ==> {
                &&& r->0.id0 == le_bytes_to_int(pad16(bytes@).subrange(0, 8))
                &&& r->0.id1 == le_bytes_to_int(pad16(bytes@).subrange(8, 16))
            },
    {
        if bytes.len() >= 16 {
            return None;
        }
        let ghost d = bytes@;
        let mut buf = bytes;
        while buf.len() < 16
            invariant
                buf@.len() <= 16,
                d.len() <= buf@.len(),
                forall|i: int| 0 <= i < buf@.len() ==> buf@[i] == pad16(d)[i],
            decreases 16 - buf@.len(),
        {
            buf.push(0u8);
        }
        proof {
            assert(buf@ =~= pad16(d));
        }
        let id0 = u64_from_le_range(&buf, 0);
        let id1 = u64_from_le_range(&buf, 8);
        Some(EntityId { id0, id1 })
    }
}

impl Default for EntityId {
    /// The null id.
    fn default() -> (r: Self)
        ensures
            r.id0 == 0 && r.id1 == 0,
    {
        Self::null()
    }
}

/// The decoded bytes zero-padded to 16.
pub open spec fn pad16(s: Seq<u8>) -> Seq<u8> {
    Seq::new(16, |i: int| if i < s.len() { s[i] } else { 0 })
}

/// The integer that a little-endian byte sequence denotes.
pub open spec fn le_bytes_to_int(s: Seq<u8>) -> int
    decreases s.len(),
{
    if s.len() == 0 {
        0
    } else {
        s[0] + 256 * le_bytes_to_int(s.drop_first())
    }
}

/// 256 to the given power.
pub open spec fn pow256(n: nat) -> int
    decreases n,
{
    if n == 0 {
        1
    } else {
        256 * pow256((n - 1) as nat)
    }
}

proof fn lemma_le_bytes_bound(s: Seq<u8>)
    ensures
        0 <= le_bytes_to_int(s) < pow256(s.len()),
    decreases s.len(),
{
    if s.len() > 0 {
        lemma_le_bytes_bound(s.drop_first());
        assert(le_bytes_to_int(s) == s[0] + 256 * le_bytes_to_int(s.drop_first()));
        assert(256 * le_bytes_to_int(s.drop_first()) <= 256 * (pow256(s.drop_first().len()) - 1))
            by (nonlinear_arith)
            requires
                le_bytes_to_int(s.drop_first()) <= pow256(s.drop_first().len()) - 1,
        ;
        assert(256 * le_bytes_to_int(s.drop_first()) >= 0) by (nonlinear_arith)
            requires
                le_bytes_to_int(s.drop_first()) >= 0,
        ;
    }
}

/// Read one little-endian 64-bit word out of a byte buffer.
fn u64_from_le_range(v: &Vec<u8>, start: usize) -> (r: u64)
    requires
        start + 8 <= v@.len(),
    ensures
        r == le_bytes_to_int(v@.subrange(start as int, start + 8)),
{
    let ghost w = v@.subrange(start as int, start + 8);
    let n = v.len();
    let mut val: u64 = 0;
    let mut i: usize = 8;
    while i > 0
        invariant
            i <= 8,
            start + 8 <= n,
            n == v@.len(),
            val == le_bytes_to_int(w.subrange(i as int, 8)),
        decreases i,
    {
        let ghost suffix = w.subrange(i as int, 8);
        proof {
            lemma_le_bytes_bound(suffix);
            assert(pow256(suffix.len()) <= pow256(7)) by {
                reveal_with_fuel(pow256, 9);
                assert(suffix.len() <= 7 ==> pow256(suffix.len()) <= pow256(7)) by {
                    lemma_pow256_mono(suffix.len(), 7);
                }
            }
            reveal_with_fuel(pow256, 9);
            assert(val * 256 <= (pow256(7) - 1) * 256) by (nonlinear_arith)
                requires
                    0 <= val <= pow256(7) - 1,
            ;
        }
        i -= 1;
        val = val * 256 + (v[start + i] as u64);
        proof {
            let longer = w.subrange(i as int, 8);
            assert(longer[0] == v@[start + i]);
            assert(longer.drop_first() =~= w.subrange(i + 1, 8));
        }
    }
    proof {
        assert(w.subrange(0, 8) =~= w);
    }
    val
}

proof fn lemma_pow256_pos(n: nat)
    ensures
        pow256(n) >= 1,
    decreases n,
{
    if n > 0 {
        lemma_pow256_pos((n - 1) as nat);
    }
}

proof fn lemma_pow256_mono(a: nat, b: nat)
    requires
        a <= b,
    ensures
        pow256(a) <= pow256(b),
    decreases b,
{
    if a < b {
        lemma_pow256_mono(a, (b - 1) as nat);
        assert(pow256(b) == 256 * pow256((b - 1) as nat));
        lemma_pow256_pos((b - 1) as nat);
        assert(pow256((b - 1) as nat) <= 256 * pow256((b - 1) as nat));
    }
}

/// The name for the result of URL-safe unpadded base64 decoding: a function
/// of the input characters alone.
pub uninterp spec fn base64url_nopad_decoded(s: Seq<char>) -> Seq<u8>;

/// The name for whether URL-safe unpadded base64 decoding succeeds: a
/// function of the input characters alone.
pub uninterp spec fn base64url_nopad_ok(s: Seq<char>) -> bool;

#[verifier::external_type_specification]
#[verifier::external_body]
pub struct ExDecodeError(data_encoding::DecodeError);

/// Relies on `data_encoding::Encoding::decode` with the `BASE64URL_NOPAD`
/// alphabet: whether it succeeds and what it decodes to are functions of the
/// input alone; on success every input byte was an ASCII alphabet symbol, so
/// the output holds three bytes for every four input characters and an input
/// length of 1 modulo 4 is rejected. The `requires` keeps the byte length
/// under the limit below which the decode is documented not to panic.
#[verifier::external_body]
fn base64url_nopad_decode(input: &str) -> (r: Result<Vec<u8>, data_encoding::DecodeError>)
    requires
        input@.len() <= usize::MAX / 32,
    ensures
        r is Ok <==> base64url_nopad_ok(input@),
        r is Ok ==> r->Ok_0@ == base64url_nopad_decoded(input@),
        r is Ok ==> r->Ok_0@.len() == input@.len() * 3 / 4 && input@.len() % 4 != 1,
{
    data_encoding::BASE64URL_NOPAD.decode(input.as_bytes())
}

} // verus!
