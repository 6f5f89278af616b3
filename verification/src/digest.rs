//! Content digests: SHA-1 over the framed blob, rendered as the 40-character
//! lowercase hexadecimal string that keys the object store and the index.

use vstd::prelude::*;

use crate::object::{frame, spec_frame, lemma_frame_injective};

verus! {

/// The 20-byte SHA-1 digest of `data`.
pub uninterp spec fn sha1_of(data: Seq<u8>) -> Seq<u8>;

/// Relies on sha1's `Sha1` (through the `digest` traits): the digest is a
/// function of the input bytes alone and is exactly 20 bytes long.
#[verifier::external_body]
fn sha1_bytes(data: &Vec<u8>) -> (r: Vec<u8>)
    ensures
        r@ == sha1_of(data@),
        r@.len() == 20,
{
    let out = <sha1::Sha1 as sha1::Digest>::digest(data.as_slice());
    out.as_slice().to_vec()
}

/// The ASCII byte of the hexadecimal digit `n` (lowercase letters).
pub open spec fn hex_digit(n: u8) -> u8 {
    if n < 10 {
        (48 + n) as u8
    } else {
        (87 + n) as u8
    }
}

/// True for the bytes `'0'..'9'` and `'a'..'f'`.
pub open spec fn is_hex_byte(b: u8) -> bool {
    (48 <= b <= 57) || (97 <= b <= 102)
}

/// The lowercase hexadecimal rendering of `data`, two digits per byte.
pub open spec fn spec_hex(data: Seq<u8>) -> Seq<u8>
    decreases data.len(),
{
    if data.len() == 0 {
        seq![]
    } else {
        seq![hex_digit(data[0] / 16), hex_digit(data[0] % 16)] + spec_hex(data.drop_first())
    }
}

/// A hexadecimal rendering is twice as long as its input and holds
/// hexadecimal digits only.
pub proof fn lemma_hex_shape(data: Seq<u8>)
    ensures
        spec_hex(data).len() == 2 * data.len(),
        forall|i: int| 0 <= i < spec_hex(data).len() ==> is_hex_byte(#[trigger] spec_hex(data)[i]),
    decreases data.len(),
{
    if data.len() > 0 {
        lemma_hex_shape(data.drop_first());
    }
}

/// Renders `data` in lowercase hexadecimal.
pub fn hex_bytes(data: &Vec<u8>) -> (r: Vec<u8>)
    ensures
        r@ == spec_hex(data@),
{
    let mut r: Vec<u8> = Vec::new();
    let mut i: usize = 0;
    proof {
        assert(data@.skip(0) =~= data@);
    }
    while i < data.len()
        invariant
            i <= data@.len(),
            spec_hex(data@) == r@ + spec_hex(data@.skip(i as int)),
        decreases data@.len() - i,
    {
        let b = data[i];
        let hi = b / 16;
        let lo = b % 16;
        r.push(if hi < 10 {
            48 + hi
        } else {
            87 + hi
        });
        r.push(if lo < 10 {
            48 + lo
        } else {
            87 + lo
        });
        proof {
            let s = data@.skip(i as int);
            assert(s[0] == data@[i as int]);
            assert(s.drop_first() =~= data@.skip(i + 1));
            assert(spec_hex(data@) =~= r@ + spec_hex(data@.skip(i + 1)));
        }
        i = i + 1;
    }
    proof {
        assert(data@.skip(data@.len() as int) =~= Seq::<u8>::empty());
        assert(r@ =~= spec_hex(data@));
    }
    r
}

/// The digest that keys the object store and the index: lowercase hex of
/// SHA-1 over the framed content.
pub open spec fn spec_object_digest(c: Seq<u8>) -> Seq<u8> {
    spec_hex(sha1_of(spec_frame(c)))
}

/// Computes the object digest of `content`: SHA-1 of its framed
/// representation, in hexadecimal. Always 40 hexadecimal digits.
pub fn object_digest(content: &Vec<u8>) -> (r: Vec<u8>)
    ensures
        r@ == spec_object_digest(content@),
        r@.len() == 40,
        forall|i: int| 0 <= i < r@.len() ==> is_hex_byte(#[trigger] r@[i]),
{
    let framed = frame(content);
    let h = sha1_bytes(&framed);
    let r = hex_bytes(&h);
    proof {
        lemma_hex_shape(h@);
    }
    r
}

/// Digest determinism: equal contents get the equal object digest, and the
/// framed representations the digest hashes are equal only for equal
/// contents. (That two distinct framed byte sequences never share a SHA-1
/// value is the hash function's collision resistance, which no proof can
/// supply; it is not claimed here.)
pub proof fn lemma_digest_deterministic(c1: Seq<u8>, c2: Seq<u8>)
    ensures
        c1 == c2 ==> spec_object_digest(c1) == spec_object_digest(c2),
        (spec_frame(c1) == spec_frame(c2)) <==> (c1 == c2),
{
    lemma_frame_injective(c1, c2);
}

/// The hexadecimal SHA-1 digest of raw (unframed) bytes.
pub open spec fn spec_sha1_hex(data: Seq<u8>) -> Seq<u8> {
    spec_hex(sha1_of(data))
}

/// Computes the hexadecimal SHA-1 digest of `data` as given, without
/// framing. Always 40 hexadecimal digits.
pub fn sha1_hex(data: &Vec<u8>) -> (r: Vec<u8>)
    ensures
        r@ == spec_sha1_hex(data@),
        r@.len() == 40,
{
    let h = sha1_bytes(data);
    let r = hex_bytes(&h);
    proof {
        lemma_hex_shape(h@);
    }
    r
}

} // verus!
