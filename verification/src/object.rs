//! The content-addressed object encoding: framing (`"blob " + decimal length
//! + NUL + content`), zlib compression, and the sharded storage key derived
//! from a digest.

use vstd::prelude::*;

use crate::bytes::{append_bytes, bytes_eq, find_byte, first_at, lemma_first_at, lemma_first_at_is, subvec};

verus! {

/// The decimal digits of `n`, most significant first, as ASCII bytes.
pub open spec fn spec_decimal(n: nat) -> Seq<u8>
    decreases n,
{
    if n < 10 {
        seq![(48 + n) as u8]
    } else {
        spec_decimal(n / 10).push((48 + n % 10) as u8)
    }
}

/// Every decimal rendering is nonempty and made of ASCII digits only.
pub proof fn lemma_decimal_digits(n: nat)
    ensures
        spec_decimal(n).len() >= 1,
        forall|i: int| 0 <= i < spec_decimal(n).len() ==> 48 <= #[trigger] spec_decimal(n)[i] <= 57,
    decreases n,
{
    if n >= 10 {
        lemma_decimal_digits(n / 10);
    }
}

/// Renders `n` in decimal, most significant digit first.
pub fn decimal_digits(n: u64) -> (r: Vec<u8>)
    ensures
        r@ == spec_decimal(n as nat),
    decreases n,
{
    if n < 10 {
        let mut v: Vec<u8> = Vec::new();
        v.push(48 + (n as u8));
        assert(v@ =~= spec_decimal(n as nat));
        v
    } else {
        let mut v = decimal_digits(n / 10);
        v.push(48 + ((n % 10) as u8));
        assert(v@ =~= spec_decimal(n as nat));
        v
    }
}

/// `"blob "`: the object-type tag and separating space that begin every
/// framed blob.
pub open spec fn blob_tag() -> Seq<u8> {
    seq![98u8, 108u8, 111u8, 98u8, 32u8]
}

/// The framed representation of a blob:
/// `"blob " + decimal byte length + NUL + content`.
pub open spec fn spec_frame(c: Seq<u8>) -> Seq<u8> {
    blob_tag() + spec_decimal(c.len() as nat) + seq![0u8] + c
}

/// Builds the framed representation of `content`.
pub fn frame(content: &Vec<u8>) -> (r: Vec<u8>)
    ensures
        r@ == spec_frame(content@),
{
    let mut r: Vec<u8> = Vec::new();
    r.push(98);
    r.push(108);
    r.push(111);
    r.push(98);
    r.push(32);
    let digits = decimal_digits(content.len() as u64);
    append_bytes(&mut r, &digits);
    r.push(0);
    append_bytes(&mut r, content);
    proof {
        assert(r@ =~= spec_frame(content@));
    }
    r
}

/// Parses a framed blob back into its content: the bytes before the first
/// NUL must read `"blob "` followed by exactly the decimal rendering of the
/// content's length.
pub open spec fn spec_unframe(d: Seq<u8>) -> Option<Seq<u8>> {
    match first_at(d, 0u8) {
        None => None,
        Some(p) => {
            let content = d.subrange(p + 1, d.len() as int);
            if p >= 6 && d.subrange(0, 5) == blob_tag() && d.subrange(5, p) == spec_decimal(
                content.len() as nat,
            ) {
                Some(content)
            } else {
                None
            }
        },
    }
}

/// Unframing inverts framing: the header a frame carries is recovered
/// exactly, so the framed content comes back unchanged.
pub proof fn lemma_unframe_frame(c: Seq<u8>)
    ensures
        spec_unframe(spec_frame(c)) == Some(c),
{
    let d = spec_frame(c);
    let digits = spec_decimal(c.len() as nat);
    lemma_decimal_digits(c.len() as nat);
    let p = 5 + digits.len() as int;
    assert(d[p] == 0);
    assert(forall|j: int| 0 <= j < 5 ==> d[j] != 0);
    assert(forall|j: int| 5 <= j < p ==> d[j] == digits[j - 5] && d[j] != 0);
    lemma_first_at_is(d, 0u8, p);
    assert(d.subrange(0, 5) =~= blob_tag());
    assert(d.subrange(5, p) =~= digits);
    assert(d.subrange(p + 1, d.len() as int) =~= c);
}

/// Framing is injective: two contents frame to the same bytes exactly when
/// they are equal.
pub proof fn lemma_frame_injective(c1: Seq<u8>, c2: Seq<u8>)
    ensures
        (spec_frame(c1) == spec_frame(c2)) <==> (c1 == c2),
{
    if spec_frame(c1) == spec_frame(c2) {
        lemma_unframe_frame(c1);
        lemma_unframe_frame(c2);
    }
}

/// Parses a framed blob, returning its content, or `None` when the bytes do
/// not carry a well-formed `"blob "` header.
pub fn unframe(d: &Vec<u8>) -> (r: Option<Vec<u8>>)
    ensures
        match r {
            Some(c) => spec_unframe(d@) == Some(c@),
            None => spec_unframe(d@) is None,
        },
{
    let p = match find_byte(d, 0) {
        None => {
            return None;
        },
        Some(p) => p,
    };
    proof {
        lemma_first_at(d@, 0u8);
    }
    if p < 6 {
        return None;
    }
    if !(d[0] == 98 && d[1] == 108 && d[2] == 111 && d[3] == 98 && d[4] == 32) {
        proof {
            assert(d@.subrange(0, 5) != blob_tag()) by {
                if d@.subrange(0, 5) == blob_tag() {
                    assert(d@[0] == 98 && d@[1] == 108 && d@[2] == 111 && d@[3] == 98 && d@[4]
                        == 32);
                }
            }
        }
        return None;
    }
    proof {
        assert(d@.subrange(0, 5) =~= blob_tag());
        assert(p < d@.len());
    }
    let dn = d.len();
    let content = subvec(d, p + 1, dn);
    let digits = subvec(d, 5, p);
    let expected = decimal_digits(content.len() as u64);
    if bytes_eq(&digits, &expected) {
        Some(content)
    } else {
        None
    }
}

/// The bytes that zlib compression at the default level produces for `data`.
pub uninterp spec fn zlib_of(data: Seq<u8>) -> Seq<u8>;

/// Relies on flate2's `write::ZlibEncoder` at the default compression level:
/// the compressed bytes are a function of the input bytes alone, and writing
/// into an in-memory buffer cannot fail.
#[verifier::external_body]
fn zlib_compress(data: &Vec<u8>) -> (r: Vec<u8>)
    ensures
        r@ == zlib_of(data@),
{
    let mut enc = flate2::write::ZlibEncoder::new(Vec::new(), flate2::Compression::default());
    std::io::Write::write_all(&mut enc, data.as_slice()).expect("writing to a Vec cannot fail");
    enc.finish().expect("writing to a Vec cannot fail")
}

/// Relies on flate2's `read::ZlibDecoder`: zlib compression is lossless, so
/// whenever the input is the compression of some bytes, decompression
/// returns exactly those bytes.
#[verifier::external_body]
fn zlib_decompress(data: &Vec<u8>) -> (r: Option<Vec<u8>>)
    ensures
        match r {
            Some(d) => forall|c: Seq<u8>| data@ == zlib_of(c) ==> d@ == c,
            None => forall|c: Seq<u8>| data@ != zlib_of(c),
        },
{
    let mut dec = flate2::read::ZlibDecoder::new(data.as_slice());
    let mut out = Vec::new();
    match std::io::Read::read_to_end(&mut dec, &mut out) {
        Ok(_) => Some(out),
        Err(_) => None,
    }
}

/// The bytes the object store keeps for content `c`: the compressed frame.
pub open spec fn spec_encode_object(c: Seq<u8>) -> Seq<u8> {
    zlib_of(spec_frame(c))
}

/// Encodes `content` as the object store keeps it: framed, then compressed.
pub fn encode_object(content: &Vec<u8>) -> (r: Vec<u8>)
    ensures
        r@ == spec_encode_object(content@),
{
    let framed = frame(content);
    zlib_compress(&framed)
}

/// Decodes a stored object back into its content: decompresses, then strips
/// the `"blob "` header. Round trip: whenever `stored` is the encoding of
/// some content `c`, decoding returns exactly `c`.
pub fn decode_object(stored: &Vec<u8>) -> (r: Option<Vec<u8>>)
    ensures
        forall|c: Seq<u8>| stored@ == spec_encode_object(c) ==> (r matches Some(d) && d@ == c),
{
    let r = match zlib_decompress(stored) {
        None => None,
        Some(framed) => unframe(&framed),
    };
    proof {
        assert forall|c: Seq<u8>| stored@ == spec_encode_object(c) implies (r matches Some(d)
            && d@ == c) by {
            lemma_unframe_frame(c);
        }
    }
    r
}

/// The shard directory: the first two hex characters of a digest.
pub open spec fn spec_shard_dir(digest: Seq<u8>) -> Seq<u8> {
    digest.subrange(0, 2)
}

/// The object file name: the hex characters of a digest after the first two.
pub open spec fn spec_shard_file(digest: Seq<u8>) -> Seq<u8> {
    digest.subrange(2, digest.len() as int)
}

/// Splits a digest into its shard directory name.
pub fn shard_dir(digest: &Vec<u8>) -> (r: Vec<u8>)
    requires
        digest@.len() >= 2,
    ensures
        r@ == spec_shard_dir(digest@),
{
    subvec(digest, 0, 2)
}

/// Splits a digest into its object file name.
pub fn shard_file(digest: &Vec<u8>) -> (r: Vec<u8>)
    requires
        digest@.len() >= 2,
    ensures
        r@ == spec_shard_file(digest@),
{
    subvec(digest, 2, digest.len())
}

} // verus!
