//! Content fingerprints of slice bytes: the MD5 digest in lower-case hex.
use vstd::prelude::*;
use vstd::string::*;

verus! {

/// The 16-byte MD5 digest of a byte sequence.
pub uninterp spec fn md5_digest(data: Seq<u8>) -> Seq<u8>;

/// Relies on md5::compute: the 16-byte digest, which depends on the bytes alone.
#[verifier::external_body]
fn compute_digest(data: &Vec<u8>) -> (r: [u8; 16])
    ensures
        r@ == md5_digest(data@),
{
    md5::compute(data.as_slice()).0
}

/// The lower-case hexadecimal digits, in value order.
pub open spec fn hex_chars() -> Seq<char> {
    seq!['0', '1', '2', '3', '4', '5', '6', '7', '8', '9', 'a', 'b', 'c', 'd', 'e', 'f']
}

/// Two lower-case hex digits per byte, high nibble first.
pub open spec fn hex_text(bytes: Seq<u8>) -> Seq<char>
    decreases bytes.len(),
{
    if bytes.len() == 0 {
        Seq::empty()
    } else {
        hex_text(bytes.drop_last()) + seq![
            hex_chars()[(bytes.last() / 16) as int],
            hex_chars()[(bytes.last() % 16) as int],
        ]
    }
}

/// The fingerprint of a byte sequence: its MD5 digest in lower-case hex.
pub open spec fn fingerprint_of(data: Seq<u8>) -> Seq<char> {
    hex_text(md5_digest(data))
}

fn hex_digit(v: u8) -> (r: &'static str)
    requires
        v < 16,
    ensures
        r@ == seq![hex_chars()[v as int]],
{
    let digits = "0123456789abcdef";
    proof {
        reveal_strlit("0123456789abcdef");
        assert(digits@ =~= hex_chars());
    }
    let r = digits.substring_char(v as usize, v as usize + 1);
    assert(r@ =~= seq![hex_chars()[v as int]]);
    r
}

/// Lower-case hex text of a byte sequence, two digits per byte.
pub fn to_hex(bytes: &[u8]) -> (r: String)
    ensures
        r@ == hex_text(bytes@),
{
    let mut r = String::new();
    let mut i: usize = 0;
    while i < bytes.len()
        invariant
            i <= bytes@.len(),
            r@ == hex_text(bytes@.subrange(0, i as int)),
        decreases bytes@.len() - i,
    {
        let b = bytes[i];
        r.append(hex_digit(b / 16));
        r.append(hex_digit(b % 16));
        proof {
            let next = bytes@.subrange(0, i + 1);
            assert(next.drop_last() =~= bytes@.subrange(0, i as int));
            assert(next.last() == b);
        }
        i = i + 1;
        assert(r@ =~= hex_text(bytes@.subrange(0, i as int)));
    }
    assert(bytes@.subrange(0, bytes@.len() as int) =~= bytes@);
    r
}

/// The fingerprint of `data`: its MD5 digest in lower-case hex.
pub fn fingerprint(data: &Vec<u8>) -> (r: String)
    ensures
        r@ == fingerprint_of(data@),
{
    let digest = compute_digest(data);
    to_hex(digest.as_slice())
}

/// Whether a computed fingerprint equals the one a client declared: exact,
/// case-sensitive equality of the two texts.
pub fn fingerprint_matches(computed: &str, declared: &str) -> (r: bool)
    ensures
        r == (computed@ == declared@),
{
    let a = String::from_str(computed);
    let b = String::from_str(declared);
    a == b
}

/// Fingerprints are deterministic: identical byte sequences always have
/// identical fingerprints, and two fingerprints that differ come from
/// different bytes.
pub proof fn lemma_fingerprint_deterministic(a: Seq<u8>, b: Seq<u8>)
    ensures
        a == b ==> fingerprint_of(a) == fingerprint_of(b),
        fingerprint_of(a) != fingerprint_of(b) ==> a != b,
{
}

} // verus!
