//! The 4-byte selector of a signature, and the target it is compared with.
use vstd::prelude::*;
use vstd::string::StringSliceAdditionalSpecFns;
use tiny_keccak::Hasher;

verus! {

/// The first four bytes of the Keccak-256 hash of the UTF-8 encoding of `s`.
pub uninterp spec fn keccak_selector(s: Seq<char>) -> Seq<u8>;

/// Relies on tiny_keccak's Keccak::v256, update and finalize: the first four
/// bytes of the Keccak-256 hash of the signature's UTF-8 bytes, which depend
/// on the signature alone.
#[verifier::external_body]
pub fn hash_signature(signature: &String) -> (r: [u8; 4])
    ensures
        r@ == keccak_selector(signature@),
{
    let mut output = [0u8; 4];
    let mut hasher = tiny_keccak::Keccak::v256();
    hasher.update(signature.as_bytes());
    hasher.finalize(&mut output);
    output
}

/// The selector is a function of the signature: equal signatures have equal
/// selectors, whichever call computed them.
pub proof fn lemma_selector_stable(a: Seq<char>, b: Seq<char>)
    requires
        a == b,
    ensures
        keccak_selector(a) == keccak_selector(b),
{
}

/// Whether two selectors hold the same four bytes.
pub fn selector_eq(a: &[u8; 4], b: &[u8; 4]) -> (r: bool)
    ensures
        r == (a@ == b@),
{
    let r = a[0] == b[0] && a[1] == b[1] && a[2] == b[2] && a[3] == b[3];
    proof {
        if r {
            assert(a@ =~= b@);
        }
    }
    r
}

/// Why a hex text was refused as a target selector.
#[derive(Debug, Clone, Copy, PartialEq, Eq, Structural)]
pub enum TargetError {
    /// The text is not an even number of hex digits.
    InvalidHex,
    /// The text is hex, but not of four bytes.
    WrongLength,
}

pub open spec fn is_hex_digit(c: u8) -> bool {
    (48 <= c <= 57) || (65 <= c <= 70) || (97 <= c <= 102)
}

pub open spec fn hex_value(c: u8) -> int {
    if 48 <= c <= 57 {
        c - 48
    } else if 65 <= c <= 70 {
        c - 55
    } else {
        c - 87
    }
}

/// An even number of hex digits, either case.
pub open spec fn is_hex_text(t: Seq<u8>) -> bool {
    t.len() % 2 == 0 && forall|i: int| 0 <= i < t.len() ==> is_hex_digit(#[trigger] t[i])
}

/// The bytes that a hex text stands for, two digits each, high digit first.
pub open spec fn hex_bytes(t: Seq<u8>) -> Seq<u8> {
    Seq::new(t.len() / 2, |i: int| (hex_value(t[2 * i]) * 16 + hex_value(t[2 * i + 1])) as u8)
}

/// Relies on hex::decode: the bytes of an even-length text of hex digits of
/// either case, two digits to a byte, and an error on any other text.
#[verifier::external_body]
fn hex_decode(s: &str) -> (r: Option<Vec<u8>>)
    ensures
        r is Some <==> is_hex_text(s.spec_bytes()),
        r matches Some(v) ==> v@ == hex_bytes(s.spec_bytes()),
{
    hex::decode(s).ok()
}

/// Reads a target selector written as eight hex digits.
pub fn parse_target(text: &str) -> (r: Result<[u8; 4], TargetError>)
    ensures
        r == Err::<[u8; 4], TargetError>(TargetError::InvalidHex) <==> !is_hex_text(text.spec_bytes()),
        r == Err::<[u8; 4], TargetError>(TargetError::WrongLength) <==> is_hex_text(text.spec_bytes())
            && text.spec_bytes().len() != 8,
        r matches Ok(t) ==> t@ == hex_bytes(text.spec_bytes()),
{
    match hex_decode(text) {
        None => Err(TargetError::InvalidHex),
        Some(v) => {
            if v.len() != 4 {
                Err(TargetError::WrongLength)
            } else {
                let t = [v[0], v[1], v[2], v[3]];
                assert(t@ =~= v@);
                Ok(t)
            }
        },
    }
}

} // verus!
