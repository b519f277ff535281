use vstd::prelude::*;
use vstd::string::StringExecFns;

verus! {

/// The lowercase hexadecimal SHA-256 digest of a string's UTF-8 bytes.
pub uninterp spec fn sha256_hex_of(s: Seq<char>) -> Seq<char>;

/// A name converted to snake case.
pub uninterp spec fn snake_case_of(s: Seq<char>) -> Seq<char>;

/// A name converted to Pascal case.
pub uninterp spec fn pascal_case_of(s: Seq<char>) -> Seq<char>;

pub open spec fn is_lower_hex_digit(c: char) -> bool {
    ('0' <= c && c <= '9') || ('a' <= c && c <= 'f')
}

pub open spec fn is_hex_digit(c: char) -> bool {
    is_lower_hex_digit(c) || ('A' <= c && c <= 'F')
}

pub open spec fn hex_value(c: char) -> int {
    if '0' <= c && c <= '9' {
        c as int - '0' as int
    } else if 'a' <= c && c <= 'f' {
        c as int - 'a' as int + 10
    } else {
        c as int - 'A' as int + 10
    }
}

/// An even number of hexadecimal digits.
pub open spec fn hex_well_formed(s: Seq<char>) -> bool {
    s.len() % 2 == 0 && forall|i: int| 0 <= i < s.len() ==> is_hex_digit(#[trigger] s[i])
}

/// The bytes that pairs of hexadecimal digits spell, high digit first.
pub open spec fn hex_bytes(s: Seq<char>) -> Seq<u8> {
    Seq::new((s.len() / 2) as nat, |i: int| (hex_value(s[2 * i]) * 16 + hex_value(s[2 * i + 1])) as u8)
}

/// The unsigned integer that eight bytes spell, least significant first.
pub open spec fn le_u64(b: Seq<u8>) -> int {
    b[0] + b[1] * 256 + b[2] * 65536 + b[3] * 16777216 + b[4] * 4294967296 + b[5]
        * 1099511627776 + b[6] * 281474976710656 + b[7] * 72057594037927936
}

/// The discriminant of a preimage `"<namespace>:<name>"`: the first eight
/// bytes of its SHA-256 digest, read little-endian.
pub open spec fn discriminant_of(preimage: Seq<char>) -> u64 {
    le_u64(hex_bytes(sha256_hex_of(preimage))) as u64
}

/// The preimage of an item's discriminant.
pub open spec fn preimage(namespace: Seq<char>, name: Seq<char>) -> Seq<char> {
    namespace + seq![':'] + name
}

/// Relies on sha256::digest: the SHA-256 digest of the string's UTF-8 bytes,
/// written by hex::encode as 64 lowercase hexadecimal digits.
#[verifier::external_body]
fn sha256_hex(s: &str) -> (r: String)
    ensures
        r@ == sha256_hex_of(s@),
        r@.len() == 64,
        forall|i: int| 0 <= i < r@.len() ==> is_lower_hex_digit(#[trigger] r@[i]),
{
    sha256::digest(s)
}

#[verifier::external_type_specification]
#[verifier::external_body]
pub struct ExFromHexError(hex::FromHexError);

/// Relies on hex::decode: pairs of hexadecimal digits of either case become
/// bytes; an odd length or another character is an error.
#[verifier::external_body]
fn hex_decode(s: &str) -> (r: Result<Vec<u8>, hex::FromHexError>)
    ensures
        match r {
            Ok(v) => hex_well_formed(s@) && v@ == hex_bytes(s@),
            Err(_) => !hex_well_formed(s@),
        },
{
    hex::decode(s)
}

/// Relies on heck's ToSnakeCase::to_snake_case.
#[verifier::external_body]
pub(crate) fn snake_case(s: &str) -> (r: String)
    ensures
        r@ == snake_case_of(s@),
{
    heck::ToSnakeCase::to_snake_case(s)
}

/// Relies on heck's ToPascalCase::to_pascal_case.
#[verifier::external_body]
pub(crate) fn pascal_case(s: &str) -> (r: String)
    ensures
        r@ == pascal_case_of(s@),
{
    heck::ToPascalCase::to_pascal_case(s)
}

/// Reads eight bytes as a little-endian unsigned integer.
pub fn u64_from_le(b: &[u8]) -> (r: u64)
    requires
        b@.len() >= 8,
    ensures
        r == le_u64(b@),
{
    let v: u64 = b[0] as u64 + b[1] as u64 * 256 + b[2] as u64 * 65536 + b[3] as u64 * 16777216
        + b[4] as u64 * 4294967296 + b[5] as u64 * 1099511627776 + b[6] as u64 * 281474976710656
        + b[7] as u64 * 72057594037927936;
    v
}

/// The discriminant of `name` in `namespace`: the first eight bytes, read
/// little-endian, of the SHA-256 digest of `"<namespace>:<name>"`.
pub fn discriminant(namespace: &str, name: &str) -> (r: u64)
    ensures
        r == discriminant_of(preimage(namespace@, name@)),
{
    let mut pre = namespace.to_owned();
    pre.append(":");
    pre.append(name);
    proof {
        reveal_strlit(":");
        assert(pre@ == preimage(namespace@, name@));
    }
    let digest = sha256_hex(pre.as_str());
    match hex_decode(digest.as_str()) {
        Ok(bytes) => u64_from_le(bytes.as_slice()),
        Err(_) => {
            // Unreachable: the digest is 64 hexadecimal digits.
            proof {
                assert(hex_well_formed(digest@));
            }
            0
        },
    }
}

} // verus!
