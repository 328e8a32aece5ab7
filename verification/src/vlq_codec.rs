use vstd::prelude::*;

verus! {

/// The Base64 digit alphabet, as the wire format uses it.
pub open spec fn base64_char(d: int) -> char
    recommends
        0 <= d < 64,
{
    if d < 26 {
        (('A' as int) + d) as char
    } else if d < 52 {
        (('a' as int) + (d - 26)) as char
    } else if d < 62 {
        (('0' as int) + (d - 52)) as char
    } else if d == 62 {
        '+'
    } else {
        '/'
    }
}

/// The magnitude a VLQ carries: the absolute value shifted left once, with
/// the sign in the lowest bit.
pub open spec fn vlq_value_bits(value: int) -> nat {
    if value < 0 {
        (2 * (-value) + 1) as nat
    } else {
        (2 * value) as nat
    }
}

/// The Base64 VLQ digit string of `v`: little-endian five-bit groups, each
/// group marked with the continuation bit (+32) while more follow.
pub open spec fn vlq_digits(v: nat) -> Seq<char>
    decreases v,
{
    if v < 32 {
        seq![base64_char(v as int)]
    } else {
        seq![base64_char((v % 32 + 32) as int)] + vlq_digits(v / 32)
    }
}

/// The Base64 VLQ encoding of a signed integer.
pub open spec fn vlq_encode_spec(value: int) -> Seq<char> {
    vlq_digits(vlq_value_bits(value))
}

/// Relies on `vlq::encode`: it writes exactly the Base64 VLQ of `value` —
/// sign bit in the lowest position, then five-bit groups, least significant
/// first, each but the last marked with the continuation bit — and writing
/// into a `Vec` cannot fail.
#[verifier::external_body]
pub(crate) fn vlq_encode(value: i64) -> (r: String)
    requires
        value != i64::MIN,
    ensures
        r@ == vlq_encode_spec(value as int),
{
    let mut buf: Vec<u8> = Vec::new();
    vlq::encode(value, &mut buf).expect("writing to a Vec cannot fail");
    String::from_utf8(buf).expect("Base64 VLQ digits are ASCII")
}

} // verus!
