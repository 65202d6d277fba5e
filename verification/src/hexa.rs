//! Hexadecimal notation of byte strings.

use vstd::prelude::*;

verus! {

/// The lower case hexadecimal digit with the given value.
pub open spec fn hex_digit(v: int) -> char {
    if v < 10 {
        (v + 48) as u8 as char
    } else {
        (v + 87) as u8 as char
    }
}

/// Value of a hexadecimal digit of either case.
pub open spec fn hex_value(c: char) -> Option<int> {
    if '0' <= c <= '9' {
        Some(c as int - 48)
    } else if 'a' <= c <= 'f' {
        Some(c as int - 87)
    } else if 'A' <= c <= 'F' {
        Some(c as int - 55)
    } else {
        None
    }
}

/// Is every character a hexadecimal digit?
pub open spec fn all_hex(s: Seq<char>) -> bool {
    forall|i: int| 0 <= i < s.len() ==> hex_value(#[trigger] s[i]) is Some
}

/// Lower case hexadecimal notation, two digits to the byte.
pub open spec fn hex_lower(bytes: Seq<u8>) -> Seq<char> {
    Seq::new(
        2 * bytes.len(),
        |i: int|
            if i % 2 == 0 {
                hex_digit(bytes[i / 2] as int / 16)
            } else {
                hex_digit(bytes[i / 2] as int % 16)
            },
    )
}

/// The 32 bytes that 64 hexadecimal digits of either case stand for.
pub open spec fn hex_decoded32(s: Seq<char>) -> Option<Seq<u8>> {
    if s.len() == 64 && all_hex(s) {
        Some(
            Seq::new(
                32,
                |i: int| (16 * hex_value(s[2 * i])->0 + hex_value(s[2 * i + 1])->0) as u8,
            ),
        )
    } else {
        None
    }
}

/// Calls `hex::encode`: lower case notation, two digits to the byte.
#[verifier::external_body]
pub(crate) fn hex_encode(bytes: &[u8]) -> (text: String)
    ensures
        text@ == hex_lower(bytes@),
{
    hex::encode(bytes)
}

/// Calls `hex::decode_to_slice` on a 32 byte slice: the text must be 64
/// hexadecimal digits, of either case.
#[verifier::external_body]
pub(crate) fn hex_decode32(text: &str) -> (bytes: Option<[u8; 32]>)
    ensures
        match hex_decoded32(text@) {
            Some(b) => bytes is Some && bytes->0@ == b,
            None => bytes is None,
        },
{
    let mut bytes = [0u8; 32];
    hex::decode_to_slice(text, &mut bytes).ok().map(|()| bytes)
}

/// Is `c` a hexadecimal digit of either case?
pub fn is_hex(c: char) -> (res: bool)
    ensures
        res == (hex_value(c) is Some),
{
    ('0' <= c && c <= '9') || ('a' <= c && c <= 'f') || ('A' <= c && c <= 'F')
}

/// Decoding undoes encoding.
pub proof fn lemma_hex_round_trip(bytes: Seq<u8>)
    requires
        bytes.len() == 32,
    ensures
        hex_decoded32(hex_lower(bytes)) == Some(bytes),
        all_hex(hex_lower(bytes)),
        hex_lower(bytes).len() == 64,
{
    let s = hex_lower(bytes);
    assert forall|i: int| 0 <= i < s.len() implies hex_value(#[trigger] s[i]) is Some by {
        let b = bytes[i / 2] as int;
        assert(0 <= b / 16 < 16 && 0 <= b % 16 < 16);
    }
    assert forall|i: int| 0 <= i < 32 implies 16 * hex_value(s[2 * i])->0 + hex_value(
        s[2 * i + 1],
    )->0 == #[trigger] bytes[i] by {
        let b = bytes[i] as int;
        assert((2 * i) / 2 == i && (2 * i + 1) / 2 == i);
        assert(0 <= b / 16 < 16 && 0 <= b % 16 < 16);
    }
    assert(hex_decoded32(s)->0 =~= bytes);
}

/// Different bytes have different notations.
pub proof fn lemma_hex_injective(a: Seq<u8>, b: Seq<u8>)
    requires
        hex_lower(a) == hex_lower(b),
    ensures
        a == b,
{
    assert(hex_lower(a).len() == 2 * a.len() && hex_lower(b).len() == 2 * b.len());
    assert forall|i: int| 0 <= i < a.len() implies a[i] == b[i] by {
        assert((2 * i) / 2 == i && (2 * i + 1) / 2 == i);
        let (x, y) = (a[i] as int, b[i] as int);
        assert(hex_lower(a)[2 * i] == hex_digit(x / 16));
        assert(hex_lower(b)[2 * i] == hex_digit(y / 16));
        assert(hex_lower(a)[2 * i + 1] == hex_digit(x % 16));
        assert(hex_lower(b)[2 * i + 1] == hex_digit(y % 16));
        assert(0 <= x / 16 < 16 && 0 <= y / 16 < 16);
    }
    assert(a =~= b);
}

/// The two digits of a byte are those of its upper and of its lower half, `0` to `9`
/// and then `a` to `f`.
pub proof fn lemma_hex_digits(bytes: Seq<u8>, i: int)
    requires
        0 <= i < bytes.len(),
    ensures
        hex_lower(bytes).len() == 2 * bytes.len(),
        hex_lower(bytes)[2 * i] as int == (if bytes[i] / 16 < 10 {
            48 + bytes[i] / 16
        } else {
            87 + bytes[i] / 16
        }),
        hex_lower(bytes)[2 * i + 1] as int == (if bytes[i] % 16 < 10 {
            48 + bytes[i] % 16
        } else {
            87 + bytes[i] % 16
        }),
{
    assert((2 * i) / 2 == i && (2 * i + 1) / 2 == i);
    let b = bytes[i] as int;
    assert(0 <= b / 16 < 16 && 0 <= b % 16 < 16);
}

} // verus!
