//! The master key of a config server, and its base64 notation.

use base64::Engine;
use vstd::prelude::*;
use vstd::string::*;

use super::CfgError;
use super::CfgErrorView;
use crate::crypto;
use crate::text;

verus! {

/// The base64 digit with the given value.
pub open spec fn base64_digit(v: int) -> char {
    if v < 26 {
        (v + 65) as char
    } else if v < 52 {
        (v + 71) as char
    } else if v < 62 {
        (v - 4) as char
    } else if v == 62 {
        '+'
    } else {
        '/'
    }
}

/// The six bits that the digit at `i` stands for: those from bit `6 * i` on, the
/// most significant bit of each byte first, with zeros behind the last byte.
pub open spec fn sextet(bytes: Seq<u8>, i: int) -> int {
    let at = 6 * i / 8;
    let next = if at + 1 < bytes.len() {
        bytes[at + 1] as int
    } else {
        0
    };
    let pair = bytes[at] * 256 + next;
    let bit = 6 * i % 8;
    if bit == 0 {
        pair / 1024 % 64
    } else if bit == 2 {
        pair / 256 % 64
    } else if bit == 4 {
        pair / 64 % 64
    } else {
        pair / 16 % 64
    }
}

/// The base64 notation of bytes, with the standard alphabet, filled up to a
/// multiple of four characters.
pub open spec fn base64_of(bytes: Seq<u8>) -> Seq<char> {
    Seq::new(
        4 * ((bytes.len() + 2) / 3),
        |i: int|
            if 6 * i < 8 * bytes.len() {
                base64_digit(sextet(bytes, i))
            } else {
                '='
            },
    )
}

/// Notation in base64 holds no white space.
proof fn lemma_base64_no_space(bytes: Seq<u8>)
    ensures
        forall|i: int|
            0 <= i < base64_of(bytes).len() ==> !text::is_space(#[trigger] base64_of(bytes)[i]),
{
    assert forall|i: int| 0 <= i < base64_of(bytes).len() implies !text::is_space(
        #[trigger] base64_of(bytes)[i],
    ) by {
        if 6 * i < 8 * bytes.len() {
            let v = sextet(bytes, i);
            assert(0 <= v < 64);
        }
    }
}

/// The byte at `k`, out of the digits that it has a part in.
spec fn byte_back(bytes: Seq<u8>, k: int) -> int {
    let i = 4 * (k / 3);
    if k % 3 == 0 {
        sextet(bytes, i) * 4 + sextet(bytes, i + 1) / 16
    } else if k % 3 == 1 {
        sextet(bytes, i + 1) % 16 * 16 + sextet(bytes, i + 2) / 4
    } else {
        sextet(bytes, i + 2) % 4 * 64 + sextet(bytes, i + 3)
    }
}

/// Six bits out of two bytes, at each place where a digit takes them.
proof fn lemma_six_bits(x: u8, y: u8)
    ensures
        (x * 256 + y) / 1024 % 64 == x / 4,
        (x * 256 + y) / 16 % 64 == x % 4 * 16 + y / 16,
        (x * 256 + y) / 64 % 64 == x % 16 * 4 + y / 64,
        (x * 256 + y) / 256 % 64 == x % 64,
{
    assert((x * 256 + y) / 1024 % 64 == x / 4) by (bit_vector);
    assert((x * 256 + y) / 16 % 64 == x % 4 * 16 + y / 16) by (bit_vector);
    assert((x * 256 + y) / 64 % 64 == x % 16 * 4 + y / 64) by (bit_vector);
    assert((x * 256 + y) / 256 % 64 == x % 64) by (bit_vector);
}

/// The byte at `k`, and zero behind the last one.
spec fn byte_or_zero(bytes: Seq<u8>, k: int) -> u8 {
    if k < bytes.len() {
        bytes[k]
    } else {
        0
    }
}

/// What the four digits of three bytes stand for.
proof fn lemma_sextets(bytes: Seq<u8>, q: int)
    requires
        0 <= 3 * q < bytes.len(),
    ensures
        sextet(bytes, 4 * q) == bytes[3 * q] / 4,
        sextet(bytes, 4 * q + 1) == bytes[3 * q] % 4 * 16 + byte_or_zero(bytes, 3 * q + 1) / 16,
        3 * q + 1 < bytes.len() ==> sextet(bytes, 4 * q + 2) == bytes[3 * q + 1] % 16 * 4
            + byte_or_zero(bytes, 3 * q + 2) / 64,
        3 * q + 2 < bytes.len() ==> sextet(bytes, 4 * q + 3) == bytes[3 * q + 2] % 64,
{
    let i = 4 * q;
    assert(6 * i / 8 == 3 * q && 6 * i % 8 == 0);
    assert(6 * (i + 1) / 8 == 3 * q && 6 * (i + 1) % 8 == 6);
    assert(6 * (i + 2) / 8 == 3 * q + 1 && 6 * (i + 2) % 8 == 4);
    assert(6 * (i + 3) / 8 == 3 * q + 2 && 6 * (i + 3) % 8 == 2);
    lemma_six_bits(bytes[3 * q], byte_or_zero(bytes, 3 * q + 1));
    lemma_six_bits(byte_or_zero(bytes, 3 * q + 1), byte_or_zero(bytes, 3 * q + 2));
    lemma_six_bits(byte_or_zero(bytes, 3 * q + 2), byte_or_zero(bytes, 3 * q + 3));
}

/// The byte is what its digits say.
proof fn lemma_byte_back(bytes: Seq<u8>, k: int)
    requires
        0 <= k < bytes.len(),
    ensures
        byte_back(bytes, k) == bytes[k],
{
    lemma_sextets(bytes, k / 3);
}

/// Different values have different digits, none of which fills up.
proof fn lemma_digit_back(v: int, w: int)
    requires
        0 <= v < 64,
        0 <= w < 64,
    ensures
        base64_digit(v) == base64_digit(w) ==> v == w,
        base64_digit(v) != '=',
{
}

/// The first digits of two notations, and with them the bytes, agree.
proof fn lemma_base64_same_bytes(a: Seq<u8>, b: Seq<u8>)
    requires
        base64_of(a) == base64_of(b),
        a.len() == b.len(),
    ensures
        a == b,
{
    assert forall|i: int| 0 <= i && 6 * i < 8 * a.len() implies sextet(a, i) == #[trigger] sextet(
        b,
        i,
    ) by {
        assert(base64_of(a)[i] == base64_digit(sextet(a, i)));
        assert(base64_of(b)[i] == base64_digit(sextet(b, i)));
        lemma_digit_back(sextet(a, i), sextet(b, i));
    }
    assert forall|k: int| 0 <= k < a.len() implies a[k] == b[k] by {
        lemma_byte_back(a, k);
        lemma_byte_back(b, k);
        let i = 4 * (k / 3);
        assert(sextet(a, i) == sextet(b, i));
        assert(sextet(a, i + 1) == sextet(b, i + 1));
        if k % 3 > 0 {
            assert(sextet(a, i + 2) == sextet(b, i + 2));
        }
        if k % 3 > 1 {
            assert(sextet(a, i + 3) == sextet(b, i + 3));
        }
    }
    assert(a =~= b);
}

/// A notation tells how many bytes it stands for.
proof fn lemma_base64_longer(a: Seq<u8>, b: Seq<u8>)
    requires
        a.len() < b.len(),
    ensures
        base64_of(a) != base64_of(b),
{
    let i = (8 * a.len() as int + 5) / 6;
    if base64_of(a) == base64_of(b) {
        assert(base64_of(a).len() == base64_of(b).len());
        assert(base64_of(a)[i] == '=');
        assert(base64_of(b)[i] == base64_digit(sextet(b, i)));
        lemma_digit_back(sextet(b, i), 0);
    }
}

/// Different bytes have different base64 notations.
pub proof fn lemma_base64_injective(a: Seq<u8>, b: Seq<u8>)
    requires
        base64_of(a) == base64_of(b),
    ensures
        a == b,
{
    if a.len() < b.len() {
        lemma_base64_longer(a, b);
    } else if b.len() < a.len() {
        lemma_base64_longer(b, a);
    } else {
        lemma_base64_same_bytes(a, b);
    }
}

/// Why a text is no base64 notation, in words.
pub uninterp spec fn base64_refusal(s: Seq<char>) -> Seq<char>;

/// The bytes that a text is the base64 notation of, or why it is none.
pub open spec fn base64_decoded(s: Seq<char>) -> Result<Seq<u8>, Seq<char>> {
    if exists|bytes: Seq<u8>| #[trigger] base64_of(bytes) == s {
        Ok(choose|bytes: Seq<u8>| #[trigger] base64_of(bytes) == s)
    } else {
        Err(base64_refusal(s))
    }
}

/// Decoding undoes encoding.
pub proof fn lemma_base64_round_trip(bytes: Seq<u8>)
    ensures
        base64_decoded(base64_of(bytes)) == Ok::<Seq<u8>, Seq<char>>(bytes),
{
    let s = base64_of(bytes);
    let b = choose|b: Seq<u8>| #[trigger] base64_of(b) == s;
    lemma_base64_injective(b, bytes);
}

/// Calls `encode` of `base64::engine::general_purpose::STANDARD`: the notation of
/// the bytes.
#[verifier::external_body]
fn base64_encode(bytes: &[u8; 32]) -> (out: String)
    ensures
        out@ == base64_of(bytes@),
{
    base64::engine::general_purpose::STANDARD.encode(bytes)
}

/// Calls `decode` of `base64::engine::general_purpose::STANDARD`: the bytes that
/// the text is the notation of. The engine takes nothing else: the alphabet, the
/// filling and the bits that are left over must be as the notation has them. The
/// words of a refusal are a function of the text.
#[verifier::external_body]
fn base64_decode(s: &str) -> (res: Result<Vec<u8>, String>)
    ensures
        res is Ok ==> base64_of(res->Ok_0@) == s@,
        res is Err ==> forall|bytes: Seq<u8>| #[trigger] base64_of(bytes) != s@,
        res is Err ==> res->Err_0@ == base64_refusal(s@),
{
    base64::engine::general_purpose::STANDARD.decode(s).map_err(|err| err.to_string())
}

/// The key that decoded bytes make: there must be exactly 32 of them.
pub open spec fn key_of(decoded: Result<Seq<u8>, Seq<char>>) -> Result<Seq<u8>, CfgErrorView> {
    match decoded {
        Err(words) => Err(CfgErrorView::KeyNotBase64(words)),
        Ok(bytes) => if bytes.len() == 32 {
            Ok(bytes)
        } else {
            Err(CfgErrorView::KeyLength)
        },
    }
}

/// The key that a text stands for, white space around it aside.
pub open spec fn key_parsed(s: Seq<char>) -> Result<Seq<u8>, CfgErrorView> {
    key_of(base64_decoded(text::trimmed(s)))
}

/// Make a key of decoded bytes.
pub fn key_from(decoded: Result<Vec<u8>, String>) -> (res: Result<[u8; 32], CfgError>)
    ensures
        match key_of(
            match decoded {
                Ok(bytes) => Ok(bytes@),
                Err(words) => Err(words@),
            },
        ) {
            Ok(key) => res is Ok && res->Ok_0@ == key,
            Err(err) => res is Err && res->Err_0@ == err,
        },
{
    match decoded {
        Err(words) => Err(CfgError::KeyNotBase64(words)),
        Ok(bytes) => {
            if bytes.len() != 32 {
                return Err(CfgError::KeyLength);
            }
            let mut key = [0u8; 32];
            for i in 0..32usize
                invariant
                    bytes@.len() == 32,
                    key@.len() == 32,
                    forall|j: int| 0 <= j < i ==> key@[j] == bytes@[j],
            {
                key[i] = bytes[i];
            }
            assert(key@ =~= bytes@);
            Ok(key)
        },
    }
}

/// Decode the base64 master key into the raw 32 bytes the db expects.
pub fn parse_encryption_key(key: &str) -> (res: Result<[u8; 32], CfgError>)
    ensures
        match key_parsed(key@) {
            Ok(bytes) => res is Ok && res->Ok_0@ == bytes,
            Err(err) => res is Err && res->Err_0@ == err,
        },
        res is Err ==> res->Err_0@.invalid_input(),
{
    let chars = text::chars_of(key);
    let inner = text::text_of(text::trim(chars.as_slice()).as_slice());
    let decoded = base64_decode(inner.as_str());
    proof {
        if decoded is Ok {
            lemma_base64_round_trip(decoded->Ok_0@);
        }
    }
    key_from(decoded)
}

/// Encode raw key bytes as a standard base64 string, which parses back into
/// them.
pub fn encode_encryption_key(key: &[u8; 32]) -> (out: String)
    ensures
        out@ == base64_of(key@),
        key_parsed(out@) == Ok::<Seq<u8>, CfgErrorView>(key@),
        out@.len() == 44,
{
    let out = base64_encode(key);
    proof {
        lemma_base64_no_space(key@);
        lemma_base64_round_trip(key@);
        text::lemma_trim_fixed(out@);
    }
    out
}

/// The notation of a key parses into the key, white space around it or not.
pub proof fn lemma_key_amid_space(before: Seq<char>, key: Seq<u8>, after: Seq<char>)
    requires
        key.len() == 32,
        forall|i: int| 0 <= i < before.len() ==> text::is_space(#[trigger] before[i]),
        forall|i: int| 0 <= i < after.len() ==> text::is_space(#[trigger] after[i]),
    ensures
        key_parsed(before + base64_of(key) + after) == Ok::<Seq<u8>, CfgErrorView>(key),
{
    lemma_base64_no_space(key);
    lemma_base64_round_trip(key);
    text::lemma_trim_around(before, base64_of(key), after);
}

/// Generate a random 32 byte master key. Any 32 bytes may be drawn, so nothing more
/// is promised of them.
pub fn random_encryption_key() -> (key: [u8; 32])
    ensures
        crypto::drawn(key),
{
    crypto::draw32()
}

/// A key parses exactly out of the notation that it is written in, with or without
/// white space around it.
pub proof fn lemma_key_read(
    words: &str,
    parsed: Result<[u8; 32], CfgError>,
    key: &[u8; 32],
    written: String,
)
    requires
        call_ensures(parse_encryption_key, (words,), parsed),
        call_ensures(encode_encryption_key, (key,), written),
    ensures
        parsed is Ok && parsed->Ok_0@ == key@ <==> text::trimmed(words@) == written@,
        parsed is Err ==> parsed->Err_0 is KeyNotBase64 || parsed->Err_0 is KeyLength,
{
    let s = text::trimmed(words@);
    lemma_base64_round_trip(key@);
    if parsed is Ok && parsed->Ok_0@ == key@ {
        assert(base64_decoded(s) == Ok::<Seq<u8>, Seq<char>>(key@));
        assert(exists|bytes: Seq<u8>| #[trigger] base64_of(bytes) == s);
        assert(base64_of(key@) == s);
    }
}

/// Decoded bytes are a key exactly where there are 32 of them.
pub proof fn lemma_key_length(
    decoded: Result<Vec<u8>, String>,
    res: Result<[u8; 32], CfgError>,
)
    requires
        call_ensures(key_from, (decoded,), res),
    ensures
        res is Ok <==> decoded is Ok && decoded->Ok_0@.len() == 32,
        res is Ok ==> res->Ok_0@ == decoded->Ok_0@,
        decoded is Err ==> res->Err_0 is KeyNotBase64 && res->Err_0->KeyNotBase64_0@
            == decoded->Err_0@,
        decoded is Ok && res is Err ==> res->Err_0 is KeyLength,
{
}

} // verus!
