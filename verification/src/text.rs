//! Text helpers: decimal numbers, prefixes, trimming, and UTF-8.

use vstd::prelude::*;
use vstd::string::*;
use vstd::utf8::*;

verus! {

/// `String::push` appends one character to the end of the string.
pub assume_specification[ String::push ](s: &mut String, ch: char)
    ensures
        final(s)@ == old(s)@.push(ch),
;

/// The decimal digit with the given value.
pub open spec fn digit_char(d: int) -> char {
    (d + 48) as char
}

/// Decimal notation of a natural number, without leading zeros.
pub open spec fn dec_nat(n: nat) -> Seq<char>
    decreases n,
{
    if n < 10 {
        seq![digit_char(n as int)]
    } else {
        dec_nat(n / 10).push(digit_char((n % 10) as int))
    }
}

/// Decimal notation of an integer, with a minus sign where it is negative.
pub open spec fn dec_int(n: int) -> Seq<char> {
    if n < 0 {
        seq!['-'] + dec_nat((-n) as nat)
    } else {
        dec_nat(n as nat)
    }
}

/// Append the decimal notation of `n`.
pub fn push_dec(out: &mut String, n: u64)
    ensures
        final(out)@ == old(out)@ + dec_nat(n as nat),
    decreases n,
{
    if n >= 10 {
        push_dec(out, n / 10);
    }
    let d: u8 = (n % 10) as u8;
    out.push((d + 48) as char);
}

/// Append the decimal notation of `n`, sign included.
pub fn push_dec_signed(out: &mut String, n: i64)
    ensures
        final(out)@ == old(out)@ + dec_int(n as int),
{
    if n < 0 {
        out.push('-');
        let m: u64 = if n == i64::MIN { 0x8000_0000_0000_0000 } else { (-n) as u64 };
        push_dec(out, m);
    } else {
        push_dec(out, n as u64);
    }
}

/// The characters of `s`, in order.
pub fn chars_of(s: &str) -> (out: Vec<char>)
    ensures
        out@ == s@,
{
    let mut out: Vec<char> = Vec::new();
    for c in it: s.chars()
        invariant
            out@ == it.seq().take(it.index()),
            it.seq() == s@,
    {
        out.push(c);
    }
    out
}

/// The text made of the given characters.
pub fn text_of(chars: &[char]) -> (out: String)
    ensures
        out@ == chars@,
{
    let mut out = String::new();
    for i in 0..chars.len()
        invariant
            out@ == chars@.take(i as int),
    {
        out.push(chars[i]);
    }
    out
}

/// Length of `s` in bytes.
pub fn byte_len(s: &str) -> (len: usize)
    ensures
        len == encode_utf8(s@).len(),
{
    s.as_bytes().len()
}

/// Two texts with the same UTF-8 bytes are the same text.
pub proof fn lemma_utf8_injective(a: Seq<char>, b: Seq<char>)
    ensures
        encode_utf8(a) == encode_utf8(b) <==> a == b,
{
    encode_utf8_decode_utf8(a);
    encode_utf8_decode_utf8(b);
}

/// Do two texts hold the same characters?
pub fn same_text(a: &str, b: &str) -> (same: bool)
    ensures
        same == (a@ == b@),
{
    proof {
        lemma_utf8_injective(a@, b@);
    }
    same_bytes(a.as_bytes(), b.as_bytes())
}

/// Do two slices hold the same bytes?
pub fn same_bytes(a: &[u8], b: &[u8]) -> (same: bool)
    ensures
        same == (a@ == b@),
{
    if a.len() != b.len() {
        return false;
    }
    for i in 0..a.len()
        invariant
            a@.len() == b@.len(),
            forall|j: int| 0 <= j < i ==> a@[j] == b@[j],
    {
        if a[i] != b[i] {
            return false;
        }
    }
    assert(a@ =~= b@);
    true
}

/// Does `s` start with `prefix`?
pub open spec fn starts_with(s: Seq<char>, prefix: Seq<char>) -> bool {
    &&& prefix.len() <= s.len()
    &&& s.take(prefix.len() as int) == prefix
}

/// `s` without `prefix` at its start, or all of `s` where it starts otherwise.
pub open spec fn without_prefix(s: Seq<char>, prefix: Seq<char>) -> Seq<char> {
    if starts_with(s, prefix) {
        s.skip(prefix.len() as int)
    } else {
        s
    }
}

/// Does `s` start with `prefix`?
pub fn has_prefix(s: &[char], prefix: &[char]) -> (res: bool)
    ensures
        res == starts_with(s@, prefix@),
{
    if s.len() < prefix.len() {
        return false;
    }
    for i in 0..prefix.len()
        invariant
            prefix@.len() <= s@.len(),
            forall|j: int| 0 <= j < i ==> s@[j] == prefix@[j],
    {
        if s[i] != prefix[i] {
            assert(s@.take(prefix@.len() as int)[i as int] == s@[i as int]);
            return false;
        }
    }
    assert(s@.take(prefix@.len() as int) =~= prefix@);
    true
}

/// Does `s` hold the character `c`?
pub fn has_char(s: &str, c: char) -> (res: bool)
    ensures
        res == s@.contains(c),
{
    let chars = chars_of(s);
    for i in 0..chars.len()
        invariant
            chars@ == s@,
            forall|j: int| 0 <= j < i ==> chars@[j] != c,
    {
        if chars[i] == c {
            return true;
        }
    }
    false
}

/// Characters with the Unicode `White_Space` property.
pub open spec fn is_space(c: char) -> bool {
    let u = c as u32;
    ||| 0x9 <= u <= 0xd
    ||| u == 0x20
    ||| u == 0x85
    ||| u == 0xa0
    ||| u == 0x1680
    ||| 0x2000 <= u <= 0x200a
    ||| u == 0x2028
    ||| u == 0x2029
    ||| u == 0x202f
    ||| u == 0x205f
    ||| u == 0x3000
}

/// Has `c` the Unicode `White_Space` property?
pub fn space(c: char) -> (res: bool)
    ensures
        res == is_space(c),
{
    let u: u32 = c as u32;
    (0x9 <= u && u <= 0xd) || u == 0x20 || u == 0x85 || u == 0xa0 || u == 0x1680 || (0x2000 <= u
        && u <= 0x200a) || u == 0x2028 || u == 0x2029 || u == 0x202f || u == 0x205f || u == 0x3000
}

/// `s` without leading white space.
pub open spec fn trim_start(s: Seq<char>) -> Seq<char>
    decreases s.len(),
{
    if s.len() > 0 && is_space(s.first()) {
        trim_start(s.drop_first())
    } else {
        s
    }
}

/// `s` without trailing white space.
pub open spec fn trim_end(s: Seq<char>) -> Seq<char>
    decreases s.len(),
{
    if s.len() > 0 && is_space(s.last()) {
        trim_end(s.drop_last())
    } else {
        s
    }
}

/// `s` without leading and trailing white space.
pub open spec fn trimmed(s: Seq<char>) -> Seq<char> {
    trim_end(trim_start(s))
}

/// The characters of `s` without leading and trailing white space.
pub fn trim(s: &[char]) -> (out: Vec<char>)
    ensures
        out@ == trimmed(s@),
{
    let mut lo: usize = 0;
    assert(s@.skip(0) =~= s@);
    while lo < s.len() && space(s[lo])
        invariant
            lo <= s@.len(),
            trim_start(s@) == trim_start(s@.skip(lo as int)),
        decreases s.len() - lo,
    {
        assert(s@.skip(lo as int).drop_first() =~= s@.skip(lo + 1));
        lo = lo + 1;
    }
    let mut hi: usize = s.len();
    assert(trim_start(s@) == s@.skip(lo as int));
    assert(s@.skip(lo as int) =~= s@.subrange(lo as int, hi as int));
    while lo < hi && space(s[hi - 1])
        invariant
            lo <= hi <= s@.len(),
            trimmed(s@) == trim_end(s@.subrange(lo as int, hi as int)),
        decreases hi - lo,
    {
        assert(s@.subrange(lo as int, hi as int).drop_last() =~= s@.subrange(
            lo as int,
            hi - 1,
        ));
        hi = hi - 1;
    }
    let mut out: Vec<char> = Vec::new();
    let mut i: usize = lo;
    while i < hi
        invariant
            lo <= i <= hi <= s@.len(),
            out@ == s@.subrange(lo as int, i as int),
        decreases hi - i,
    {
        out.push(s[i]);
        assert(s@.subrange(lo as int, i + 1) =~= s@.subrange(lo as int, i as int).push(
            s@[i as int],
        ));
        i = i + 1;
    }
    out
}

/// Text with no white space at either end is its own trimmed form.
pub proof fn lemma_trim_fixed(s: Seq<char>)
    requires
        s.len() > 0 ==> !is_space(s.first()) && !is_space(s.last()),
    ensures
        trimmed(s) == s,
{
}

/// White space around a text that has none at its ends is what trimming takes
/// away.
pub proof fn lemma_trim_around(before: Seq<char>, s: Seq<char>, after: Seq<char>)
    requires
        forall|i: int| 0 <= i < before.len() ==> is_space(#[trigger] before[i]),
        forall|i: int| 0 <= i < after.len() ==> is_space(#[trigger] after[i]),
        s.len() > 0,
        !is_space(s.first()),
        !is_space(s.last()),
    ensures
        trimmed(before + s + after) == s,
    decreases before.len() + after.len(),
{
    let all = before + s + after;
    if before.len() > 0 {
        assert(all.first() == before[0]);
        assert(all.drop_first() =~= before.drop_first() + s + after);
        lemma_trim_around(before.drop_first(), s, after);
    } else {
        assert(all =~= s + after);
        assert(all.first() == s.first());
        assert(trim_start(all) == all);
        if after.len() > 0 {
            assert(all.last() == after.last());
            let less = Seq::<char>::empty() + s + after.drop_last();
            assert(less =~= all.drop_last());
            assert(less.first() == s.first());
            lemma_trim_around(Seq::empty(), s, after.drop_last());
        } else {
            assert(all =~= s);
        }
    }
}

/// The notation of a natural number is made of decimal digits, at least one.
proof fn lemma_dec_chars(n: nat)
    ensures
        dec_nat(n).len() > 0,
        forall|i: int|
            0 <= i < dec_nat(n).len() ==> '0' <= #[trigger] dec_nat(n)[i] && dec_nat(n)[i] <= '9',
    decreases n,
{
    if n >= 10 {
        lemma_dec_chars(n / 10);
    }
}

/// Different natural numbers have different decimal notations.
pub proof fn lemma_dec_nat_injective(a: nat, b: nat)
    requires
        dec_nat(a) == dec_nat(b),
    ensures
        a == b,
    decreases a,
{
    lemma_dec_chars(a / 10);
    lemma_dec_chars(b / 10);
    if a < 10 && b < 10 {
        assert(dec_nat(a)[0] == digit_char(a as int));
        assert(dec_nat(b)[0] == digit_char(b as int));
    } else if a >= 10 && b >= 10 {
        assert(dec_nat(a).drop_last() =~= dec_nat(a / 10));
        assert(dec_nat(b).drop_last() =~= dec_nat(b / 10));
        assert(dec_nat(a).last() == digit_char((a % 10) as int));
        assert(dec_nat(b).last() == digit_char((b % 10) as int));
        lemma_dec_nat_injective(a / 10, b / 10);
    } else {
        assert(dec_nat(a).len() == dec_nat(b).len());
    }
}

/// Different integers have different decimal notations.
pub proof fn lemma_dec_int_injective(a: int, b: int)
    requires
        dec_int(a) == dec_int(b),
    ensures
        a == b,
{
    lemma_dec_chars(if a < 0 { (-a) as nat } else { a as nat });
    lemma_dec_chars(if b < 0 { (-b) as nat } else { b as nat });
    assert(dec_int(a)[0] == dec_int(b)[0]);
    assert(a < 0 ==> dec_int(a)[0] == '-');
    assert(b < 0 ==> dec_int(b)[0] == '-');
    assert(a >= 0 ==> dec_int(a)[0] == dec_nat(a as nat)[0]);
    assert(b >= 0 ==> dec_int(b)[0] == dec_nat(b as nat)[0]);
    if a < 0 {
        assert(dec_int(a).skip(1) =~= dec_nat((-a) as nat));
        assert(dec_int(b).skip(1) =~= dec_nat((-b) as nat));
        lemma_dec_nat_injective((-a) as nat, (-b) as nat);
    } else {
        lemma_dec_nat_injective(a as nat, b as nat);
    }
}

/// The notation of an integer holds no zero character.
pub proof fn lemma_dec_int_no_nul(n: int)
    ensures
        !dec_int(n).contains('\0'),
{
    lemma_dec_chars(if n < 0 { (-n) as nat } else { n as nat });
    assert forall|i: int| 0 <= i < dec_int(n).len() implies dec_int(n)[i] != '\0' by {
        if n < 0 && i > 0 {
            assert(dec_int(n)[i] == dec_nat((-n) as nat)[i - 1]);
        }
    }
}

/// Scalars other than zero have no zero byte in their encoding.
proof fn lemma_scalar_no_zero(v: u32)
    requires
        v != 0,
        is_scalar(v),
    ensures
        !encode_scalar(v).contains(0u8),
{
    assert(0 < v <= 0x7f ==> (v & 0x7F) as u8 != 0) by (bit_vector);
    assert((0xC0u8 | ((v >> 6) & 0x1F) as u8) != 0) by (bit_vector);
    assert((0xE0u8 | ((v >> 12) & 0x0F) as u8) != 0) by (bit_vector);
    assert((0xF0u8 | ((v >> 18) & 0x7) as u8) != 0) by (bit_vector);
    assert((0x80u8 | (v & 0x3F) as u8) != 0) by (bit_vector);
    assert((0x80u8 | ((v >> 6) & 0x3F) as u8) != 0) by (bit_vector);
    assert((0x80u8 | ((v >> 12) & 0x3F) as u8) != 0) by (bit_vector);
}

/// Text without the zero character has no zero byte in its encoding.
pub proof fn lemma_utf8_no_zero(s: Seq<char>)
    requires
        !s.contains('\0'),
    ensures
        !encode_utf8(s).contains(0u8),
    decreases s.len(),
{
    if s.len() > 0 {
        char_is_scalar(s[0]);
        assert(s.contains(s[0]));
        assert(s[0] as u32 != 0) by {
            char_u32_cast(s[0], s[0] as u32);
        }
        lemma_scalar_no_zero(s[0] as u32);
        assert forall|c: char| s.drop_first().contains(c) implies s.contains(c) by {
            let i = choose|i: int| 0 <= i < s.drop_first().len() && s.drop_first()[i] == c;
            assert(s[i + 1] == c);
        }
        lemma_utf8_no_zero(s.drop_first());
        let head = encode_scalar(s[0] as u32);
        let rest = encode_utf8(s.drop_first());
        assert forall|i: int| 0 <= i < (head + rest).len() implies (head + rest)[i] != 0u8 by {
            if i < head.len() {
                assert(head.contains(head[i]));
            } else {
                assert(rest.contains(rest[i - head.len()]));
            }
        }
    }
}

/// A zero byte closes a zero free field: equal sequences have equal fields and
/// equal remainders.
pub proof fn lemma_zero_closes(a: Seq<u8>, x: Seq<u8>, b: Seq<u8>, y: Seq<u8>)
    requires
        !a.contains(0u8),
        !b.contains(0u8),
        a + seq![0u8] + x == b + seq![0u8] + y,
    ensures
        a == b,
        x == y,
{
    let s = a + seq![0u8] + x;
    let t = b + seq![0u8] + y;
    assert(s[a.len() as int] == 0u8);
    assert(t[b.len() as int] == 0u8);
    if a.len() < b.len() {
        assert(t[a.len() as int] == b[a.len() as int]);
        assert(b.contains(b[a.len() as int]));
    }
    if b.len() < a.len() {
        assert(s[b.len() as int] == a[b.len() as int]);
        assert(a.contains(a[b.len() as int]));
    }
    assert(s.take(a.len() as int) =~= a);
    assert(t.take(b.len() as int) =~= b);
    assert(s.skip(a.len() as int + 1) =~= x);
    assert(t.skip(b.len() as int + 1) =~= y);
}

/// Text of ASCII characters has as many bytes as characters.
pub proof fn lemma_ascii_len(s: Seq<char>)
    requires
        forall|i: int| 0 <= i < s.len() ==> (#[trigger] s[i]) as u32 <= 0x7f,
    ensures
        encode_utf8(s).len() == s.len(),
    decreases s.len(),
{
    if s.len() > 0 {
        assert((s[0] as u32) <= 0x7f);
        assert forall|i: int| 0 <= i < s.drop_first().len() implies (#[trigger]
            s.drop_first()[i]) as u32 <= 0x7f by {
            assert(s.drop_first()[i] == s[i + 1]);
        }
        lemma_ascii_len(s.drop_first());
    }
}

/// Calls `String::from_utf8`: the text that the bytes encode, or `None` where
/// they are no valid UTF-8.
#[verifier::external_body]
pub(crate) fn utf8_text(bytes: Vec<u8>) -> (res: Option<String>)
    ensures
        match res {
            Some(s) => valid_utf8(bytes@) && s@ == decode_utf8(bytes@),
            None => !valid_utf8(bytes@),
        },
{
    String::from_utf8(bytes).ok()
}

/// The text that bytes encode, with a replacement character for each sequence
/// that is no valid UTF-8.
pub uninterp spec fn lossy_text_of(bytes: Seq<u8>) -> Seq<char>;

/// Calls `String::from_utf8_lossy`: a function of the bytes, and what they
/// encode where they are valid UTF-8.
#[verifier::external_body]
pub(crate) fn lossy_text(bytes: &[u8]) -> (res: String)
    ensures
        res@ == lossy_text_of(bytes@),
        valid_utf8(bytes@) ==> res@ == decode_utf8(bytes@),
{
    String::from_utf8_lossy(bytes).into_owned()
}

/// Decimal notation, digit by digit: the last digit is what dividing by ten leaves
/// over, what stands before it is the notation of the quotient, and a number
/// below ten has no more than that one digit.
pub proof fn lemma_dec_digits(n: nat)
    ensures
        dec_nat(n).len() > 0,
        dec_nat(n).last() as int == 48 + n % 10,
        n < 10 ==> dec_nat(n).len() == 1,
        n >= 10 ==> dec_nat(n).drop_last() == dec_nat(n / 10),
        n > 0 ==> dec_nat(n).first() != '0',
        forall|i: int| 0 <= i < dec_nat(n).len() ==> '0' <= #[trigger] dec_nat(n)[i] <= '9',
    decreases n,
{
    lemma_dec_chars(n);
    if n >= 10 {
        lemma_dec_digits(n / 10);
        assert(dec_nat(n).drop_last() =~= dec_nat(n / 10));
        assert(dec_nat(n).first() == dec_nat(n / 10).first());
    }
}

/// A negative number is a minus sign and the notation of what it is below zero.
pub proof fn lemma_dec_sign(n: int)
    ensures
        n >= 0 ==> dec_int(n) == dec_nat(n as nat),
        n < 0 ==> dec_int(n).first() == '-' && dec_int(n).drop_first() == dec_nat((-n) as nat),
{
    if n < 0 {
        assert(dec_int(n).drop_first() =~= dec_nat((-n) as nat));
    }
}

/// Trimming takes white space away at both ends and nothing else: what it gives
/// stands in the text with only white space before and behind it, and neither
/// starts nor ends with any.
pub proof fn lemma_trim_takes(s: &[char], out: Vec<char>) -> (at: (int, int))
    requires
        call_ensures(trim, (s,), out),
    ensures
        0 <= at.0 <= at.1 <= s@.len(),
        out@ == s@.subrange(at.0, at.1),
        forall|i: int| 0 <= i < at.0 || at.1 <= i < s@.len() ==> is_space(#[trigger] s@[i]),
        out@.len() > 0 ==> !is_space(out@.first()) && !is_space(out@.last()),
{
    let lo = lemma_trim_start_takes(s@);
    let rest = trim_start(s@);
    let hi = lemma_trim_end_takes(rest);
    let all = s@;
    assert forall|i: int| 0 <= i < lo || lo + hi <= i < all.len() implies is_space(
        #[trigger] all[i],
    ) by {
        if i >= lo + hi {
            assert(all[i] == rest[i - lo]);
        }
    }
    assert(out@ =~= all.subrange(lo, lo + hi));
    (lo, lo + hi)
}

proof fn lemma_trim_start_takes(s: Seq<char>) -> (lo: int)
    ensures
        0 <= lo <= s.len(),
        trim_start(s) == s.skip(lo),
        forall|i: int| 0 <= i < lo ==> is_space(#[trigger] s[i]),
        lo < s.len() ==> !is_space(s[lo]),
    decreases s.len(),
{
    if s.len() > 0 && is_space(s.first()) {
        let rest = s.drop_first();
        let lo = lemma_trim_start_takes(rest);
        assert(s.skip(lo + 1) =~= rest.skip(lo));
        assert forall|i: int| 0 <= i < lo + 1 implies is_space(#[trigger] s[i]) by {
            if i > 0 {
                assert(s[i] == rest[i - 1]);
            }
        }
        if lo < rest.len() {
            assert(s[lo + 1] == rest[lo]);
        }
        lo + 1
    } else {
        assert(s.skip(0) =~= s);
        0
    }
}

proof fn lemma_trim_end_takes(s: Seq<char>) -> (hi: int)
    ensures
        0 <= hi <= s.len(),
        trim_end(s) == s.take(hi),
        forall|i: int| hi <= i < s.len() ==> is_space(#[trigger] s[i]),
        hi > 0 ==> !is_space(s[hi - 1]),
    decreases s.len(),
{
    if s.len() > 0 && is_space(s.last()) {
        let rest = s.drop_last();
        let hi = lemma_trim_end_takes(rest);
        assert(s.take(hi) =~= rest.take(hi));
        assert forall|i: int| hi <= i < s.len() implies is_space(#[trigger] s[i]) by {
            if i < rest.len() {
                assert(s[i] == rest[i]);
            }
        }
        if hi > 0 {
            assert(s[hi - 1] == rest[hi - 1]);
        }
        hi
    } else {
        assert(s.take(s.len() as int) =~= s);
        s.len() as int
    }
}

/// A text starts with a prefix where it agrees with it character by character.
pub proof fn lemma_prefix_chars(s: &[char], prefix: &[char], res: bool)
    requires
        call_ensures(has_prefix, (s, prefix), res),
    ensures
        res <==> prefix@.len() <= s@.len() && forall|i: int|
            0 <= i < prefix@.len() ==> #[trigger] s@[i] == prefix@[i],
{
    let n = prefix@.len() as int;
    if n <= s@.len() {
        if forall|i: int| 0 <= i < n ==> #[trigger] s@[i] == prefix@[i] {
            assert(s@.take(n) =~= prefix@);
        }
        if s@.take(n) == prefix@ {
            assert forall|i: int| 0 <= i < n implies #[trigger] s@[i] == prefix@[i] by {
                assert(s@.take(n)[i] == s@[i]);
            }
        }
    }
}

} // verus!
