//! HTTP replies and header values, as far as the servers decide on them.

use vstd::prelude::*;
use vstd::string::*;
use vstd::utf8::*;

use crate::text;

verus! {

/// The request succeeded.
pub const OK: u16 = 200;

/// The request could not be read.
pub const BAD_REQUEST: u16 = 400;

/// The request is not authorized.
pub const UNAUTHORIZED: u16 = 401;

/// There is nothing at the requested path.
pub const NOT_FOUND: u16 = 404;

/// The body of the request is too large.
pub const PAYLOAD_TOO_LARGE: u16 = 413;

/// The request failed in the server.
pub const INTERNAL_SERVER_ERROR: u16 = 500;

/// The server takes no more requests for now.
pub const SERVICE_UNAVAILABLE: u16 = 503;

/// Maximum accepted request body size.
pub const MAX_BODY: usize = 16777216;

/// Content type of plain text replies.
pub const TEXT_PLAIN: &'static str = "text/plain; charset=utf-8";

/// What stands before the token in an authorization header.
pub const BEARER: &'static str = "Bearer ";

/// Reply to a request.
pub struct Reply {
    /// status code
    pub status: u16,
    /// is the content type `TEXT_PLAIN`? Otherwise none is set.
    pub plain_text: bool,
    /// seconds after which to try again
    pub retry_after: Option<u64>,
    /// body
    pub body: Vec<u8>,
}

/// What a reply says.
pub struct ReplyView {
    /// status code
    pub status: u16,
    /// is the body marked as plain text?
    pub plain_text: bool,
    /// seconds after which to try again
    pub retry_after: Option<u64>,
    /// body
    pub body: Seq<u8>,
}

impl View for Reply {
    type V = ReplyView;

    open spec fn view(&self) -> ReplyView {
        ReplyView {
            status: self.status,
            plain_text: self.plain_text,
            retry_after: self.retry_after,
            body: self.body@,
        }
    }
}

/// A reply with the given status code and body.
pub open spec fn plain_reply(status: u16, body: Seq<u8>) -> ReplyView {
    ReplyView { status, plain_text: false, retry_after: None, body }
}

/// A reply with the given status code and words.
pub open spec fn text_reply(status: u16, words: Seq<char>) -> ReplyView {
    ReplyView { status, plain_text: true, retry_after: None, body: encode_utf8(words) }
}

/// Build a plain response with the given status code and body.
pub fn resp(code: u16, body: Vec<u8>) -> (reply: Reply)
    ensures
        reply@ == plain_reply(code, body@),
{
    Reply { status: code, plain_text: false, retry_after: None, body }
}

/// Build a plain-text response with the given status code and words.
pub fn resp_text(code: u16, words: &str) -> (reply: Reply)
    ensures
        reply@ == text_reply(code, words@),
{
    let mut body: Vec<u8> = Vec::new();
    body.extend_from_slice(words.as_bytes());
    assert(body@ =~= encode_utf8(words@));
    Reply { status: code, plain_text: true, retry_after: None, body }
}

/// Is this a status code of success?
pub open spec fn success(status: u16) -> bool {
    200 <= status < 300
}

/// May this byte stand in a header value that is text?
pub open spec fn visible(b: u8) -> bool {
    32 <= b < 127 || b == 9
}

/// The text of a header value: `None` where a byte is no visible ASCII
/// character, space or tab.
pub open spec fn header_text(value: Seq<u8>) -> Option<Seq<char>> {
    if forall|i: int| 0 <= i < value.len() ==> visible(#[trigger] value[i]) {
        Some(value.map_values(|b: u8| b as char))
    } else {
        None
    }
}

/// Read a header value as text.
pub fn header_str(value: &[u8]) -> (res: Option<String>)
    ensures
        match header_text(value@) {
            Some(t) => res is Some && res->0@ == t,
            None => res is None,
        },
{
    let mut out = String::new();
    for i in 0..value.len()
        invariant
            out@ == value@.take(i as int).map_values(|b: u8| b as char),
            forall|j: int| 0 <= j < i ==> visible(#[trigger] value@[j]),
    {
        let b: u8 = value[i];
        if !((32 <= b && b < 127) || b == 9) {
            assert(!visible(value@[i as int]));
            return None;
        }
        out.push(b as char);
        assert(value@.take(i + 1).map_values(|b: u8| b as char) =~= value@.take(i as int).map_values(
            |b: u8| b as char,
        ).push(b as char));
    }
    assert(value@.take(value@.len() as int) =~= value@);
    Some(out)
}

/// Is every character a decimal digit?
pub open spec fn all_digits(s: Seq<char>) -> bool {
    forall|i: int| 0 <= i < s.len() ==> '0' <= #[trigger] s[i] && s[i] <= '9'
}

/// Value of a text of decimal digits.
pub open spec fn digits_value(s: Seq<char>) -> nat
    decreases s.len(),
{
    if s.len() == 0 {
        0
    } else {
        (10 * digits_value(s.drop_last()) + (s.last() as int - 48)) as nat
    }
}

/// The 64 bit number that a text stands for: decimal digits, at least one,
/// behind at most one plus sign.
pub open spec fn u64_text(s: Seq<char>) -> Option<u64> {
    let digits = if s.len() > 0 && s[0] == '+' {
        s.skip(1)
    } else {
        s
    };
    if digits.len() > 0 && all_digits(digits) && digits_value(digits) <= u64::MAX {
        Some(digits_value(digits) as u64)
    } else {
        None
    }
}

/// Parse a 64 bit number.
pub fn parse_u64(s: &str) -> (res: Option<u64>)
    ensures
        res == u64_text(s@),
{
    let chars = text::chars_of(s);
    let from: usize = if chars.len() > 0 && chars[0] == '+' { 1 } else { 0 };
    let ghost digits = if s@.len() > 0 && s@[0] == '+' {
        s@.skip(1)
    } else {
        s@
    };
    if from == chars.len() {
        return None;
    }
    let mut value: u64 = 0;
    let mut bad: bool = false;
    let mut over: bool = false;
    assert(digits.take(0) =~= Seq::empty());
    for i in from..chars.len()
        invariant
            chars@ == s@,
            from <= chars@.len(),
            digits.len() == chars@.len() - from,
            forall|j: int| 0 <= j < digits.len() ==> digits[j] == chars@[j + from],
            bad ==> !all_digits(digits),
            !bad ==> all_digits(digits.take(i - from)),
            !bad && over ==> digits_value(digits.take(i - from)) > u64::MAX,
            !bad && !over ==> value == digits_value(digits.take(i - from)),
    {
        let c: char = chars[i];
        let ghost before = digits.take(i - from);
        let ghost now = digits.take(i - from + 1);
        assert(digits[i - from] == c);
        assert(now.drop_last() =~= before);
        assert(now.last() == c);
        if !('0' <= c && c <= '9') {
            assert(!all_digits(digits));
            bad = true;
        } else if !bad {
            assert forall|j: int| 0 <= j < now.len() implies '0' <= #[trigger] now[j] && now[j]
                <= '9' by {
                if j < before.len() {
                    assert(now[j] == before[j]);
                }
            }
            let d: u64 = (c as u32 - 48) as u64;
            if !over {
                if value <= (u64::MAX - d) / 10 {
                    value = value * 10 + d;
                } else {
                    over = true;
                }
            }
        }
    }
    assert(digits.take(digits.len() as int) =~= digits);
    if bad || over {
        None
    } else {
        Some(value)
    }
}

/// Does a request declare a body over the limit? A declaration that is no
/// number declares nothing.
pub open spec fn declares_too_much(content_length: Option<Seq<u8>>) -> bool {
    content_length is Some && header_text(content_length->0) is Some && match u64_text(
        header_text(content_length->0)->0,
    ) {
        Some(len) => len > MAX_BODY,
        None => false,
    }
}

/// Does a request declare a body over the limit?
pub fn declared_too_large(content_length: Option<&[u8]>) -> (res: bool)
    ensures
        res == declares_too_much(
            match content_length {
                Some(value) => Some(value@),
                None => None,
            },
        ),
{
    match content_length {
        None => false,
        Some(value) => match header_str(value) {
            None => false,
            Some(words) => match parse_u64(words.as_str()) {
                None => false,
                Some(len) => len > MAX_BODY as u64,
            },
        },
    }
}

/// What came of reading the body of a request, at most `MAX_BODY` bytes of it.
pub enum BodyRead {
    /// The whole body.
    Whole(Vec<u8>),
    /// The body is over the limit.
    TooLarge,
    /// The body could not be read.
    Failed,
}

/// Writing a number in decimal and reading it back gives the number.
pub proof fn lemma_number_read_back(n: u64, s: &str, res: Option<u64>)
    requires
        s@ == text::dec_nat(n as nat),
        call_ensures(parse_u64, (s,), res),
    ensures
        res == Some(n),
{
    lemma_dec_value(n as nat);
}

/// The decimal notation of a number has its value.
pub proof fn lemma_dec_value(n: nat)
    ensures
        all_digits(text::dec_nat(n)),
        digits_value(text::dec_nat(n)) == n,
        text::dec_nat(n).len() > 0,
        text::dec_nat(n)[0] != '+',
    decreases n,
{
    text::lemma_dec_digits(n);
    let s = text::dec_nat(n);
    if n >= 10 {
        lemma_dec_value(n / 10);
    } else {
        assert(s.drop_last() =~= Seq::empty());
        assert(digits_value(s.drop_last()) == 0);
    }
}

/// A text that holds anything but decimal digits, a leading plus sign aside, or no
/// digit at all, is no number.
pub proof fn lemma_no_number(s: &str, res: Option<u64>)
    requires
        call_ensures(parse_u64, (s,), res),
        s@.len() == 0 || s@ == seq!['+'] || exists|i: int|
            0 <= i < s@.len() && !('0' <= #[trigger] s@[i] <= '9') && (i > 0 || s@[i] != '+'),
    ensures
        res is None,
{
    if s@.len() > 0 && s@ != seq!['+'] {
        let i = choose|i: int|
            0 <= i < s@.len() && !('0' <= #[trigger] s@[i] <= '9') && (i > 0 || s@[i] != '+');
        if s@[0] == '+' {
            assert(s@.skip(1)[i - 1] == s@[i]);
        }
    }
}

/// A header value is text where each byte is a visible ASCII character, a space or
/// a tab, and then it reads as the characters with the numbers of its bytes.
pub proof fn lemma_header_reads(value: &[u8], res: Option<String>)
    requires
        call_ensures(header_str, (value,), res),
    ensures
        res is Some <==> forall|i: int|
            0 <= i < value@.len() ==> (32 <= #[trigger] value@[i] <= 126 || value@[i] == 9),
        res is Some ==> res->0@.len() == value@.len() && forall|i: int|
            0 <= i < value@.len() ==> (#[trigger] res->0@[i]) as int == value@[i],
{
    if forall|i: int| 0 <= i < value@.len() ==> (32 <= #[trigger] value@[i] <= 126 || value@[i]
        == 9) {
        assert forall|i: int| 0 <= i < value@.len() implies visible(#[trigger] value@[i]) by {}
    }
    if header_text(value@) is Some {
        assert forall|i: int| 0 <= i < value@.len() implies (32 <= #[trigger] value@[i] <= 126
            || value@[i] == 9) by {
            assert(visible(value@[i]));
        }
    }
}

/// A request declares a body over the limit exactly where its content length, in
/// decimal, is over 16 MiB.
pub proof fn lemma_declared_limit(n: u64, value: &[u8], res: bool)
    requires
        value@.len() == text::dec_nat(n as nat).len(),
        forall|i: int|
            0 <= i < value@.len() ==> (#[trigger] value@[i]) as int == text::dec_nat(n as nat)[i]
                as int,
        call_ensures(declared_too_large, (Some(value),), res),
    ensures
        res <==> n > 16 * 1024 * 1024,
{
    let s = text::dec_nat(n as nat);
    lemma_dec_value(n as nat);
    text::lemma_dec_digits(n as nat);
    assert forall|i: int| 0 <= i < value@.len() implies visible(#[trigger] value@[i]) by {
        assert('0' <= s[i] <= '9');
    }
    assert(header_text(value@)->0 =~= s);
}

/// A request that declares no content length, or declares it in something other
/// than a number, declares nothing over the limit.
pub proof fn lemma_undeclared(value: Option<&[u8]>, res: bool)
    requires
        call_ensures(declared_too_large, (value,), res),
        value is None || exists|i: int|
            0 < i < value->0@.len() && !(48 <= #[trigger] value->0@[i] <= 57),
    ensures
        !res,
{
    if value is Some && header_text(value->0@) is Some {
        let v = value->0@;
        let s = header_text(v)->0;
        let i = choose|i: int| 0 < i < v.len() && !(48 <= #[trigger] v[i] <= 57);
        assert(s[i] == v[i] as char);
        if s[0] == '+' {
            assert(s.skip(1)[i - 1] == s[i]);
        }
    }
}

/// What a reply is made of: the status and the words or bytes it was given, a mark
/// for plain text where it is words, and nothing about trying again.
pub proof fn lemma_reply_made(code: u16, words: &str, body: Vec<u8>, said: Reply, plain: Reply)
    requires
        call_ensures(resp_text, (code, words), said),
        call_ensures(resp, (code, body), plain),
    ensures
        said.status == code && said.plain_text && said.retry_after is None,
        said.body@ == encode_utf8(words@),
        plain.status == code && !plain.plain_text && plain.retry_after is None,
        plain.body@ == body@,
{
}

/// Reading a number goes digit by digit: one digit is its value, one more digit makes
/// ten times as much and its value, and what is over 64 bits is no number. A plus
/// sign may stand before the digits.
pub proof fn lemma_number_grows(
    s: &str,
    read: Option<u64>,
    digit: char,
    longer: &str,
    more: Option<u64>,
    signed: &str,
    same: Option<u64>,
)
    requires
        s@.len() > 0,
        forall|i: int| 0 <= i < s@.len() ==> '0' <= #[trigger] s@[i] <= '9',
        '0' <= digit <= '9',
        longer@ == s@.push(digit),
        signed@ == seq!['+'] + s@,
        call_ensures(parse_u64, (s,), read),
        call_ensures(parse_u64, (longer,), more),
        call_ensures(parse_u64, (signed,), same),
    ensures
        same == read,
        s@.len() == 1 ==> read is Some && read->0 == s@[0] as int - 48,
        more is Some <==> read is Some && 10 * read->0 + (digit as int - 48) <= u64::MAX,
        more is Some ==> more->0 == 10 * read->0 + (digit as int - 48),
{
    let d = longer@;
    assert(d.drop_last() =~= s@);
    assert(signed@.skip(1) =~= s@);
    assert(d[0] == s@[0]);
    assert(all_digits(s@));
    assert(all_digits(d)) by {
        assert forall|i: int| 0 <= i < d.len() implies '0' <= #[trigger] d[i] && d[i] <= '9' by {
            if i < s@.len() {
                assert(d[i] == s@[i]);
            }
        }
    }
    if s@.len() == 1 {
        assert(s@.drop_last() =~= Seq::empty());
        assert(digits_value(s@.drop_last()) == 0);
    }
}

/// A content length counts exactly where it is text and that text is a number, and it
/// is over the limit where that is over 16 MiB.
pub proof fn lemma_declared(
    value: &[u8],
    words: Option<String>,
    read: &str,
    number: Option<u64>,
    res: bool,
)
    requires
        call_ensures(declared_too_large, (Some(value),), res),
        call_ensures(header_str, (value,), words),
        words is Some ==> read@ == words->0@,
        call_ensures(parse_u64, (read,), number),
    ensures
        res <==> words is Some && number is Some && number->0 > 16 * 1024 * 1024,
{
}

} // verus!
