//! Initial config values, given as a json object of texts.

use std::collections::BTreeMap;

use vstd::prelude::*;
use vstd::string::*;
use vstd::utf8::*;

use super::CfgError;
use super::CfgErrorView;
use crate::api;
use crate::text;

verus! {

/// Order of byte strings: the first byte that differs decides, and of two that
/// agree as far as they go the shorter comes first.
pub open spec fn bytes_before(a: Seq<u8>, b: Seq<u8>) -> bool
    decreases a.len(),
{
    if b.len() == 0 {
        false
    } else if a.len() == 0 {
        true
    } else if a[0] != b[0] {
        a[0] < b[0]
    } else {
        bytes_before(a.drop_first(), b.drop_first())
    }
}

/// Order of texts: that of their bytes.
pub open spec fn text_before(a: Seq<char>, b: Seq<char>) -> bool {
    bytes_before(encode_utf8(a), encode_utf8(b))
}

/// Are the keys in ascending order, none of them twice?
pub open spec fn keys_ascend(pairs: Seq<(Seq<char>, Seq<char>)>) -> bool {
    forall|i: int, j: int| 0 <= i < j < pairs.len() ==> text_before(pairs[i].0, pairs[j].0)
}

/// The keys and values of a json object of texts, by ascending key, or why a
/// text is none.
pub uninterp spec fn json_decoded(s: Seq<char>) -> Result<
    Seq<(Seq<char>, Seq<char>)>,
    Seq<char>,
>;

/// The json object with the given keys and values.
pub uninterp spec fn json_of(pairs: Seq<(Seq<char>, Seq<char>)>) -> Seq<char>;

/// Calls `serde_json::from_str` for a `BTreeMap` of texts: its entries, or the
/// failure in words, are a function of the text. A `BTreeMap` holds each key once
/// and is walked by ascending key, and texts are ordered by their bytes.
#[verifier::external_body]
fn json_decode(s: &str) -> (res: Result<Vec<(String, String)>, String>)
    ensures
        match json_decoded(s@) {
            Ok(pairs) => res is Ok && api::pairs_text(res->Ok_0@) == pairs,
            Err(words) => res is Err && res->Err_0@ == words,
        },
        res is Ok ==> keys_ascend(api::pairs_text(res->Ok_0@)),
{
    serde_json::from_str::<BTreeMap<String, String>>(s)
        .map(|map| map.into_iter().collect())
        .map_err(|err| err.to_string())
}

/// Calls `serde_json::to_string` on a `BTreeMap` of texts: the json object is a
/// function of its entries, writing it to memory cannot fail, and it decodes to
/// the entries again.
#[verifier::external_body]
fn json_encode(pairs: Vec<(String, String)>) -> (out: String)
    requires
        keys_ascend(api::pairs_text(pairs@)),
    ensures
        out@ == json_of(api::pairs_text(pairs@)),
        json_decoded(out@) is Ok && json_decoded(out@)->Ok_0 == api::pairs_text(pairs@),
{
    serde_json::to_string(&pairs.into_iter().collect::<BTreeMap<String, String>>()).unwrap()
}

/// Earlier, same or later in the order of texts.
#[derive(Clone, Copy, PartialEq, Eq, Structural)]
enum Place {
    Before,
    Same,
    After,
}

proof fn lemma_before_irreflexive(a: Seq<u8>)
    ensures
        !bytes_before(a, a),
    decreases a.len(),
{
    if a.len() > 0 {
        lemma_before_irreflexive(a.drop_first());
    }
}

proof fn lemma_before_transitive(a: Seq<u8>, b: Seq<u8>, c: Seq<u8>)
    requires
        bytes_before(a, b),
        bytes_before(b, c),
    ensures
        bytes_before(a, c),
    decreases a.len(),
{
    if a.len() > 0 && b.len() > 0 && c.len() > 0 && a[0] == b[0] && b[0] == c[0] {
        lemma_before_transitive(a.drop_first(), b.drop_first(), c.drop_first());
    }
}

proof fn lemma_before_total(a: Seq<u8>, b: Seq<u8>)
    ensures
        a == b || bytes_before(a, b) || bytes_before(b, a),
    decreases a.len(),
{
    if a.len() > 0 && b.len() > 0 && a[0] == b[0] {
        lemma_before_total(a.drop_first(), b.drop_first());
        if a.drop_first() == b.drop_first() {
            assert(a =~= seq![a[0]] + a.drop_first());
            assert(b =~= seq![b[0]] + b.drop_first());
        }
    } else if a.len() == 0 && b.len() == 0 {
        assert(a =~= b);
    }
}

proof fn lemma_before_skip(a: Seq<u8>, b: Seq<u8>, n: int)
    requires
        0 <= n <= a.len(),
        n <= b.len(),
        a.take(n) == b.take(n),
    ensures
        bytes_before(a, b) == bytes_before(a.skip(n), b.skip(n)),
    decreases n,
{
    if n > 0 {
        assert(a[0] == a.take(n)[0] && b[0] == b.take(n)[0]);
        let (x, y) = (a.drop_first(), b.drop_first());
        assert(x.take(n - 1) =~= a.take(n).drop_first());
        assert(y.take(n - 1) =~= b.take(n).drop_first());
        lemma_before_skip(x, y, n - 1);
        assert(x.skip(n - 1) =~= a.skip(n));
        assert(y.skip(n - 1) =~= b.skip(n));
    } else {
        assert(a.skip(0) =~= a);
        assert(b.skip(0) =~= b);
    }
}

/// Where `a` stands relative to `b` in the order of texts.
fn place(a: &str, b: &str) -> (res: Place)
    ensures
        res == Place::Before <==> text_before(a@, b@),
        res == Place::Same <==> a@ == b@,
        res == Place::After <==> text_before(b@, a@),
{
    let (x, y) = (a.as_bytes(), b.as_bytes());
    proof {
        lemma_before_irreflexive(x@);
        text::lemma_utf8_injective(a@, b@);
        if bytes_before(x@, y@) && bytes_before(y@, x@) {
            lemma_before_transitive(x@, y@, x@);
        }
        lemma_before_total(x@, y@);
    }
    let mut i: usize = 0;
    while i < x.len() && i < y.len() && x[i] == y[i]
        invariant
            i <= x@.len(),
            i <= y@.len(),
            x@.take(i as int) == y@.take(i as int),
        decreases x.len() - i,
    {
        assert(x@.take(i + 1) =~= x@.take(i as int).push(x@[i as int]));
        assert(y@.take(i + 1) =~= y@.take(i as int).push(y@[i as int]));
        i = i + 1;
    }
    proof {
        lemma_before_skip(x@, y@, i as int);
        lemma_before_skip(y@, x@, i as int);
    }
    if i == x.len() && i == y.len() {
        assert(x@ =~= x@.take(i as int));
        assert(y@ =~= y@.take(i as int));
        Place::Same
    } else if i == x.len() {
        Place::Before
    } else if i == y.len() {
        Place::After
    } else if x[i] < y[i] {
        Place::Before
    } else {
        Place::After
    }
}

/// The entries with one more, in its place by key, that replaces an entry of the
/// same key.
pub open spec fn with_entry(
    pairs: Seq<(Seq<char>, Seq<char>)>,
    key: Seq<char>,
    value: Seq<char>,
) -> Seq<(Seq<char>, Seq<char>)>
    decreases pairs.len(),
{
    if pairs.len() == 0 || text_before(pairs.last().0, key) {
        pairs.push((key, value))
    } else if pairs.last().0 == key {
        pairs.drop_last().push((key, value))
    } else {
        with_entry(pairs.drop_last(), key, value).push(pairs.last())
    }
}

/// Setting an entry keeps the keys in order, gives the key its value, and leaves
/// all other entries as they are.
pub proof fn lemma_with_entry(pairs: Seq<(Seq<char>, Seq<char>)>, key: Seq<char>, value: Seq<char>)
    requires
        keys_ascend(pairs),
    ensures
        keys_ascend(with_entry(pairs, key, value)),
        with_entry(pairs, key, value).contains((key, value)),
        forall|p: (Seq<char>, Seq<char>)|
            p.0 != key ==> (#[trigger] with_entry(pairs, key, value).contains(p) <==> pairs.contains(
                p,
            )),
    decreases pairs.len(),
{
    let out = with_entry(pairs, key, value);
    if pairs.len() == 0 || text_before(pairs.last().0, key) {
        assert(out == pairs.push((key, value)));
        assert forall|i: int| 0 <= i < pairs.len() implies text_before(
            (#[trigger] pairs[i]).0,
            key,
        ) by {
            if i < pairs.len() - 1 {
                assert(text_before(pairs[i].0, pairs[pairs.len() - 1].0));
                lemma_before_transitive(
                    encode_utf8(pairs[i].0),
                    encode_utf8(pairs.last().0),
                    encode_utf8(key),
                );
            }
        }
        assert(out[pairs.len() as int] == (key, value));
        assert forall|p: (Seq<char>, Seq<char>)| p.0 != key implies (#[trigger] out.contains(p)
            <==> pairs.contains(p)) by {
            if pairs.contains(p) {
                let i = choose|i: int| 0 <= i < pairs.len() && pairs[i] == p;
                assert(out[i] == p);
            }
        }
    } else {
        let rest = pairs.drop_last();
        let last = pairs.last();
        assert(pairs =~= rest.push(last));
        if last.0 == key {
            assert(out == rest.push((key, value)));
            assert(out[rest.len() as int] == (key, value));
            assert forall|p: (Seq<char>, Seq<char>)| p.0 != key implies (#[trigger] out.contains(p)
                <==> pairs.contains(p)) by {
                if pairs.contains(p) {
                    let i = choose|i: int| 0 <= i < pairs.len() && pairs[i] == p;
                    assert(out[i] == p);
                }
                if out.contains(p) {
                    let i = choose|i: int| 0 <= i < out.len() && out[i] == p;
                    assert(pairs[i] == p);
                }
            }
        } else {
            lemma_with_entry(rest, key, value);
            let inner = with_entry(rest, key, value);
            assert(out == inner.push(last));
            lemma_before_total(encode_utf8(last.0), encode_utf8(key));
            text::lemma_utf8_injective(last.0, key);
            assert(text_before(key, last.0));
            assert forall|i: int| 0 <= i < inner.len() implies text_before(
                (#[trigger] inner[i]).0,
                last.0,
            ) by {
                let p = inner[i];
                assert(inner.contains(p));
                if p.0 != key {
                    assert(rest.contains(p));
                    let j = choose|j: int| 0 <= j < rest.len() && rest[j] == p;
                    assert(pairs[j] == p);
                }
            }
            let k = choose|k: int| 0 <= k < inner.len() && inner[k] == (key, value);
            assert(out[k] == (key, value));
            assert forall|p: (Seq<char>, Seq<char>)| p.0 != key implies (#[trigger] out.contains(p)
                <==> pairs.contains(p)) by {
                assert(inner.contains(p) <==> rest.contains(p));
                if pairs.contains(p) {
                    let i = choose|i: int| 0 <= i < pairs.len() && pairs[i] == p;
                    if i < rest.len() {
                        assert(rest[i] == p);
                        let j = choose|j: int| 0 <= j < inner.len() && inner[j] == p;
                        assert(out[j] == p);
                    } else {
                        assert(out[inner.len() as int] == p);
                    }
                }
                if out.contains(p) {
                    let i = choose|i: int| 0 <= i < out.len() && out[i] == p;
                    if i < inner.len() {
                        assert(inner[i] == p);
                        let j = choose|j: int| 0 <= j < rest.len() && rest[j] == p;
                        assert(pairs[j] == p);
                    } else {
                        assert(pairs[rest.len() as int] == p);
                    }
                }
            }
        }
    }
}

/// Set an entry, in its place by key.
pub fn set_entry(pairs: Vec<(String, String)>, key: String, value: String) -> (out: Vec<
    (String, String),
>)
    ensures
        api::pairs_text(out@) == with_entry(api::pairs_text(pairs@), key@, value@),
{
    let ghost texts = api::pairs_text(pairs@);
    let mut n: usize = pairs.len();
    assert(texts.take(n as int) =~= texts);
    assert(with_entry(texts, key@, value@) =~= with_entry(texts.take(n as int), key@, value@)
        + texts.skip(n as int));
    while n > 0 && place(pairs[n - 1].0.as_str(), key.as_str()) == Place::After
        invariant
            n <= pairs@.len(),
            texts == api::pairs_text(pairs@),
            with_entry(texts, key@, value@) == with_entry(texts.take(n as int), key@, value@)
                + texts.skip(n as int),
        decreases n,
    {
        proof {
            let front = texts.take(n as int);
            let last = front.last();
            assert(last == texts[n - 1]);
            assert(last.0 == pairs@[n - 1].0@);
            lemma_before_irreflexive(encode_utf8(key@));
            if text_before(last.0, key@) {
                lemma_before_transitive(
                    encode_utf8(key@),
                    encode_utf8(last.0),
                    encode_utf8(key@),
                );
            }
            assert(front.drop_last() =~= texts.take(n - 1));
            assert(texts.skip(n - 1) =~= seq![last] + texts.skip(n as int));
            assert(with_entry(front, key@, value@) + texts.skip(n as int) =~= with_entry(
                texts.take(n - 1),
                key@,
                value@,
            ) + texts.skip(n - 1));
        }
        n = n - 1;
    }
    let ghost front = texts.take(n as int);
    let same: bool = n > 0 && place(pairs[n - 1].0.as_str(), key.as_str()) == Place::Same;
    let mut out = pairs;
    if same {
        out.set(n - 1, (key, value));
        proof {
            lemma_before_irreflexive(encode_utf8(key@));
            assert(front.last() == texts[n - 1]);
            assert(api::pairs_text(out@) =~= front.drop_last().push((key@, value@)) + texts.skip(
                n as int,
            ));
        }
    } else {
        out.insert(n, (key, value));
        proof {
            if n > 0 {
                assert(front.last() == texts[n - 1]);
                assert(front.last().0 == texts[n - 1].0);
                lemma_before_total(encode_utf8(front.last().0), encode_utf8(key@));
                text::lemma_utf8_injective(front.last().0, key@);
            }
            assert(api::pairs_text(out@) =~= front.push((key@, value@)) + texts.skip(n as int));
        }
    }
    out
}

/// The initial values that a json text gives, or why it gives none.
pub open spec fn init_parsed(s: Seq<char>) -> Result<Seq<(Seq<char>, Seq<char>)>, CfgErrorView> {
    match json_decoded(s) {
        Ok(pairs) => Ok(pairs),
        Err(words) => Err(CfgErrorView::InvalidInit(words)),
    }
}

/// Parse initial values.
pub fn parse_init(s: &str) -> (res: Result<Vec<(String, String)>, CfgError>)
    ensures
        match init_parsed(s@) {
            Ok(pairs) => res is Ok && api::pairs_text(res->Ok_0@) == pairs,
            Err(err) => res is Err && res->Err_0@ == err,
        },
        res is Ok ==> keys_ascend(api::pairs_text(res->Ok_0@)),
        res is Err ==> res->Err_0@.invalid_input(),
{
    match json_decode(s) {
        Ok(pairs) => Ok(pairs),
        Err(reason) => Err(CfgError::InvalidInit(reason)),
    }
}

/// Write initial values as a json text, which parses back into them.
pub fn write_init(pairs: Vec<(String, String)>) -> (out: String)
    requires
        keys_ascend(api::pairs_text(pairs@)),
    ensures
        out@ == json_of(api::pairs_text(pairs@)),
        init_parsed(out@) is Ok && init_parsed(out@)->Ok_0 == api::pairs_text(pairs@),
{
    json_encode(pairs)
}

/// A pair is in a list where its texts are among the texts of the list.
pub proof fn lemma_pair_in(pairs: Seq<(String, String)>, key: Seq<char>, value: Seq<char>)
    ensures
        super::pair_in(pairs, key, value) <==> api::pairs_text(pairs).contains((key, value)),
{
    let texts = api::pairs_text(pairs);
    if super::pair_in(pairs, key, value) {
        let i = choose|i: int|
            0 <= i < pairs.len() && (#[trigger] pairs[i]).0@ == key && pairs[i].1@ == value;
        assert(texts[i] == (key, value));
    }
    if texts.contains((key, value)) {
        let i = choose|i: int| 0 <= i < texts.len() && texts[i] == (key, value);
        assert(pairs[i].0@ == key && pairs[i].1@ == value);
    }
}

/// Where keys ascend, none has two values.
pub proof fn lemma_ascend_once(
    pairs: Seq<(Seq<char>, Seq<char>)>,
    key: Seq<char>,
    a: Seq<char>,
    b: Seq<char>,
)
    requires
        keys_ascend(pairs),
        pairs.contains((key, b)),
    ensures
        pairs.contains((key, a)) <==> a == b,
{
    let j = choose|j: int| 0 <= j < pairs.len() && pairs[j] == (key, b);
    if pairs.contains((key, a)) {
        let i = choose|i: int| 0 <= i < pairs.len() && pairs[i] == (key, a);
        lemma_before_irreflexive(encode_utf8(key));
        if i < j {
            assert(text_before(pairs[i].0, pairs[j].0));
        } else if j < i {
            assert(text_before(pairs[j].0, pairs[i].0));
        }
    }
}

/// Setting an entry changes that entry and no other: its key has the value, and no
/// other value, and every other pair is there as before.
pub proof fn lemma_entry_set(
    pairs: Vec<(String, String)>,
    key: String,
    value: String,
    out: Vec<(String, String)>,
    k: Seq<char>,
    v: Seq<char>,
)
    requires
        keys_ascend(api::pairs_text(pairs@)),
        call_ensures(set_entry, (pairs, key, value), out),
    ensures
        keys_ascend(api::pairs_text(out@)),
        super::pair_in(out@, k, v) <==> if k == key@ {
            v == value@
        } else {
            super::pair_in(pairs@, k, v)
        },
{
    lemma_with_entry(api::pairs_text(pairs@), key@, value@);
    lemma_pair_in(out@, k, v);
    lemma_pair_in(pairs@, k, v);
    if k == key@ {
        lemma_ascend_once(api::pairs_text(out@), k, v, value@);
    }
}

/// Initial values that were written parse back into themselves, pair by pair.
pub proof fn lemma_written_parses(
    pairs: Vec<(String, String)>,
    out: String,
    words: &str,
    res: Result<Vec<(String, String)>, CfgError>,
)
    requires
        keys_ascend(api::pairs_text(pairs@)),
        call_ensures(write_init, (pairs,), out),
        words@ == out@,
        call_ensures(parse_init, (words,), res),
    ensures
        res is Ok,
        res->Ok_0@.len() == pairs@.len(),
        forall|i: int| 0 <= i < pairs@.len() ==> (#[trigger] res->Ok_0@[i]).0@ == pairs@[i].0@,
        forall|i: int| 0 <= i < pairs@.len() ==> (#[trigger] res->Ok_0@[i]).1@ == pairs@[i].1@,
{
    let (a, b) = (api::pairs_text(res->Ok_0@), api::pairs_text(pairs@));
    assert(a.len() == res->Ok_0@.len() && b.len() == pairs@.len());
    assert forall|i: int| 0 <= i < pairs@.len() implies (#[trigger] res->Ok_0@[i]).0@
        == pairs@[i].0@ && res->Ok_0@[i].1@ == pairs@[i].1@ by {
        assert(a[i] == b[i]);
    }
}

/// The order of keys is that of their bytes: at the first byte that differs the
/// smaller one comes first, and a key comes before every longer one that it starts.
pub proof fn lemma_key_order(a: Seq<char>, b: Seq<char>, n: int)
    requires
        0 <= n <= encode_utf8(a).len(),
        n < encode_utf8(b).len(),
        encode_utf8(a).take(n) == encode_utf8(b).take(n),
        n < encode_utf8(a).len() ==> encode_utf8(a)[n] < encode_utf8(b)[n],
    ensures
        text_before(a, b),
        !text_before(b, a),
{
    let (x, y) = (encode_utf8(a), encode_utf8(b));
    lemma_before_skip(x, y, n);
    lemma_before_skip(y, x, n);
    if n < x.len() {
        assert(x.skip(n)[0] == x[n]);
    }
    assert(y.skip(n)[0] == y[n]);
}

} // verus!
