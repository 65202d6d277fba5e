//! API types, and the bytes they travel as.
//!
//! The encoding has no tags, so what is already in use stays in place: fields
//! may be added only at the end of a payload, and variants only at the end of an
//! enum.

use vstd::prelude::*;

verus! {

/// `cfg-get` request payload.
pub type CfgGetReq = ();

/// `cfg-get` response payload.
pub type CfgGetRes = Result<Vec<(String, String)>, String>;

/// `cfg-put` request payload.
#[derive(Debug)]
pub struct CfgPutReq {
    /// the config entry key
    pub key: String,
    /// the config entry value
    pub value: String,
    /// timestamp past which the entry expires
    pub expires_at_micros: Option<i64>,
}

/// `cfg-put` response payload.
pub type CfgPutRes = ();

/// What a `cfg-get` response says.
pub type GetResText = Result<Seq<(Seq<char>, Seq<char>)>, Seq<char>>;

/// The texts of a list of keys and values.
pub open spec fn pairs_text(pairs: Seq<(String, String)>) -> Seq<(Seq<char>, Seq<char>)> {
    pairs.map_values(|p: (String, String)| (p.0@, p.1@))
}

/// What a `cfg-get` response says.
pub open spec fn get_res_text(res: CfgGetRes) -> GetResText {
    match res {
        Ok(pairs) => Ok(pairs_text(pairs@)),
        Err(words) => Err(words@),
    }
}

/// The bytes of a `cfg-get` response.
pub uninterp spec fn get_res_bytes(res: GetResText) -> Seq<u8>;

/// The `cfg-get` response that bytes start with, or why there is none.
pub uninterp spec fn get_res_decoded(bytes: Seq<u8>) -> Result<GetResText, Seq<char>>;

/// Calls `bincode_next::serde::encode_to_vec` with the standard configuration:
/// the bytes are a function of the response, and writing them to memory cannot
/// fail. They say themselves where they end, so they decode to the response again
/// whatever follows them, and decode to nothing where any of them are missing.
#[verifier::external_body]
fn bincode_get_res(res: &CfgGetRes) -> (bytes: Vec<u8>)
    ensures
        bytes@ == get_res_bytes(get_res_text(*res)),
        get_res_decoded(bytes@) is Ok && get_res_decoded(bytes@)->Ok_0 == get_res_text(*res),
        forall|tail: Seq<u8>| #[trigger]
            get_res_decoded(bytes@ + tail) == get_res_decoded(bytes@),
        forall|cut: int|
            0 <= cut < bytes@.len() ==> #[trigger] get_res_decoded(bytes@.take(cut)) is Err,
{
    bincode_next::serde::encode_to_vec(res, bincode_next::config::standard()).unwrap()
}

/// Calls `bincode_next::serde::borrow_decode_from_slice` with the standard
/// configuration: the response, or the failure in words, is a function of the
/// bytes. Bytes behind the response are ignored.
#[verifier::external_body]
fn unbincode_get_res(bytes: &[u8]) -> (res: Result<CfgGetRes, String>)
    ensures
        match get_res_decoded(bytes@) {
            Ok(t) => res is Ok && get_res_text(res->Ok_0) == t,
            Err(words) => res is Err && res->Err_0@ == words,
        },
{
    let config = bincode_next::config::standard();
    match bincode_next::serde::borrow_decode_from_slice::<Result<Vec<(&str, &str)>, &str>, _>(
        bytes,
        config,
    ) {
        Ok((Ok(pairs), _)) => Ok(
            Ok(pairs.into_iter().map(|(k, v)| (k.to_string(), v.to_string())).collect()),
        ),
        Ok((Err(words), _)) => Ok(Err(words.to_string())),
        Err(err) => Err(err.to_string()),
    }
}

/// The key and value that bytes start with and how many bytes they take, or why
/// there are none.
pub uninterp spec fn pair_decoded(bytes: Seq<u8>) -> Result<
    (Seq<char>, Seq<char>, nat),
    Seq<char>,
>;

/// The bytes of a key, a value and an optional timestamp.
pub uninterp spec fn triple_bytes(key: Seq<char>, value: Seq<char>, micros: Option<i64>) -> Seq<u8>;

/// The key, value and optional timestamp that bytes start with, or why there are
/// none.
pub uninterp spec fn triple_decoded(bytes: Seq<u8>) -> Result<
    (Seq<char>, Seq<char>, Option<i64>),
    Seq<char>,
>;

/// Calls `bincode_next::serde::borrow_decode_from_slice` for a pair, with the
/// standard configuration: the pair and the count of bytes it takes, or the
/// failure in words, are a function of the bytes.
#[verifier::external_body]
fn unbincode_pair(bytes: &[u8]) -> (res: Result<(String, String, usize), String>)
    ensures
        match pair_decoded(bytes@) {
            Ok(t) => res is Ok && res->Ok_0.0@ == t.0 && res->Ok_0.1@ == t.1 && res->Ok_0.2 == t.2,
            Err(words) => res is Err && res->Err_0@ == words,
        },
{
    let config = bincode_next::config::standard();
    bincode_next::serde::borrow_decode_from_slice::<(&str, &str), _>(bytes, config)
        .map(|((k, v), read)| (k.to_string(), v.to_string(), read))
        .map_err(|err| err.to_string())
}

/// Calls `bincode_next::serde::encode_to_vec` on a triple, with the standard
/// configuration: the bytes are a function of the triple, and writing them to
/// memory cannot fail. They say themselves where they end, so they decode to the
/// triple again whatever follows them, and decode to no triple where any of them
/// are missing. The elements are written one after another and the timestamp
/// takes at least one byte, so read as a pair they give the first two elements
/// and leave bytes over, and that as long as those two are whole.
#[verifier::external_body]
fn bincode_triple(key: &str, value: &str, micros: Option<i64>) -> (bytes: Vec<u8>)
    ensures
        bytes@ == triple_bytes(key@, value@, micros),
        triple_decoded(bytes@) is Ok && triple_decoded(bytes@)->Ok_0 == (key@, value@, micros),
        forall|tail: Seq<u8>| #[trigger] triple_decoded(bytes@ + tail) == triple_decoded(bytes@),
        forall|cut: int|
            0 <= cut < bytes@.len() ==> #[trigger] triple_decoded(bytes@.take(cut)) is Err,
        pair_decoded(bytes@) is Ok && pair_decoded(bytes@)->Ok_0.0 == key@,
        pair_decoded(bytes@)->Ok_0.1 == value@ && pair_decoded(bytes@)->Ok_0.2 < bytes@.len(),
        forall|tail: Seq<u8>| #[trigger] pair_decoded(bytes@ + tail) == pair_decoded(bytes@),
        forall|cut: int|
            0 <= cut < pair_decoded(bytes@)->Ok_0.2 ==> #[trigger] pair_decoded(
                bytes@.take(cut),
            ) is Err,
        forall|cut: int|
            pair_decoded(bytes@)->Ok_0.2 <= cut < bytes@.len() ==> #[trigger] pair_decoded(
                bytes@.take(cut),
            ) == pair_decoded(bytes@),
{
    bincode_next::serde::encode_to_vec((key, value, micros), bincode_next::config::standard())
        .unwrap()
}

/// Calls `bincode_next::serde::borrow_decode_from_slice` for a triple, with the
/// standard configuration: the triple, or the failure in words, is a function of
/// the bytes. Bytes behind the triple are ignored.
#[verifier::external_body]
fn unbincode_triple(bytes: &[u8]) -> (res: Result<(String, String, Option<i64>), String>)
    ensures
        match triple_decoded(bytes@) {
            Ok(t) => res is Ok && res->Ok_0.0@ == t.0 && res->Ok_0.1@ == t.1 && res->Ok_0.2 == t.2,
            Err(words) => res is Err && res->Err_0@ == words,
        },
{
    let config = bincode_next::config::standard();
    bincode_next::serde::borrow_decode_from_slice::<(&str, &str, Option<i64>), _>(bytes, config)
        .map(|((k, v, micros), _)| (k.to_string(), v.to_string(), micros))
        .map_err(|err| err.to_string())
}

/// A value that travels as bytes.
pub trait Payload: Sized {
    /// The bytes of the value.
    spec fn bytes(&self) -> Seq<u8>;

    /// Is this what decoding the bytes gives?
    spec fn decodes(bytes: Seq<u8>, res: Result<Self, String>) -> bool;

    /// Do the two say the same?
    spec fn same(&self, other: &Self) -> bool;

    /// Are the first `cut` of the bytes, and no more of them, a payload too?
    spec fn stands_alone(&self, cut: int) -> bool;

    /// Encode to bytes. They decode to the value again, whatever follows them, and
    /// where some are missing they are refused, unless what is left stands alone.
    fn to_payload(&self) -> (out: Vec<u8>)
        ensures
            out@ == self.bytes(),
            forall|res: Result<Self, String>| #[trigger]
                Self::decodes(out@, res) ==> res is Ok && self.same(&res->Ok_0),
            forall|tail: Seq<u8>, res: Result<Self, String>| #[trigger]
                Self::decodes(out@ + tail, res) ==> res is Ok && self.same(&res->Ok_0),
            forall|cut: int, res: Result<Self, String>|
                0 <= cut < out@.len() && !self.stands_alone(cut) && #[trigger] Self::decodes(
                    out@.take(cut),
                    res,
                ) ==> res is Err,
    ;

    /// Decode from bytes.
    fn of_payload(slice: &[u8]) -> (res: Result<Self, String>)
        ensures
            Self::decodes(slice@, res),
    ;
}

impl Payload for CfgGetRes {
    open spec fn bytes(&self) -> Seq<u8> {
        get_res_bytes(get_res_text(*self))
    }

    open spec fn decodes(bytes: Seq<u8>, res: Result<Self, String>) -> bool {
        match get_res_decoded(bytes) {
            Ok(t) => res is Ok && get_res_text(res->Ok_0) == t,
            Err(words) => res is Err && res->Err_0@ == words,
        }
    }

    open spec fn same(&self, other: &Self) -> bool {
        get_res_text(*self) == get_res_text(*other)
    }

    open spec fn stands_alone(&self, cut: int) -> bool {
        false
    }

    fn to_payload(&self) -> (out: Vec<u8>)
        ensures
            get_res_decoded(out@) is Ok,
            get_res_decoded(out@)->Ok_0 == get_res_text(*self),
    {
        bincode_get_res(self)
    }

    fn of_payload(slice: &[u8]) -> (res: Result<Self, String>) {
        unbincode_get_res(slice)
    }
}

impl CfgPutReq {
    /// A request for a config value that does not expire.
    pub fn new(key: String, value: String) -> (req: Self)
        ensures
            req == (CfgPutReq { key, value, expires_at_micros: None }),
    {
        CfgPutReq { key, value, expires_at_micros: None }
    }
}

impl From<(String, String)> for CfgPutReq {
    fn from(pair: (String, String)) -> (req: Self) {
        CfgPutReq::new(pair.0, pair.1)
    }
}

impl vstd::std_specs::convert::FromSpecImpl<(String, String)> for CfgPutReq {
    open spec fn obeys_from_spec() -> bool {
        true
    }

    open spec fn from_spec(pair: (String, String)) -> Self {
        CfgPutReq { key: pair.0, value: pair.1, expires_at_micros: None }
    }
}

/// What a `cfg-put` request says.
pub open spec fn put_req_text(req: CfgPutReq) -> (Seq<char>, Seq<char>, Option<i64>) {
    (req.key@, req.value@, req.expires_at_micros)
}

/// What decoding a `cfg-put` request gives, from what its bytes are read as: a
/// key and a value that take all of them are a request from before expirations
/// came behind them, which does not expire, and any more bytes must hold what
/// came to stand there.
pub open spec fn put_req_of(
    pair: Result<(Seq<char>, Seq<char>, nat), Seq<char>>,
    len: nat,
    triple: Result<(Seq<char>, Seq<char>, Option<i64>), Seq<char>>,
) -> Result<(Seq<char>, Seq<char>, Option<i64>), Seq<char>> {
    match pair {
        Err(words) => Err(words),
        Ok((key, value, read)) => if read == len {
            Ok((key, value, None))
        } else {
            triple
        },
    }
}

/// What decoding a `cfg-put` request gives.
pub open spec fn put_req_decoded(bytes: Seq<u8>) -> Result<
    (Seq<char>, Seq<char>, Option<i64>),
    Seq<char>,
> {
    put_req_of(pair_decoded(bytes), bytes.len(), triple_decoded(bytes))
}

/// The texts of what bytes were read as a pair.
pub open spec fn pair_text(pair: Result<(String, String, usize), String>) -> Result<
    (Seq<char>, Seq<char>, nat),
    Seq<char>,
> {
    match pair {
        Ok((key, value, read)) => Ok((key@, value@, read as nat)),
        Err(words) => Err(words@),
    }
}

/// The texts of what bytes were read as a triple.
pub open spec fn triple_text(triple: Result<(String, String, Option<i64>), String>) -> Result<
    (Seq<char>, Seq<char>, Option<i64>),
    Seq<char>,
> {
    match triple {
        Ok((key, value, micros)) => Ok((key@, value@, micros)),
        Err(words) => Err(words@),
    }
}

/// Make a `cfg-put` request of what `len` bytes were read as.
pub fn put_req_from(
    pair: Result<(String, String, usize), String>,
    len: usize,
    triple: Result<(String, String, Option<i64>), String>,
) -> (res: Result<CfgPutReq, String>)
    ensures
        match put_req_of(pair_text(pair), len as nat, triple_text(triple)) {
            Ok(t) => res is Ok && put_req_text(res->Ok_0) == t,
            Err(words) => res is Err && res->Err_0@ == words,
        },
{
    match pair {
        Err(words) => Err(words),
        Ok((key, value, read)) => {
            if read == len {
                return Ok(CfgPutReq { key, value, expires_at_micros: None });
            }
            match triple {
                Err(words) => Err(words),
                Ok((key, value, expires_at_micros)) => Ok(
                    CfgPutReq { key, value, expires_at_micros },
                ),
            }
        },
    }
}

impl Payload for CfgPutReq {
    /// A request is a key, a value and an optional expiration, none of which is
    /// left out.
    open spec fn bytes(&self) -> Seq<u8> {
        triple_bytes(self.key@, self.value@, self.expires_at_micros)
    }

    open spec fn decodes(bytes: Seq<u8>, res: Result<Self, String>) -> bool {
        match put_req_decoded(bytes) {
            Ok(t) => res is Ok && put_req_text(res->Ok_0) == t,
            Err(words) => res is Err && res->Err_0@ == words,
        }
    }

    open spec fn same(&self, other: &Self) -> bool {
        put_req_text(*self) == put_req_text(*other)
    }

    /// A key and a value alone are a request that does not expire.
    open spec fn stands_alone(&self, cut: int) -> bool {
        cut == pair_decoded(self.bytes())->Ok_0.2
    }

    fn to_payload(&self) -> (out: Vec<u8>)
        ensures
            put_req_decoded(out@) is Ok,
            put_req_decoded(out@)->Ok_0 == put_req_text(*self),
            forall|cut: int|
                0 <= cut < out@.len() && self.stands_alone(cut) ==> {
                    let left = #[trigger] put_req_decoded(out@.take(cut));
                    left is Ok && left->Ok_0 == (self.key@, self.value@, None::<i64>)
                },
    {
        bincode_triple(self.key.as_str(), self.value.as_str(), self.expires_at_micros)
    }

    fn of_payload(slice: &[u8]) -> (res: Result<Self, String>) {
        put_req_from(unbincode_pair(slice), slice.len(), unbincode_triple(slice))
    }
}

/// Encode to bytes. They decode to what was encoded, whatever follows them, and
/// where some are missing they are refused, unless what is left stands alone.
pub fn encode<E: Payload>(e: &E) -> (res: Result<Vec<u8>, String>)
    ensures
        res is Ok,
        res->Ok_0@ == e.bytes(),
        forall|back: Result<E, String>| #[trigger]
            E::decodes(res->Ok_0@, back) ==> back is Ok && e.same(&back->Ok_0),
        forall|tail: Seq<u8>, back: Result<E, String>| #[trigger]
            E::decodes(res->Ok_0@ + tail, back) ==> back is Ok && e.same(&back->Ok_0),
        forall|cut: int, back: Result<E, String>|
            0 <= cut < res->Ok_0@.len() && !e.stands_alone(cut) && #[trigger] E::decodes(
                res->Ok_0@.take(cut),
                back,
            ) ==> back is Err,
{
    Ok(e.to_payload())
}

/// Decode from bytes.
pub fn decode<D: Payload>(slice: &[u8]) -> (res: Result<D, String>)
    ensures
        D::decodes(slice@, res),
{
    D::of_payload(slice)
}

/// A `cfg-put` request that was encoded decodes to its key, its value and its
/// expiration, whatever bytes follow it.
pub proof fn lemma_put_travels(
    put: &CfgPutReq,
    sent: Result<Vec<u8>, String>,
    tail: Seq<u8>,
    slice: &[u8],
    back: Result<CfgPutReq, String>,
)
    requires
        call_ensures(encode::<CfgPutReq>, (put,), sent),
        sent is Ok ==> slice@ == sent->Ok_0@ + tail,
        call_ensures(decode::<CfgPutReq>, (slice,), back),
    ensures
        sent is Ok,
        back is Ok,
        back->Ok_0.key@ == put.key@,
        back->Ok_0.value@ == put.value@,
        back->Ok_0.expires_at_micros == put.expires_at_micros,
{
    assert(CfgPutReq::decodes(sent->Ok_0@ + tail, back));
}

/// Of a `cfg-put` request that lost bytes at its end nothing else is read: it is
/// refused, or, where just the key and the value are left, they are read as they
/// were given.
pub proof fn lemma_put_cut(
    put: &CfgPutReq,
    sent: Vec<u8>,
    cut: int,
    slice: &[u8],
    back: Result<CfgPutReq, String>,
)
    requires
        call_ensures(<CfgPutReq as Payload>::to_payload, (put,), sent),
        0 <= cut < sent@.len(),
        slice@ == sent@.take(cut),
        call_ensures(decode::<CfgPutReq>, (slice,), back),
    ensures
        back is Ok ==> {
            &&& back->Ok_0.key@ == put.key@
            &&& back->Ok_0.value@ == put.value@
            &&& back->Ok_0.expires_at_micros is None
        },
{
    assert(CfgPutReq::decodes(sent@.take(cut), back));
    if back is Ok {
        assert(put.stands_alone(cut));
        assert(put_req_decoded(sent@.take(cut)) is Ok);
    }
}

/// A request is made of what its bytes were read as: of a key and a value that take
/// all of them, which then do not expire, and otherwise of all three parts. Where
/// reading failed the request fails with the words of that.
pub proof fn lemma_put_made(
    pair: Result<(String, String, usize), String>,
    len: usize,
    triple: Result<(String, String, Option<i64>), String>,
    res: Result<CfgPutReq, String>,
)
    requires
        call_ensures(put_req_from, (pair, len, triple), res),
    ensures
        pair is Err ==> res is Err && res->Err_0@ == pair->Err_0@,
        pair is Ok && pair->Ok_0.2 == len ==> {
            &&& res is Ok && res->Ok_0.key@ == pair->Ok_0.0@ && res->Ok_0.value@ == pair->Ok_0.1@
            &&& res->Ok_0.expires_at_micros is None
        },
        pair is Ok && pair->Ok_0.2 != len && triple is Ok ==> {
            &&& res is Ok && res->Ok_0.key@ == triple->Ok_0.0@
            &&& res->Ok_0.value@ == triple->Ok_0.1@
            &&& res->Ok_0.expires_at_micros == triple->Ok_0.2
        },
        pair is Ok && pair->Ok_0.2 != len && triple is Err ==> res is Err && res->Err_0@
            == triple->Err_0@,
{
}

/// A `cfg-get` response that was encoded decodes to the same failure, or to as many
/// pairs with the same keys and values, whatever bytes follow it. Where it lost
/// bytes at its end it is refused.
pub proof fn lemma_get_travels(
    res: &CfgGetRes,
    sent: Result<Vec<u8>, String>,
    tail: Seq<u8>,
    slice: &[u8],
    back: Result<CfgGetRes, String>,
    cut: int,
    short: &[u8],
    none: Result<CfgGetRes, String>,
)
    requires
        call_ensures(encode::<CfgGetRes>, (res,), sent),
        sent is Ok ==> {
            &&& slice@ == sent->Ok_0@ + tail
            &&& 0 <= cut < sent->Ok_0@.len()
            &&& short@ == sent->Ok_0@.take(cut)
        },
        call_ensures(decode::<CfgGetRes>, (slice,), back),
        call_ensures(decode::<CfgGetRes>, (short,), none),
    ensures
        sent is Ok,
        none is Err,
        back is Ok,
        match *res {
            Err(words) => back->Ok_0 is Err && back->Ok_0->Err_0@ == words@,
            Ok(pairs) => {
                &&& back->Ok_0 is Ok
                &&& back->Ok_0->Ok_0@.len() == pairs@.len()
                &&& forall|i: int|
                    0 <= i < pairs@.len() ==> (#[trigger] back->Ok_0->Ok_0@[i]).0@ == pairs@[i].0@
                        && back->Ok_0->Ok_0@[i].1@ == pairs@[i].1@
            },
        },
{
    assert(CfgGetRes::decodes(sent->Ok_0@ + tail, back));
    assert(CfgGetRes::decodes(sent->Ok_0@.take(cut), none));
    if *res is Ok {
        let (a, b) = ((*res)->Ok_0@, back->Ok_0->Ok_0@);
        assert(pairs_text(a).len() == a.len() && pairs_text(b).len() == b.len());
        assert forall|i: int| 0 <= i < a.len() implies (#[trigger] b[i]).0@ == a[i].0@ && b[i].1@
            == a[i].1@ by {
            assert(pairs_text(a)[i] == pairs_text(b)[i]);
        }
    }
}

} // verus!
