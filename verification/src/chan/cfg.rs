//! Config-related requests.

use vstd::prelude::*;

use super::ChanCli;
use super::ChanError;
use super::ChanRequest;
use crate::api;
use crate::api::CfgGetReq;
use crate::api::CfgGetRes;
use crate::api::CfgPutReq;
use crate::api::CfgPutRes;
use crate::api::Payload;

verus! {

/// The request name of the config getter.
pub const CFG_GET_REQ: &'static str = "cfg-get";

/// The request name of the config setter.
pub const CFG_PUT_REQ: &'static str = "cfg-put";

/// Helper extension trait to include cfg requests to channel client.
pub trait ChanCliCfgExt {
    /// Is this what the client sends for the given request name and body?
    spec fn asks(&self, sent: ChanRequest, req: Seq<char>, body: Seq<u8>) -> bool;

    /// Get the current complete config.
    fn cfg_get(&self, input: CfgGetReq) -> (res: Result<ChanRequest, ChanError>)
        ensures
            res is Ok,
            self.asks(res->Ok_0, CFG_GET_REQ@, Seq::empty()),
    ;

    /// Push a new config value. The body that is sent decodes to it again.
    fn cfg_put(&self, input: CfgPutReq) -> (res: Result<ChanRequest, ChanError>)
        ensures
            res is Ok,
            self.asks(res->Ok_0, CFG_PUT_REQ@, input.bytes()),
            api::put_req_decoded(input.bytes()) is Ok,
            api::put_req_decoded(input.bytes())->Ok_0 == api::put_req_text(input),
    ;
}

impl ChanCliCfgExt for ChanCli {
    open spec fn asks(&self, sent: ChanRequest, req: Seq<char>, body: Seq<u8>) -> bool {
        self.sends(sent, req, body)
    }

    fn cfg_get(&self, input: CfgGetReq) -> (res: Result<ChanRequest, ChanError>) {
        proof {
            lemma_names_valid();
        }
        self.request(CFG_GET_REQ, Vec::new())
    }

    fn cfg_put(&self, input: CfgPutReq) -> (res: Result<ChanRequest, ChanError>) {
        proof {
            lemma_names_valid();
        }
        self.request(CFG_PUT_REQ, input.to_payload())
    }
}

/// The config requests have names that a channel can carry.
pub proof fn lemma_names_valid()
    ensures
        super::valid_req(CFG_GET_REQ@),
        super::valid_req(CFG_PUT_REQ@),
{
    reveal_strlit("cfg-get");
    reveal_strlit("cfg-put");
}

/// Take what came back for a config read: the response that the payload holds.
pub fn cfg_get_result(payload: Result<Vec<u8>, ChanError>) -> (res: Result<CfgGetRes, ChanError>)
    ensures
        match payload {
            Err(err) => res == Err::<CfgGetRes, ChanError>(err),
            Ok(bytes) => match api::get_res_decoded(bytes@) {
                Ok(t) => res is Ok && api::get_res_text(res->Ok_0) == t,
                Err(words) => res is Err && res->Err_0 is Codec && res->Err_0->Codec_0@ == words,
            },
        },
{
    match payload {
        Err(err) => Err(err),
        Ok(bytes) => {
            let decoded: Result<CfgGetRes, String> = api::decode(bytes.as_slice());
            match decoded {
                Ok(out) => Ok(out),
                Err(reason) => Err(ChanError::Codec(reason)),
            }
        },
    }
}

/// Take what came back for a pushed config value: nothing but success.
pub fn cfg_put_result(payload: Result<Vec<u8>, ChanError>) -> (res: Result<CfgPutRes, ChanError>)
    ensures
        match payload {
            Err(err) => res == Err::<CfgPutRes, ChanError>(err),
            Ok(bytes) => if bytes@.len() == 0 {
                res == Ok::<CfgPutRes, ChanError>(())
            } else {
                res == Err::<CfgPutRes, ChanError>(ChanError::UnexpectedPutResult)
            },
        },
{
    match payload {
        Err(err) => Err(err),
        Ok(bytes) => if bytes.len() == 0 {
            Ok(())
        } else {
            Err(ChanError::UnexpectedPutResult)
        },
    }
}

/// The config requests of a client go to the config handlers of the server it was
/// made for, with its authorization header. The read has no body, and the body of a
/// write decodes to what is to be written.
pub proof fn lemma_requests_sent(
    addr: &str,
    auth_header: String,
    made: (ChanCli, ChanRequest),
    got: Result<ChanRequest, ChanError>,
    put: CfgPutReq,
    sent: Result<ChanRequest, ChanError>,
    wire: &[u8],
    back: Result<CfgPutReq, String>,
)
    requires
        call_ensures(ChanCli::connect, (addr, auth_header), made),
        call_ensures(<ChanCli as ChanCliCfgExt>::cfg_get, (&made.0, ()), got),
        call_ensures(<ChanCli as ChanCliCfgExt>::cfg_put, (&made.0, put), sent),
        sent is Ok ==> wire@ == sent->Ok_0.body@,
        call_ensures(api::decode::<CfgPutReq>, (wire,), back),
    ensures
        got is Ok,
        got->Ok_0.url@ == "http://"@ + addr@ + "/"@ + "cfg-get"@,
        got->Ok_0.authorization@ == auth_header@,
        got->Ok_0.body@.len() == 0,
        sent is Ok,
        sent->Ok_0.url@ == "http://"@ + addr@ + "/"@ + "cfg-put"@,
        sent->Ok_0.authorization@ == auth_header@,
        back is Ok && back->Ok_0.key@ == put.key@ && back->Ok_0.value@ == put.value@,
        back->Ok_0.expires_at_micros == put.expires_at_micros,
{
}

/// A config read comes to what decoding the payload gives, and fails where the
/// request failed or the payload is none.
pub proof fn lemma_get_read(
    payload: Result<Vec<u8>, ChanError>,
    res: Result<CfgGetRes, ChanError>,
    slice: &[u8],
    read: Result<CfgGetRes, String>,
)
    requires
        call_ensures(cfg_get_result, (payload,), res),
        payload is Ok ==> slice@ == payload->Ok_0@,
        call_ensures(api::decode::<CfgGetRes>, (slice,), read),
    ensures
        payload is Err ==> res is Err && res->Err_0 == payload->Err_0,
        payload is Ok && read is Err ==> res is Err && res->Err_0 is Codec && res->Err_0->Codec_0@
            == read->Err_0@,
        payload is Ok && read is Ok ==> res is Ok && match (res->Ok_0, read->Ok_0) {
            (Ok(a), Ok(b)) => a@.len() == b@.len() && forall|i: int|
                0 <= i < b@.len() ==> (#[trigger] a@[i]).0@ == b@[i].0@ && a@[i].1@ == b@[i].1@,
            (Err(a), Err(b)) => a@ == b@,
            _ => false,
        },
{
    if payload is Ok && read is Ok && res->Ok_0 is Ok {
        let (a, b) = (res->Ok_0->Ok_0@, read->Ok_0->Ok_0@);
        assert(api::pairs_text(a).len() == a.len() && api::pairs_text(b).len() == b.len());
        assert forall|i: int| 0 <= i < b.len() implies (#[trigger] a[i]).0@ == b[i].0@ && a[i].1@
            == b[i].1@ by {
            assert(api::pairs_text(a)[i] == api::pairs_text(b)[i]);
        }
    }
}

} // verus!
