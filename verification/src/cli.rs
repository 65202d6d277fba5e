//! The command line client.

use vstd::prelude::*;
use vstd::string::*;

use crate::api::CfgPutReq;
use crate::api::Payload;
use crate::chan;
use crate::chan::cfg;
use crate::chan::cfg::ChanCliCfgExt;
use crate::chan::ChanCli;
use crate::chan::ChanError;
use crate::chan::ChanRequest;
use crate::reply::BEARER;

verus! {

/// Client subcommands.
pub enum Cmd {
    /// Authentication + health check of v-m.io server.
    Health,
    /// Dump the full config.
    CfgGet,
    /// Write an entry to the config.
    CfgPut {
        /// the config entry key
        key: String,
        /// the config entry value
        value: String,
    },
}

/// What a subcommand waits for.
#[derive(Clone, Copy, Debug, PartialEq, Eq, Structural)]
pub enum Pending {
    /// the answer to a health check
    Health,
    /// the config
    CfgGet,
    /// the answer to a pushed config value
    CfgPut,
}

/// What a subcommand prints.
pub enum Output {
    /// nothing
    Nothing,
    /// keys and values of the config
    Values(Vec<(String, String)>),
}

/// Authorization header of a client with the given api key.
pub fn auth_header(api_key: &str) -> (header: String)
    ensures
        header@ == BEARER@ + api_key@,
{
    let mut header = BEARER.to_owned();
    header.append(api_key);
    header
}

/// What a subcommand sends: name and body of its request.
pub open spec fn command_sends(cmd: Cmd) -> (Seq<char>, Seq<u8>) {
    match cmd {
        Cmd::Health => (chan::HEALTH_REQ@, Seq::empty()),
        Cmd::CfgGet => (cfg::CFG_GET_REQ@, Seq::empty()),
        Cmd::CfgPut { key, value } => (
            cfg::CFG_PUT_REQ@,
            (CfgPutReq { key, value, expires_at_micros: None }).bytes(),
        ),
    }
}

/// Start a subcommand: the request to send.
pub fn command_request(cli: &ChanCli, cmd: Cmd) -> (res: Result<(ChanRequest, Pending), ChanError>)
    ensures
        res is Ok,
        cli.sends(res->Ok_0.0, command_sends(cmd).0, command_sends(cmd).1),
        res->Ok_0.1 == match cmd {
            Cmd::Health => Pending::Health,
            Cmd::CfgGet => Pending::CfgGet,
            Cmd::CfgPut { .. } => Pending::CfgPut,
        },
{
    let (sent, pending) = match cmd {
        Cmd::Health => {
            proof {
                reveal_strlit("__health");
            }
            let none: Vec<u8> = Vec::new();
            assert(none@ =~= Seq::empty());
            (cli.request(chan::HEALTH_REQ, none), Pending::Health)
        },
        Cmd::CfgGet => (cli.cfg_get(()), Pending::CfgGet),
        Cmd::CfgPut { key, value } => (cli.cfg_put(CfgPutReq::new(key, value)), Pending::CfgPut),
    };
    match sent {
        Ok(request) => Ok((request, pending)),
        Err(err) => Err(err),
    }
}

/// End a subcommand, given what came back for its request: what it prints. A
/// config that the server failed to read is a failure of the subcommand.
pub fn command_result(pending: Pending, payload: Result<Vec<u8>, ChanError>) -> (res: Result<
    Output,
    ChanError,
>)
    ensures
        match payload {
            Err(err) => res == Err::<Output, ChanError>(err),
            Ok(bytes) => match pending {
                Pending::Health => res == Ok::<Output, ChanError>(Output::Nothing),
                Pending::CfgPut => if bytes@.len() == 0 {
                    res == Ok::<Output, ChanError>(Output::Nothing)
                } else {
                    res == Err::<Output, ChanError>(ChanError::UnexpectedPutResult)
                },
                Pending::CfgGet => match crate::api::get_res_decoded(bytes@) {
                    Err(words) => res is Err && res->Err_0 is Codec && res->Err_0->Codec_0@
                        == words,
                    Ok(Err(words)) => res is Err && res->Err_0 is Other && res->Err_0->Other_0@
                        == words,
                    Ok(Ok(pairs)) => res is Ok && res->Ok_0 is Values && crate::api::pairs_text(
                        res->Ok_0->Values_0@,
                    ) == pairs,
                },
            },
        },
{
    match pending {
        Pending::Health => match payload {
            Ok(_) => Ok(Output::Nothing),
            Err(err) => Err(err),
        },
        Pending::CfgPut => match cfg::cfg_put_result(payload) {
            Ok(()) => Ok(Output::Nothing),
            Err(err) => Err(err),
        },
        Pending::CfgGet => match cfg::cfg_get_result(payload) {
            Ok(Ok(pairs)) => Ok(Output::Values(pairs)),
            Ok(Err(words)) => Err(ChanError::Other(words)),
            Err(err) => Err(err),
        },
    }
}

/// Each subcommand asks the server for what it is named after, with no body but for
/// a write, whose body decodes to the key and the value that were given, without an
/// expiration. The api key goes along behind `Bearer `.
pub proof fn lemma_command_sent(
    addr: &str,
    api_key: &str,
    header: String,
    made: (ChanCli, ChanRequest),
    cmd: Cmd,
    res: Result<(ChanRequest, Pending), ChanError>,
    put: Result<ChanRequest, ChanError>,
)
    requires
        call_ensures(auth_header, (api_key,), header),
        call_ensures(ChanCli::connect, (addr, header), made),
        call_ensures(command_request, (&made.0, cmd), res),
        cmd is CfgPut ==> call_ensures(
            <ChanCli as ChanCliCfgExt>::cfg_put,
            (
                &made.0,
                (CfgPutReq { key: cmd->key, value: cmd->value, expires_at_micros: None }),
            ),
            put,
        ),
    ensures
        res is Ok,
        res->Ok_0.0.authorization@ == "Bearer "@ + api_key@,
        res->Ok_0.0.url@ == "http://"@ + addr@ + "/"@ + (match cmd {
            Cmd::Health => "__health"@,
            Cmd::CfgGet => "cfg-get"@,
            Cmd::CfgPut { .. } => "cfg-put"@,
        }),
        !(cmd is CfgPut) ==> res->Ok_0.0.body@.len() == 0,
        cmd is CfgPut ==> put is Ok && res->Ok_0.0.body@ == put->Ok_0.body@,
        cmd is Health <==> res->Ok_0.1 == Pending::Health,
        cmd is CfgGet <==> res->Ok_0.1 == Pending::CfgGet,
        cmd is CfgPut <==> res->Ok_0.1 == Pending::CfgPut,
{
}

/// A subcommand fails where its request failed. A read prints every pair that came
/// back and fails with the words of the server where it sent a failure, a write
/// takes nothing but an empty answer, and a health check takes any.
pub proof fn lemma_command_ends(
    pending: Pending,
    payload: Result<Vec<u8>, ChanError>,
    read: Result<crate::api::CfgGetRes, ChanError>,
    res: Result<Output, ChanError>,
)
    requires
        call_ensures(command_result, (pending, payload), res),
        call_ensures(cfg::cfg_get_result, (payload,), read),
    ensures
        payload is Err ==> res is Err && res->Err_0 == payload->Err_0,
        payload is Ok ==> match pending {
            Pending::Health => res is Ok && res->Ok_0 is Nothing,
            Pending::CfgPut => if payload->Ok_0@.len() == 0 {
                res is Ok && res->Ok_0 is Nothing
            } else {
                res is Err && res->Err_0 is UnexpectedPutResult
            },
            Pending::CfgGet => match read {
                Err(err) => res is Err && err is Codec && res->Err_0 is Codec && res->Err_0->Codec_0@
                    == err->Codec_0@,
                Ok(Err(words)) => res is Err && res->Err_0 is Other && res->Err_0->Other_0@ == words@,
                Ok(Ok(pairs)) => {
                    &&& res is Ok && res->Ok_0 is Values
                    &&& res->Ok_0->Values_0@.len() == pairs@.len()
                    &&& forall|i: int|
                        0 <= i < pairs@.len() ==> (#[trigger] res->Ok_0->Values_0@[i]).0@
                            == pairs@[i].0@ && res->Ok_0->Values_0@[i].1@ == pairs@[i].1@
                },
            },
        },
{
    if payload is Ok && pending == Pending::CfgGet && read is Ok && read->Ok_0 is Ok {
        let (a, b) = (res->Ok_0->Values_0@, read->Ok_0->Ok_0@);
        assert(crate::api::pairs_text(a).len() == a.len());
        assert(crate::api::pairs_text(b).len() == b.len());
        assert forall|i: int| 0 <= i < b.len() implies (#[trigger] a[i]).0@ == b[i].0@ && a[i].1@
            == b[i].1@ by {
            assert(crate::api::pairs_text(a)[i] == crate::api::pairs_text(b)[i]);
        }
    }
}

} // verus!
