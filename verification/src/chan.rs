//! Channels: named requests over HTTP, each answered by one handler.

use vstd::prelude::*;
use vstd::string::*;
use vstd::utf8::*;

use crate::reply;
use crate::reply::BodyRead;
use crate::reply::Reply;
use crate::text;

pub mod cfg;

verus! {

/// Implicit health-check request name.
pub const HEALTH_REQ: &'static str = "__health";

/// Maximum number of simultaneous connections.
pub const MAX_CONNS: usize = 2048;

/// How many milliseconds an incoming connection will wait for a concurrency
/// permit.
pub const CONN_WAIT_MILLIS: u64 = 17;

/// Seconds after which a refused connection may be tried again.
pub const RETRY_AFTER_SECS: u64 = 60;

/// Failures of a channel.
pub enum ChanError {
    /// Two handlers have the same request name.
    DuplicateHandler(String),
    /// A request name is empty or holds a slash.
    InvalidReq,
    /// The health check was sent a body.
    HealthBody,
    /// The server answered with another status than success.
    RequestFailed {
        /// status code of the answer
        status: u16,
        /// body of the answer
        body: String,
    },
    /// The answer to a pushed config value was not empty.
    UnexpectedPutResult,
    /// A payload could not be encoded or decoded, for the given reason.
    Codec(String),
    /// A handler, or what it works on, failed for the given reason.
    Other(String),
}

impl ChanError {
    /// What `message` gives for the error.
    pub open spec fn text(&self) -> Seq<char> {
        match self {
            ChanError::DuplicateHandler(name) => "duplicate handler req: "@ + name@,
            ChanError::InvalidReq => "req must be a single non-empty path segment"@,
            ChanError::HealthBody => "health check does not accept a body"@,
            ChanError::RequestFailed { status, body } => "request failed: "@ + text::dec_nat(
                *status as nat,
            ) + " "@ + body@,
            ChanError::UnexpectedPutResult => "unexpected cfg_put result"@,
            ChanError::Codec(reason) => reason@,
            ChanError::Other(reason) => reason@,
        }
    }

    /// Is the fault in what was given to the channel?
    pub open spec fn invalid_input(&self) -> bool {
        self is DuplicateHandler || self is InvalidReq || self is HealthBody
    }

    /// Is the fault in what was given to the channel, rather than in what it works
    /// with?
    pub fn is_invalid_input(&self) -> (res: bool)
        ensures
            res == self.invalid_input(),
    {
        match self {
            ChanError::DuplicateHandler(_) => true,
            ChanError::InvalidReq => true,
            ChanError::HealthBody => true,
            _ => false,
        }
    }

    /// The error in words.
    pub fn message(&self) -> (out: String)
        ensures
            out@ == self.text(),
    {
        match self {
            ChanError::DuplicateHandler(name) => {
                let mut out = "duplicate handler req: ".to_owned();
                out.append(name.as_str());
                out
            },
            ChanError::InvalidReq => "req must be a single non-empty path segment".to_owned(),
            ChanError::HealthBody => "health check does not accept a body".to_owned(),
            ChanError::RequestFailed { status, body } => {
                let mut out = "request failed: ".to_owned();
                text::push_dec(&mut out, *status as u64);
                out.append(" ");
                out.append(body.as_str());
                out
            },
            ChanError::UnexpectedPutResult => "unexpected cfg_put result".to_owned(),
            ChanError::Codec(reason) => reason.clone(),
            ChanError::Other(reason) => reason.clone(),
        }
    }
}

/// Describes a v-m.io channel handler.
pub trait ChanHandler {
    /// The request name this handler handles.
    fn req(&self) -> &'static str;

    /// Handle an incoming request.
    fn handle(&self, req: Vec<u8>) -> Result<Vec<u8>, ChanError>;
}

/// Implicit handler used for connection health checks.
///
/// It succeeds with an empty body when the request body is empty, and errors
/// otherwise.
pub struct HealthHandler;

impl ChanHandler for HealthHandler {
    fn req(&self) -> (name: &'static str)
        ensures
            name@ == HEALTH_REQ@,
    {
        HEALTH_REQ
    }

    fn handle(&self, req: Vec<u8>) -> (res: Result<Vec<u8>, ChanError>)
        ensures
            req@.len() == 0 ==> res is Ok && res->Ok_0@.len() == 0,
            req@.len() > 0 ==> res == Err::<Vec<u8>, ChanError>(ChanError::HealthBody),
    {
        if req.len() == 0 {
            Ok(Vec::new())
        } else {
            Err(ChanError::HealthBody)
        }
    }
}

/// The texts of a list of names.
pub open spec fn names_text(names: Seq<String>) -> Seq<Seq<char>> {
    names.map_values(|s: String| s@)
}

/// Is the name at `i` the same as one before it?
pub open spec fn repeats_at(names: Seq<Seq<char>>, i: int) -> bool {
    exists|j: int| 0 <= j < i && #[trigger] names[j] == names[i]
}

/// Is the name at `i` the first that is the same as one before it?
pub open spec fn first_repeat(names: Seq<Seq<char>>, i: int) -> bool {
    &&& 0 <= i < names.len()
    &&& repeats_at(names, i)
    &&& forall|k: int| 0 <= k < i ==> !repeats_at(names, k)
}

/// Is no name the same as another?
pub open spec fn all_distinct(names: Seq<Seq<char>>) -> bool {
    forall|i: int, j: int| 0 <= i < j < names.len() ==> names[i] != names[j]
}

/// Names of all handlers of a server: the health check, then the configured
/// ones.
pub open spec fn with_health(names: Seq<Seq<char>>) -> Seq<Seq<char>> {
    seq![HEALTH_REQ@] + names
}

/// The request names that a server knows, each with the number of its handler.
/// The health check is number zero.
pub struct HandlerTable {
    names: Vec<String>,
}

impl HandlerTable {
    /// The known names, in the order of the handlers' numbers.
    pub closed spec fn view(&self) -> Seq<Seq<char>> {
        names_text(self.names@)
    }

    /// No two handlers have the same name, and the health check is among them.
    pub open spec fn inv(&self) -> bool {
        &&& self@.len() > 0
        &&& self@[0] == HEALTH_REQ@
        &&& all_distinct(self@)
    }

    /// A table of the health check and the given handlers. Fails on the first
    /// name that was there before.
    pub fn new(names: Vec<String>) -> (res: Result<Self, ChanError>)
        ensures
            res is Ok <==> all_distinct(with_health(names_text(names@))),
            match res {
                Ok(table) => table.inv() && table@ == with_health(names_text(names@)),
                Err(err) => err is DuplicateHandler && exists|i: int| #[trigger]
                    first_repeat(with_health(names_text(names@)), i)
                        && err->DuplicateHandler_0@ == with_health(names_text(names@))[i],
            },
    {
        let ghost all = with_health(names_text(names@));
        let mut known: Vec<String> = Vec::new();
        known.push(HEALTH_REQ.to_owned());
        assert(names_text(known@) =~= all.take(1));
        for i in 0..names.len()
            invariant
                all == with_health(names_text(names@)),
                known@.len() == i + 1,
                names_text(known@) == all.take(i + 1),
                forall|k: int| 0 <= k <= i ==> !repeats_at(all, k),
        {
            let name = names[i].clone();
            assert(all[i + 1] == name@);
            for j in 0..known.len()
                invariant
                    i < names@.len(),
                    all == with_health(names_text(names@)),
                    all[i + 1] == name@,
                    known@.len() == i + 1,
                    names_text(known@) == all.take(i + 1),
                    forall|k: int| 0 <= k <= i ==> !repeats_at(all, k),
                    forall|k: int| 0 <= k < j ==> all[k] != name@,
            {
                assert(names_text(known@)[j as int] == known@[j as int]@);
                assert(all.take(i + 1)[j as int] == all[j as int]);
                if text::same_text(known[j].as_str(), name.as_str()) {
                    assert(all[j as int] == all[i + 1]);
                    assert(first_repeat(all, i + 1));
                    return Err(ChanError::DuplicateHandler(name));
                }
            }
            known.push(name);
            assert(names_text(known@) =~= all.take(i + 2));
        }
        assert(all.take(all.len() as int) =~= all);
        assert forall|i: int, j: int| 0 <= i < j < all.len() implies all[i] != all[j] by {
            assert(!repeats_at(all, j));
        }
        Ok(HandlerTable { names: known })
    }

    /// Number of the handler of the given name.
    pub fn find(&self, name: &str) -> (res: Option<usize>)
        ensures
            match res {
                Some(i) => i < self@.len() && self@[i as int] == name@,
                None => !self@.contains(name@),
            },
    {
        for i in 0..self.names.len()
            invariant
                forall|j: int| 0 <= j < i ==> self@[j] != name@,
        {
            assert(self@[i as int] == self.names@[i as int]@);
            if text::same_text(self.names[i].as_str(), name) {
                return Some(i);
            }
        }
        assert(self@.len() == self.names@.len());
        None
    }
}

/// What a server looks at in the head of a request.
pub struct RequestHead {
    /// value of the authorization header
    pub authorization: Option<Vec<u8>>,
    /// path of the requested address
    pub path: String,
    /// value of the content length header
    pub content_length: Option<Vec<u8>>,
}

/// What handling a request does next.
pub enum ReqStep {
    /// Ask the authorization callback about this header value.
    Authorize(String),
    /// Read the body for the handler with this number.
    ReadBody(usize),
    /// Hand the body to the handler with this number.
    Handle(usize, Vec<u8>),
    /// Reply.
    Answer(Reply),
}

/// What becomes of a request after authorization.
pub enum Routed {
    /// the handler of this name gets its body
    To(Seq<char>),
    /// it is answered right away
    Answered(reply::ReplyView),
}

impl ReqStep {
    /// Is this the step that the given outcome of routing calls for, with handlers
    /// of the given names?
    pub open spec fn follows(&self, names: Seq<Seq<char>>, routed: Routed) -> bool {
        match routed {
            Routed::To(name) => {
                &&& self is ReadBody
                &&& self->ReadBody_0 < names.len()
                &&& names[self->ReadBody_0 as int] == name
            },
            Routed::Answered(r) => self is Answer && self->Answer_0@ == r,
        }
    }
}

/// The bytes of an optional header value.
pub open spec fn opt_bytes(value: Option<Vec<u8>>) -> Option<Seq<u8>> {
    match value {
        Some(v) => Some(v@),
        None => None,
    }
}

/// First step: a header value that is text goes to the authorization callback,
/// in full, and a missing one or one that is no text is refused up front.
pub open spec fn first_step(authorization: Option<Seq<u8>>) -> Result<Seq<char>, reply::ReplyView> {
    if authorization is Some && reply::header_text(authorization->0) is Some {
        Ok(reply::header_text(authorization->0)->0)
    } else {
        Err(reply::text_reply(reply::UNAUTHORIZED, "missing or invalid authorization"@))
    }
}

/// Start handling a request.
pub fn begin(head: &RequestHead) -> (step: ReqStep)
    ensures
        match first_step(opt_bytes(head.authorization)) {
            Ok(value) => step is Authorize && step->Authorize_0@ == value,
            Err(refusal) => step is Answer && step->Answer_0@ == refusal,
        },
{
    match &head.authorization {
        Some(value) => match reply::header_str(value.as_slice()) {
            Some(words) => ReqStep::Authorize(words),
            None => ReqStep::Answer(
                reply::resp_text(reply::UNAUTHORIZED, "missing or invalid authorization"),
            ),
        },
        None => ReqStep::Answer(
            reply::resp_text(reply::UNAUTHORIZED, "missing or invalid authorization"),
        ),
    }
}

/// Name that a path routes to: exactly one non-empty path segment selects the
/// handler.
pub open spec fn routed(path: Seq<char>) -> Option<Seq<char>> {
    let name = text::without_prefix(path, seq!['/']);
    if name.len() == 0 || name.contains('/') {
        None
    } else {
        Some(name)
    }
}

/// Select the name of the handler for a path.
pub fn route(path: &str) -> (name: Option<String>)
    ensures
        match routed(path@) {
            Some(n) => name is Some && name->0@ == n,
            None => name is None,
        },
{
    let chars = text::chars_of(path);
    let slash: [char; 1] = ['/'];
    assert(slash@ =~= seq!['/']);
    let from: usize = if text::has_prefix(chars.as_slice(), slash.as_slice()) { 1 } else { 0 };
    let ghost name = text::without_prefix(path@, seq!['/']);
    assert(path@.skip(0) =~= path@);
    assert(name == path@.skip(from as int));
    let mut out = String::new();
    for i in from..chars.len()
        invariant
            from <= chars@.len(),
            chars@ == path@,
            name == text::without_prefix(path@, seq!['/']),
            name == path@.skip(from as int),
            out@ == name.take(i - from),
            !out@.contains('/'),
    {
        if chars[i] == '/' {
            assert(name[i - from] == '/');
            return None;
        }
        let ghost before = out@;
        out.push(chars[i]);
        assert(name.take(i - from + 1) =~= before.push(chars@[i as int]));
        assert forall|j: int| 0 <= j < out@.len() implies out@[j] != '/' by {
            if j < before.len() {
                assert(out@[j] == before[j]);
                assert(before.contains(before[j]));
            }
        }
    }
    assert(name.take(name.len() as int) =~= name);
    if from == chars.len() {
        None
    } else {
        Some(out)
    }
}

/// Reason phrase of a status code, for those that have one.
pub uninterp spec fn reason_of(status: u16) -> Option<Seq<char>>;

/// Calls `StatusCode::canonical_reason` of the `http` crate, which `hyper` hands
/// on: a phrase for each registered code, and none for any other number.
#[verifier::external_body]
fn canonical_reason(status: u16) -> (reason: Option<&'static str>)
    ensures
        match reason_of(status) {
            Some(words) => reason is Some && reason->0@ == words,
            None => reason is None,
        },
{
    hyper::StatusCode::from_u16(status).ok().and_then(|code| code.canonical_reason())
}

/// Second step: what the authorization callback said, given the reason phrase of
/// the status code that it returned.
///
/// The status `OK` lets the request pass to its handler. Any other status is
/// returned with its reason phrase for the body, and a failure with its words.
pub open spec fn second_step(
    names: Seq<Seq<char>>,
    path: Seq<char>,
    content_length: Option<Seq<u8>>,
    outcome: Result<u16, Seq<char>>,
    reason: Option<Seq<char>>,
) -> Routed {
    match outcome {
        Err(words) => Routed::Answered(reply::text_reply(reply::INTERNAL_SERVER_ERROR, words)),
        Ok(status) => if status != reply::OK {
            Routed::Answered(
                reply::text_reply(
                    status,
                    match reason {
                        Some(words) => words,
                        None => Seq::empty(),
                    },
                ),
            )
        } else {
            match routed(path) {
                Some(name) if names.contains(name) => if reply::declares_too_much(content_length) {
                    Routed::Answered(
                        reply::text_reply(
                            reply::PAYLOAD_TOO_LARGE,
                            "payload exceeds maximum size limit"@,
                        ),
                    )
                } else {
                    Routed::To(name)
                },
                _ => Routed::Answered(reply::text_reply(reply::NOT_FOUND, "not found"@)),
            }
        },
    }
}

/// What an authorization callback said, with its failure in words.
pub open spec fn outcome_text(outcome: Result<u16, String>) -> Result<u16, Seq<char>> {
    match outcome {
        Ok(status) => Ok(status),
        Err(words) => Err(words@),
    }
}

/// The text of an optional reason phrase.
pub open spec fn reason_text(reason: Option<&str>) -> Option<Seq<char>> {
    match reason {
        Some(words) => Some(words@),
        None => None,
    }
}

/// Go on after the authorization callback, given the reason phrase of the status
/// code that it returned.
pub fn authorized_with(
    table: &HandlerTable,
    head: &RequestHead,
    outcome: Result<u16, String>,
    reason: Option<&str>,
) -> (step: ReqStep)
    ensures
        step.follows(
            table@,
            second_step(
                table@,
                head.path@,
                opt_bytes(head.content_length),
                outcome_text(outcome),
                reason_text(reason),
            ),
        ),
{
    match outcome {
        Err(words) => ReqStep::Answer(
            reply::resp_text(reply::INTERNAL_SERVER_ERROR, words.as_str()),
        ),
        Ok(status) => {
            if status != reply::OK {
                let words: &str = match reason {
                    Some(words) => words,
                    None => "",
                };
                proof {
                    reveal_strlit("");
                    assert(reason is None ==> words@ =~= Seq::<char>::empty());
                }
                return ReqStep::Answer(reply::resp_text(status, words));
            }
            let found: Option<usize> = match route(head.path.as_str()) {
                Some(name) => table.find(name.as_str()),
                None => None,
            };
            match found {
                None => ReqStep::Answer(reply::resp_text(reply::NOT_FOUND, "not found")),
                Some(i) => {
                    let declared: Option<&[u8]> = match &head.content_length {
                        Some(value) => Some(value.as_slice()),
                        None => None,
                    };
                    if reply::declared_too_large(declared) {
                        ReqStep::Answer(
                            reply::resp_text(
                                reply::PAYLOAD_TOO_LARGE,
                                "payload exceeds maximum size limit",
                            ),
                        )
                    } else {
                        ReqStep::ReadBody(i)
                    }
                },
            }
        },
    }
}

/// Go on after the authorization callback.
pub fn authorized(table: &HandlerTable, head: &RequestHead, outcome: Result<u16, String>) -> (step:
    ReqStep)
    ensures
        step.follows(
            table@,
            second_step(
                table@,
                head.path@,
                opt_bytes(head.content_length),
                outcome_text(outcome),
                match outcome {
                    Ok(status) => reason_of(status),
                    Err(_) => None,
                },
            ),
        ),
{
    let reason: Option<&str> = match &outcome {
        Ok(status) => canonical_reason(*status),
        Err(_) => None,
    };
    authorized_with(table, head, outcome, reason)
}

/// Go on after the body was read for the handler with the given number.
pub fn body_read(handler: usize, body: BodyRead) -> (step: ReqStep)
    ensures
        match body {
            BodyRead::Whole(bytes) => step == ReqStep::Handle(handler, bytes),
            BodyRead::TooLarge => step is Answer && step->Answer_0@ == reply::text_reply(
                reply::PAYLOAD_TOO_LARGE,
                "payload exceeds maximum size limit"@,
            ),
            BodyRead::Failed => step is Answer && step->Answer_0@ == reply::text_reply(
                reply::BAD_REQUEST,
                "failed to read stream or malformed payload"@,
            ),
        },
{
    match body {
        BodyRead::Whole(bytes) => ReqStep::Handle(handler, bytes),
        BodyRead::TooLarge => ReqStep::Answer(
            reply::resp_text(reply::PAYLOAD_TOO_LARGE, "payload exceeds maximum size limit"),
        ),
        BodyRead::Failed => ReqStep::Answer(
            reply::resp_text(reply::BAD_REQUEST, "failed to read stream or malformed payload"),
        ),
    }
}

/// Reply to what a handler returned: its bytes, or its failure in words.
pub open spec fn last_reply(outcome: Result<Seq<u8>, Seq<char>>) -> reply::ReplyView {
    match outcome {
        Ok(out) => reply::plain_reply(reply::OK, out),
        Err(words) => reply::text_reply(reply::INTERNAL_SERVER_ERROR, words),
    }
}

/// What a handler returned, with its failure in words.
pub open spec fn handled_text(outcome: Result<Vec<u8>, ChanError>) -> Result<Seq<u8>, Seq<char>> {
    match outcome {
        Ok(out) => Ok(out@),
        Err(err) => Err(err.text()),
    }
}

/// Reply to what a handler returned.
pub fn handled(outcome: Result<Vec<u8>, ChanError>) -> (r: Reply)
    ensures
        r@ == last_reply(handled_text(outcome)),
{
    match outcome {
        Ok(out) => reply::resp(reply::OK, out),
        Err(err) => reply::resp_text(reply::INTERNAL_SERVER_ERROR, err.message().as_str()),
    }
}

/// Hand a body to a handler and reply to what it returns.
pub fn dispatch<H: ChanHandler>(handler: &H, body: Vec<u8>) -> (r: Reply)
    ensures
        exists|outcome: Result<Vec<u8>, ChanError>| #[trigger]
            call_ensures(H::handle, (handler, body), outcome) && r@ == last_reply(
                handled_text(outcome),
            ),
{
    let outcome = handler.handle(body);
    handled(outcome)
}

/// Reply to a connection that got no permit in time.
pub fn busy_reply() -> (r: Reply)
    ensures
        r@ == (reply::ReplyView {
            status: reply::SERVICE_UNAVAILABLE,
            plain_text: true,
            retry_after: Some(RETRY_AFTER_SECS),
            body: encode_utf8("Service Unavailable"@),
        }),
{
    let mut r = reply::resp_text(reply::SERVICE_UNAVAILABLE, "Service Unavailable");
    r.retry_after = Some(RETRY_AFTER_SECS);
    r
}

/// What came of a connection's wait for a concurrency permit.
#[derive(Clone, Copy, Debug, PartialEq, Eq, Structural)]
pub enum Permit {
    /// A permit was granted in time.
    Granted,
    /// None was granted in time.
    TimedOut,
    /// No more permits are granted.
    Closed,
}

/// What becomes of a connection.
pub enum ConnStep {
    /// Its requests are handled.
    Serve,
    /// All of its requests get this reply.
    Refuse(Reply),
    /// It is dropped.
    Drop,
}

/// Decide what becomes of a connection after its wait for a permit.
pub fn let_in(permit: Permit) -> (step: ConnStep)
    ensures
        match permit {
            Permit::Granted => step is Serve,
            Permit::TimedOut => step is Refuse && step->Refuse_0@ == (reply::ReplyView {
                status: reply::SERVICE_UNAVAILABLE,
                plain_text: true,
                retry_after: Some(RETRY_AFTER_SECS),
                body: encode_utf8("Service Unavailable"@),
            }),
            Permit::Closed => step is Drop,
        },
{
    match permit {
        Permit::Granted => ConnStep::Serve,
        Permit::TimedOut => ConnStep::Refuse(busy_reply()),
        Permit::Closed => ConnStep::Drop,
    }
}

/// A handler is reached only by a request that was authorized, and only where
/// its path names that handler and no body over the limit was declared. Every
/// such request reaches it.
pub proof fn lemma_only_authorized_reach(
    names: Seq<Seq<char>>,
    path: Seq<char>,
    content_length: Option<Seq<u8>>,
    outcome: Result<u16, Seq<char>>,
    reason: Option<Seq<char>>,
    name: Seq<char>,
)
    ensures
        second_step(names, path, content_length, outcome, reason) == Routed::To(name) <==> {
            &&& outcome == Ok::<u16, Seq<char>>(reply::OK)
            &&& routed(path) == Some(name)
            &&& names.contains(name)
            &&& !reply::declares_too_much(content_length)
        },
{
}

/// A request that is not authorized is answered at once: the answer carries the
/// status that the callback returned, or that of its failure.
pub proof fn lemma_refusal_status(
    names: Seq<Seq<char>>,
    path: Seq<char>,
    content_length: Option<Seq<u8>>,
    outcome: Result<u16, Seq<char>>,
    reason: Option<Seq<char>>,
)
    requires
        outcome != Ok::<u16, Seq<char>>(reply::OK),
    ensures
        second_step(names, path, content_length, outcome, reason) is Answered,
        second_step(names, path, content_length, outcome, reason)->Answered_0.status
            == match outcome {
            Ok(status) => status,
            Err(_) => reply::INTERNAL_SERVER_ERROR,
        },
{
}

/// Can this be the name of a request: a single non-empty path segment?
pub open spec fn valid_req(req: Seq<char>) -> bool {
    req.len() > 0 && !req.contains('/')
}

/// A request as it is sent to a server.
pub struct ChanRequest {
    /// address of the request
    pub url: String,
    /// value of the authorization header
    pub authorization: String,
    /// body
    pub body: Vec<u8>,
}

/// v-m.io channel client
pub struct ChanCli {
    base: String,
    auth_header: String,
}

impl ChanCli {
    /// Address that all requests start with.
    pub closed spec fn base(&self) -> Seq<char> {
        self.base@
    }

    /// Value of the authorization header of all requests.
    pub closed spec fn auth_header(&self) -> Seq<char> {
        self.auth_header@
    }

    /// Address a remote chan server. The first request to be made of it is the
    /// implicit health check, to verify that the remote is reachable.
    pub fn connect(addr: &str, auth_header: String) -> (res: (Self, ChanRequest))
        ensures
            res.0.base() == "http://"@ + addr@,
            res.0.auth_header() == auth_header@,
            res.0.sends(res.1, HEALTH_REQ@, Seq::empty()),
    {
        let mut base = "http://".to_owned();
        base.append(addr);
        let cli = ChanCli { base, auth_header };
        let health = cli.build(HEALTH_REQ, Vec::new());
        (cli, health)
    }

    /// Is this what the client sends for the given request name and body?
    pub open spec fn sends(&self, sent: ChanRequest, req: Seq<char>, body: Seq<u8>) -> bool {
        &&& sent.url@ == self.base() + "/"@ + req
        &&& sent.authorization@ == self.auth_header()
        &&& sent.body@ == body
    }

    fn build(&self, req: &str, body: Vec<u8>) -> (sent: ChanRequest)
        ensures
            self.sends(sent, req@, body@),
    {
        let mut url = self.base.clone();
        url.append("/");
        url.append(req);
        ChanRequest { url, authorization: self.auth_header.clone(), body }
    }

    /// Make a request of the connected channel server.
    pub fn request(&self, req: &str, body: Vec<u8>) -> (res: Result<ChanRequest, ChanError>)
        ensures
            if valid_req(req@) {
                res is Ok && self.sends(res->Ok_0, req@, body@)
            } else {
                res == Err::<ChanRequest, ChanError>(ChanError::InvalidReq)
            },
    {
        if req.is_empty() || text::has_char(req, '/') {
            return Err(ChanError::InvalidReq);
        }
        Ok(self.build(req, body))
    }

    /// Take the answer to a request: its body where the status is one of
    /// success, and otherwise a failure that quotes it.
    pub fn response(status: u16, body: Vec<u8>) -> (res: Result<Vec<u8>, ChanError>)
        ensures
            if reply::success(status) {
                res == Ok::<Vec<u8>, ChanError>(body)
            } else {
                &&& res is Err
                &&& res->Err_0 is RequestFailed
                &&& res->Err_0->status == status
                &&& res->Err_0->body@ == text::lossy_text_of(body@)
                &&& valid_utf8(body@) ==> res->Err_0->body@ == decode_utf8(body@)
            },
    {
        if 200 <= status && status < 300 {
            Ok(body)
        } else {
            Err(ChanError::RequestFailed { status, body: text::lossy_text(body.as_slice()) })
        }
    }
}

/// Client and server agree on names: what a client accepts as the name of a
/// request is what the server routes its path to, and what it rejects the server
/// routes nowhere.
pub proof fn lemma_names_route(req: Seq<char>)
    ensures
        valid_req(req) ==> routed("/"@ + req) == Some(req),
        !valid_req(req) ==> routed("/"@ + req) is None,
{
    reveal_strlit("/");
    let path = "/"@ + req;
    assert("/"@ =~= seq!['/']);
    assert(path.take(1) =~= seq!['/']);
    assert(path.skip(1) =~= req);
}

/// A request under a name that the server knows reaches the handler of that name
/// once it is authorized, unless it declares a body over the limit.
pub proof fn lemma_request_reaches(
    names: Seq<Seq<char>>,
    req: Seq<char>,
    content_length: Option<Seq<u8>>,
    reason: Option<Seq<char>>,
)
    requires
        valid_req(req),
        names.contains(req),
        !reply::declares_too_much(content_length),
    ensures
        second_step(names, "/"@ + req, content_length, Ok(reply::OK), reason)
            == Routed::To(req),
{
    lemma_names_route(req);
}

/// What a handler returns reaches the client: its bytes as they are, and its
/// failure as one that quotes its words.
pub proof fn lemma_reply_taken(outcome: Result<Seq<u8>, Seq<char>>)
    ensures
        match outcome {
            Ok(out) => reply::success(last_reply(outcome).status) && last_reply(outcome).body
                == out,
            Err(words) => {
                &&& !reply::success(last_reply(outcome).status)
                &&& valid_utf8(last_reply(outcome).body)
                &&& decode_utf8(last_reply(outcome).body) == words
            },
        },
{
    if outcome is Err {
        encode_utf8_valid_utf8(outcome->Err_0);
        encode_utf8_decode_utf8(outcome->Err_0);
    }
}

/// The client takes an answer as a success exactly where its status is from 200 to
/// 299, and then it hands on the body as it came. Any other answer fails, with its
/// status and with its body for the words.
pub proof fn lemma_answer_taken(status: u16, body: Vec<u8>, res: Result<Vec<u8>, ChanError>)
    requires
        call_ensures(ChanCli::response, (status, body), res),
    ensures
        res is Ok <==> 200 <= status <= 299,
        res is Ok ==> res->Ok_0 == body,
        res is Err ==> res->Err_0 is RequestFailed && res->Err_0->status == status,
        res is Err && valid_utf8(body@) ==> encode_utf8(res->Err_0->body@) == body@,
{
    if valid_utf8(body@) {
        decode_utf8_encode_utf8(body@);
    }
}

/// Whatever a server answers that no handler returned, the client takes as a
/// failure: a request without a header to authorize it, one that was refused or
/// could not be authorized, one for a name that there is not, and one whose body is
/// over the limit or could not be read.
///
/// Where the authorization callback itself refuses with a status from 201 to 299,
/// that is a success to the client.
pub proof fn lemma_refusal_fails(
    table: &HandlerTable,
    head: &RequestHead,
    outcome: Result<u16, String>,
    handler: usize,
    body: BodyRead,
    step: ReqStep,
    res: Result<Vec<u8>, ChanError>,
)
    requires
        step is Answer,
        call_ensures(begin, (head,), step) || (call_ensures(
            authorized,
            (table, head, outcome),
            step,
        ) && !(outcome is Ok && 201 <= outcome->Ok_0 <= 299)) || call_ensures(
            body_read,
            (handler, body),
            step,
        ),
        call_ensures(ChanCli::response, (step->Answer_0.status, step->Answer_0.body), res),
    ensures
        res is Err,
        res->Err_0 is RequestFailed,
        res->Err_0->status == step->Answer_0.status,
{
}

/// A connection that gets no permit in time is answered with 503, and to try again
/// after a minute, which the client takes as a failure. One that gets a permit is
/// served.
pub proof fn lemma_busy_fails(permit: Permit, step: ConnStep, res: Result<Vec<u8>, ChanError>)
    requires
        call_ensures(let_in, (permit,), step),
        step is Refuse ==> call_ensures(
            ChanCli::response,
            (step->Refuse_0.status, step->Refuse_0.body),
            res,
        ),
    ensures
        step is Serve <==> permit == Permit::Granted,
        step is Refuse <==> permit == Permit::TimedOut,
        step is Refuse ==> {
            &&& step->Refuse_0.status == 503
            &&& step->Refuse_0.retry_after == Some(60u64)
            &&& step->Refuse_0.plain_text
            &&& step->Refuse_0.body@ == encode_utf8("Service Unavailable"@)
            &&& res is Err && res->Err_0 is RequestFailed && res->Err_0->status == 503
        },
{
}

/// What a handler returns reaches the client: bytes as they are, and a failure as
/// one with status 500 that quotes the words of it.
pub proof fn lemma_returned_reaches(
    outcome: Result<Vec<u8>, ChanError>,
    words: String,
    r: Reply,
    res: Result<Vec<u8>, ChanError>,
)
    requires
        call_ensures(handled, (outcome,), r),
        outcome is Err ==> call_ensures(ChanError::message, (&outcome->Err_0,), words),
        call_ensures(ChanCli::response, (r.status, r.body), res),
    ensures
        r.retry_after is None,
        match outcome {
            Ok(out) => {
                &&& r.status == 200 && !r.plain_text
                &&& res is Ok && res->Ok_0@ == out@
            },
            Err(_) => {
                &&& r.status == 500 && r.plain_text
                &&& res is Err && res->Err_0 is RequestFailed
                &&& res->Err_0->status == 500 && res->Err_0->body@ == words@
            },
        },
{
    if outcome is Err {
        encode_utf8_valid_utf8(words@);
        encode_utf8_decode_utf8(words@);
    }
}

/// A request is put to the authorization callback exactly where it has a header
/// value that is made of visible ASCII characters, spaces and tabs, and then in
/// full. Otherwise it is refused with 401.
pub proof fn lemma_header_decides(head: &RequestHead, step: ReqStep)
    requires
        call_ensures(begin, (head,), step),
    ensures
        step is Authorize <==> head.authorization is Some && forall|i: int|
            0 <= i < head.authorization->0@.len() ==> (32
                <= #[trigger] head.authorization->0@[i] <= 126 || head.authorization->0@[i] == 9),
        step is Authorize ==> {
            &&& step->Authorize_0@.len() == head.authorization->0@.len()
            &&& forall|i: int|
                0 <= i < step->Authorize_0@.len() ==> (#[trigger] step->Authorize_0@[i]) as int
                    == head.authorization->0@[i]
        },
        !(step is Authorize) ==> {
            &&& step is Answer && step->Answer_0.status == 401 && step->Answer_0.plain_text
            &&& step->Answer_0.body@ == encode_utf8("missing or invalid authorization"@)
        },
{
    if head.authorization is Some {
        let v = head.authorization->0@;
        if forall|i: int| 0 <= i < v.len() ==> (32 <= #[trigger] v[i] <= 126 || v[i] == 9) {
            assert forall|i: int| 0 <= i < v.len() implies reply::visible(#[trigger] v[i]) by {}
        }
        if reply::header_text(v) is Some {
            assert forall|i: int| 0 <= i < v.len() implies (32 <= #[trigger] v[i] <= 126 || v[i]
                == 9) by {
                assert(reply::visible(v[i]));
            }
        }
    }
}

/// A path selects a name exactly where it is that name, behind a slash or not, and
/// the name is neither empty nor holds a slash.
pub proof fn lemma_path_selects(path: &str, name: Option<String>, n: Seq<char>)
    requires
        call_ensures(route, (path,), name),
    ensures
        name is Some && name->0@ == n <==> {
            &&& n.len() > 0 && !n.contains('/')
            &&& path@ == n || path@ == seq!['/'] + n
        },
{
    let p = path@;
    if p == seq!['/'] + n {
        assert(p.take(1) =~= seq!['/']);
        assert(p.skip(1) =~= n);
    }
    if p == n && n.len() > 0 && !n.contains('/') {
        if text::starts_with(p, seq!['/']) {
            assert(p.take(1)[0] == p[0]);
            assert(n.contains(n[0]));
        }
    }
    if text::starts_with(p, seq!['/']) {
        assert(p =~= p.take(1) + p.skip(1));
    }
}

/// A handler gets the body of a request exactly where the authorization callback
/// said 200, the path selects the name of that handler, and no body over the limit
/// was declared.
///
/// Otherwise the request is answered: with what the callback said, or with 500 and
/// its words where it failed, then with 404 for a name that there is not, then with
/// 413.
pub proof fn lemma_handler_reached(
    table: &HandlerTable,
    head: &RequestHead,
    outcome: Result<u16, String>,
    reason: Option<&str>,
    path: &str,
    name: Option<String>,
    selected: &str,
    found: Option<usize>,
    declared: Option<&[u8]>,
    large: bool,
    step: ReqStep,
)
    requires
        call_ensures(authorized_with, (table, head, outcome, reason), step) || (call_ensures(
            authorized,
            (table, head, outcome),
            step,
        ) && (outcome is Ok ==> reason_text(reason) == reason_of(outcome->Ok_0))),
        path@ == head.path@,
        call_ensures(route, (path,), name),
        table.inv(),
        match name {
            Some(n) => selected@ == n@ && call_ensures(
                HandlerTable::find,
                (table, selected),
                found,
            ),
            None => found is None,
        },
        declared is Some <==> head.content_length is Some,
        declared is Some ==> declared->0@ == head.content_length->0@,
        call_ensures(reply::declared_too_large, (declared,), large),
    ensures
        match outcome {
            Err(words) => step is Answer && step->Answer_0.status == 500
                && step->Answer_0.plain_text && step->Answer_0.body@ == encode_utf8(words@),
            Ok(status) => if status != 200 {
                &&& step is Answer && step->Answer_0.status == status
                &&& step->Answer_0.plain_text
                &&& step->Answer_0.body@ == match reason {
                    Some(words) => encode_utf8(words@),
                    None => Seq::empty(),
                }
            } else if found is None {
                &&& step is Answer && step->Answer_0.status == 404
                &&& step->Answer_0.plain_text
                &&& step->Answer_0.body@ == encode_utf8("not found"@)
            } else if large {
                &&& step is Answer && step->Answer_0.status == 413
                &&& step->Answer_0.plain_text
                &&& step->Answer_0.body@ == encode_utf8("payload exceeds maximum size limit"@)
            } else {
                step is ReadBody && step->ReadBody_0 == found->0
            },
        },
{
    if found is Some && step is ReadBody {
        let (i, j) = (found->0 as int, step->ReadBody_0 as int);
        if i < j {
            assert(table@[i] != table@[j]);
        } else if j < i {
            assert(table@[j] != table@[i]);
        }
    }
}

/// After the body was read it goes to the handler as it came. A body over the limit
/// is answered with 413, and one that could not be read with 400.
pub proof fn lemma_body_handed_on(handler: usize, body: BodyRead, step: ReqStep)
    requires
        call_ensures(body_read, (handler, body), step),
    ensures
        match body {
            BodyRead::Whole(bytes) => step is Handle && step->Handle_0 == handler && step->Handle_1@
                == bytes@,
            BodyRead::TooLarge => step is Answer && step->Answer_0.status == 413
                && step->Answer_0.body@ == encode_utf8("payload exceeds maximum size limit"@),
            BodyRead::Failed => step is Answer && step->Answer_0.status == 400
                && step->Answer_0.body@ == encode_utf8(
                "failed to read stream or malformed payload"@,
            ),
        },
{
}

/// A table of handlers is made exactly where no name is given twice and none is
/// that of the health check. The health check is then found as number zero, each
/// other name under the number of its place, counted from one, and no other name.
pub proof fn lemma_table_finds(
    names: Vec<String>,
    made: Result<HandlerTable, ChanError>,
    name: &str,
    found: Option<usize>,
)
    requires
        call_ensures(HandlerTable::new, (names,), made),
        made is Ok ==> call_ensures(HandlerTable::find, (&made->Ok_0, name), found),
    ensures
        made is Ok <==> {
            &&& forall|i: int| 0 <= i < names@.len() ==> (#[trigger] names@[i])@ != "__health"@
            &&& forall|i: int, j: int|
                0 <= i < j < names@.len() ==> (#[trigger] names@[i])@ != (#[trigger] names@[j])@
        },
        made is Err ==> made->Err_0 is DuplicateHandler && exists|k: int| #[trigger]
            first_given_twice(names@, k) && made->Err_0->DuplicateHandler_0@ == names@[k]@,
        made is Ok && name@ == "__health"@ ==> found == Some(0usize),
        made is Ok ==> forall|i: int|
            0 <= i < names@.len() && (#[trigger] names@[i])@ == name@ ==> found is Some && found->0
                == i + 1,
        made is Ok && name@ != "__health"@ && (forall|i: int|
            0 <= i < names@.len() ==> (#[trigger] names@[i])@ != name@) ==> found is None,
{
    let all = with_health(names_text(names@));
    assert(all.len() == names@.len() + 1 && all[0] == "__health"@);
    assert forall|i: int| 0 <= i < names@.len() implies all[i + 1] == (#[trigger] names@[i])@ by {}
    if all_distinct(all) {
        assert forall|i: int| 0 <= i < names@.len() implies (#[trigger] names@[i])@
            != "__health"@ by {
            assert(all[0] != all[i + 1]);
        }
        assert forall|i: int, j: int| 0 <= i < j < names@.len() implies (#[trigger] names@[i])@ != (
        #[trigger] names@[j])@ by {
            assert(all[i + 1] != all[j + 1]);
        }
    }
    if (forall|i: int| 0 <= i < names@.len() ==> (#[trigger] names@[i])@ != "__health"@) && (forall|
        i: int,
        j: int,
    |
        0 <= i < j < names@.len() ==> (#[trigger] names@[i])@ != (#[trigger] names@[j])@) {
        assert forall|i: int, j: int| 0 <= i < j < all.len() implies all[i] != all[j] by {
            assert(all[j] == names@[j - 1]@);
            if i > 0 {
                assert(all[i] == names@[i - 1]@);
            }
        }
    }
    if made is Err {
        let i = choose|i: int| #[trigger]
            first_repeat(all, i) && made->Err_0->DuplicateHandler_0@ == all[i];
        lemma_first_given_twice(names@, i);
        assert(first_given_twice(names@, i - 1));
    }
    if made is Ok {
        let table = made->Ok_0;
        if found is Some {
            let k = found->0 as int;
            assert forall|i: int| 0 <= i < all.len() && all[i] == name@ implies i == k by {
                if i < k {
                    assert(all[i] != all[k]);
                } else if k < i {
                    assert(all[k] != all[i]);
                }
            }
            assert(k > 0 ==> all[k] == names@[k - 1]@);
        } else {
            assert forall|i: int| 0 <= i < all.len() implies all[i] != name@ by {
                if all[i] == name@ {
                    assert(table@.contains(name@));
                }
            }
        }
        assert forall|i: int| 0 <= i < names@.len() && (#[trigger] names@[i])@
            == name@ implies found is Some && found->0 == i + 1 by {
            assert(all[i + 1] == name@);
        }
        if name@ == "__health"@ {
            assert(all[0] == name@);
        }
    }
}

/// Is the name at `k` the first that is that of the health check or of a name before
/// it?
pub open spec fn first_given_twice(names: Seq<String>, k: int) -> bool {
    &&& 0 <= k < names.len()
    &&& names[k]@ == "__health"@ || exists|j: int| 0 <= j < k && (#[trigger] names[j])@ == names[k]@
    &&& forall|i: int|
        0 <= i < k ==> (#[trigger] names[i])@ != "__health"@ && forall|j: int|
            0 <= j < i ==> (#[trigger] names[j])@ != names[i]@
}

proof fn lemma_first_given_twice(names: Seq<String>, i: int)
    requires
        first_repeat(with_health(names_text(names)), i),
    ensures
        first_given_twice(names, i - 1),
{
    let all = with_health(names_text(names));
    assert(all.len() == names.len() + 1 && all[0] == "__health"@);
    assert forall|k: int| 0 <= k < names.len() implies all[k + 1] == (#[trigger] names[k])@ by {}
    let j = choose|j: int| 0 <= j < i && #[trigger] all[j] == all[i];
    assert(i > 0);
    if j > 0 {
        assert(all[j] == names[j - 1]@);
    }
    assert(all[i] == names[i - 1]@);
    assert forall|m: int| 0 <= m < i - 1 implies (#[trigger] names[m])@ != "__health"@ && forall|
        n: int,
    |
        0 <= n < m ==> (#[trigger] names[n])@ != names[m]@ by {
        assert(!repeats_at(all, m + 1));
        assert(all[0] != all[m + 1]);
        assert forall|n: int| 0 <= n < m implies (#[trigger] names[n])@ != names[m]@ by {
            assert(all[n + 1] != all[m + 1]);
        }
    }
}

/// A client sends every request to the address it was made with, under the name of
/// the request, with its authorization header and with the body it was given. A
/// name that is empty or holds a slash is refused, and no other. The first thing a
/// client sends is an empty health check.
pub proof fn lemma_request_sent(
    addr: &str,
    auth_header: String,
    made: (ChanCli, ChanRequest),
    req: &str,
    body: Vec<u8>,
    res: Result<ChanRequest, ChanError>,
)
    requires
        call_ensures(ChanCli::connect, (addr, auth_header), made),
        call_ensures(ChanCli::request, (&made.0, req, body), res),
    ensures
        made.1.url@ == "http://"@ + addr@ + "/"@ + "__health"@,
        made.1.authorization@ == auth_header@,
        made.1.body@.len() == 0,
        res is Ok <==> req@.len() > 0 && !req@.contains('/'),
        res is Ok ==> {
            &&& res->Ok_0.url@ == "http://"@ + addr@ + "/"@ + req@
            &&& res->Ok_0.authorization@ == auth_header@
            &&& res->Ok_0.body@ == body@
        },
        res is Err ==> res->Err_0 is InvalidReq,
{
}

/// The words of each failure.
pub proof fn lemma_failure_words(err: &ChanError, words: String, invalid: bool)
    requires
        call_ensures(ChanError::message, (err,), words),
        call_ensures(ChanError::is_invalid_input, (err,), invalid),
    ensures
        match *err {
            ChanError::DuplicateHandler(name) => words@ == "duplicate handler req: "@ + name@
                && invalid,
            ChanError::InvalidReq => words@ == "req must be a single non-empty path segment"@
                && invalid,
            ChanError::HealthBody => words@ == "health check does not accept a body"@ && invalid,
            ChanError::RequestFailed { status, body } => words@ == "request failed: "@
                + text::dec_nat(status as nat) + " "@ + body@ && !invalid,
            ChanError::UnexpectedPutResult => words@ == "unexpected cfg_put result"@ && !invalid,
            ChanError::Codec(reason) => words@ == reason@ && !invalid,
            ChanError::Other(reason) => words@ == reason@ && !invalid,
        },
{
}

/// What a handler is handed is what it returns on: the reply to a body is the one to
/// what the handler returned for that body.
pub proof fn lemma_dispatched<H: ChanHandler>(handler: &H, body: Vec<u8>, r: Reply) -> (outcome:
    Result<Vec<u8>, ChanError>)
    requires
        call_ensures(dispatch::<H>, (handler, body), r),
    ensures
        call_ensures(H::handle, (handler, body), outcome),
        match outcome {
            Ok(out) => r.status == 200 && !r.plain_text && r.body@ == out@,
            Err(err) => r.status == 500 && r.plain_text && r.body@ == encode_utf8(err.text()),
        },
        r.retry_after is None,
{
    choose|outcome: Result<Vec<u8>, ChanError>| #[trigger]
        call_ensures(H::handle, (handler, body), outcome) && r@ == last_reply(
            handled_text(outcome),
        )
}

} // verus!
