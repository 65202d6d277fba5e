//! Channels: a server and a client, joined without a network between them.

use std::cell::Cell;
use std::rc::Rc;

use v_m_io::api::{
    decode, encode, put_req_from, CfgGetRes, CfgPutReq,
};
use v_m_io::chan::cfg::{cfg_get_result, cfg_put_result, ChanCliCfgExt};
use v_m_io::chan::{
    authorized, begin, body_read, busy_reply, dispatch, handled, let_in, route, ChanCli,
    ChanError, ChanHandler, ChanRequest, ConnStep, HandlerTable, HealthHandler, Permit, ReqStep,
    RequestHead, HEALTH_REQ,
};
use v_m_io::cli::{auth_header, command_request, command_result, Cmd, Output, Pending};
use v_m_io::reply::{declared_too_large, header_str, parse_u64, BodyRead, Reply, MAX_BODY};

struct Echo;

impl ChanHandler for Echo {
    fn req(&self) -> &'static str {
        "echo"
    }

    fn handle(&self, req: Vec<u8>) -> Result<Vec<u8>, ChanError> {
        Ok(req)
    }
}

struct Fail;

impl ChanHandler for Fail {
    fn req(&self) -> &'static str {
        "fail"
    }

    fn handle(&self, _req: Vec<u8>) -> Result<Vec<u8>, ChanError> {
        Err(ChanError::Other("boom".to_string()))
    }
}

struct Counted {
    count: Rc<Cell<usize>>,
}

impl ChanHandler for Counted {
    fn req(&self) -> &'static str {
        "count"
    }

    fn handle(&self, _req: Vec<u8>) -> Result<Vec<u8>, ChanError> {
        self.count.set(self.count.get() + 1);
        Ok(b"ok".to_vec())
    }
}

/// A server whose handlers are called directly.
struct Server {
    table: HandlerTable,
    handlers: Vec<Box<dyn ChanHandler>>,
    auth: Box<dyn Fn(String) -> Result<u16, String>>,
}

impl Server {
    fn new(
        configured: Vec<Box<dyn ChanHandler>>,
        auth: Box<dyn Fn(String) -> Result<u16, String>>,
    ) -> Result<Server, ChanError> {
        let names = configured.iter().map(|h| h.req().to_string()).collect();
        let table = HandlerTable::new(names)?;
        let mut handlers: Vec<Box<dyn ChanHandler>> = vec![Box::new(HealthHandler)];
        handlers.extend(configured);
        Ok(Server {
            table,
            handlers,
            auth,
        })
    }

    fn serve(&self, head: &RequestHead, body: BodyRead) -> Reply {
        let value = match begin(head) {
            ReqStep::Authorize(value) => value,
            ReqStep::Answer(reply) => return reply,
            _ => unreachable!(),
        };
        let handler = match authorized(&self.table, head, (self.auth)(value)) {
            ReqStep::ReadBody(handler) => handler,
            ReqStep::Answer(reply) => return reply,
            _ => unreachable!(),
        };
        match body_read(handler, body) {
            ReqStep::Handle(handler, body) => handled(self.handlers[handler].handle(body)),
            ReqStep::Answer(reply) => reply,
            _ => unreachable!(),
        }
    }

    fn send(&self, sent: ChanRequest) -> Result<Vec<u8>, ChanError> {
        let head = RequestHead {
            authorization: Some(sent.authorization.into_bytes()),
            path: sent
                .url
                .strip_prefix("http://127.0.0.1:1234")
                .unwrap()
                .to_string(),
            content_length: Some(sent.body.len().to_string().into_bytes()),
        };
        let reply = self.serve(&head, BodyRead::Whole(sent.body));
        ChanCli::response(reply.status, reply.body)
    }

    fn connect(&self, auth_header: &str) -> Result<ChanCli, ChanError> {
        let (cli, health) = ChanCli::connect("127.0.0.1:1234", auth_header.to_string());
        self.send(health)?;
        Ok(cli)
    }

    fn request(&self, cli: &ChanCli, req: &str, body: Vec<u8>) -> Result<Vec<u8>, ChanError> {
        self.send(cli.request(req, body)?)
    }
}

fn auth_eq(expected: &'static str) -> Box<dyn Fn(String) -> Result<u16, String>> {
    Box::new(move |val| if val == expected { Ok(200) } else { Ok(401) })
}

fn auth_code(code: u16) -> Box<dyn Fn(String) -> Result<u16, String>> {
    Box::new(move |_| Ok(code))
}

fn start(
    handlers: Vec<Box<dyn ChanHandler>>,
    auth: Box<dyn Fn(String) -> Result<u16, String>>,
) -> Server {
    match Server::new(handlers, auth) {
        Ok(server) => server,
        Err(err) => panic!("{}", err.message()),
    }
}

fn taken<T>(res: Result<T, ChanError>) -> T {
    res.map_err(|err| err.message()).unwrap()
}

fn failure<T>(res: Result<T, ChanError>) -> String {
    match res {
        Ok(_) => panic!("no failure"),
        Err(err) => err.message(),
    }
}

fn head(auth: Option<&[u8]>, path: &str, content_length: Option<&[u8]>) -> RequestHead {
    RequestHead {
        authorization: auth.map(|value| value.to_vec()),
        path: path.to_string(),
        content_length: content_length.map(|value| value.to_vec()),
    }
}

fn words(reply: &Reply) -> &str {
    std::str::from_utf8(&reply.body).unwrap()
}

#[test]
fn echo_roundtrip() {
    let srv = start(vec![Box::new(Echo)], auth_eq("Bearer test"));
    let cli = taken(srv.connect("Bearer test"));

    let out = taken(srv.request(&cli, "echo", b"hello".to_vec()));
    assert_eq!(out, b"hello");
}

#[test]
fn unknown_handler_is_err() {
    let srv = start(vec![Box::new(Echo)], auth_eq("Bearer test"));
    let cli = taken(srv.connect("Bearer test"));

    assert!(srv.request(&cli, "nope", b"x".to_vec()).is_err());
    assert_eq!(
        "request failed: 404 not found",
        failure(srv.request(&cli, "nope", b"x".to_vec()))
    );
}

#[test]
fn wrong_auth_is_rejected_and_handler_skipped() {
    let count = Rc::new(Cell::new(0));
    let srv = start(
        vec![Box::new(Counted {
            count: count.clone(),
        })],
        auth_eq("Bearer test"),
    );

    // The connect-time health check is also subject to auth.
    assert!(srv.connect("Bearer wrong").is_err());
    assert_eq!(count.get(), 0);

    let reply = srv.serve(
        &head(Some(b"Bearer wrong"), "/count", None),
        BodyRead::Whole(Vec::new()),
    );
    assert_eq!(401, reply.status);
    assert_eq!("Unauthorized", words(&reply));
    assert_eq!(count.get(), 0);

    let cli = taken(srv.connect("Bearer test"));
    assert_eq!(b"ok".to_vec(), taken(srv.request(&cli, "count", Vec::new())));
    assert_eq!(count.get(), 1);
}

#[test]
fn auth_callback_other_code_is_err() {
    let srv = start(vec![Box::new(Echo)], auth_code(418));

    // Bypass ChanCli, since connect would itself fail this auth check.
    let res = srv.serve(
        &head(Some(b"Bearer test"), "/echo", None),
        BodyRead::Whole(b"x".to_vec()),
    );

    assert_eq!(res.status, 418);
    assert_eq!("I'm a teapot", words(&res));
    assert!(res.plain_text);

    // a code without a reason phrase has an empty body
    let srv = start(vec![Box::new(Echo)], auth_code(299));
    let res = srv.serve(
        &head(Some(b"Bearer test"), "/echo", None),
        BodyRead::Whole(b"x".to_vec()),
    );
    assert_eq!(res.status, 299);
    assert!(res.body.is_empty());
}

#[test]
fn auth_callback_failure_is_a_server_error() {
    let srv = start(
        vec![Box::new(Echo)],
        Box::new(|_| Err("lookup failed".to_string())),
    );
    let res = srv.serve(
        &head(Some(b"Bearer test"), "/echo", None),
        BodyRead::Whole(b"x".to_vec()),
    );
    assert_eq!(res.status, 500);
    assert_eq!("lookup failed", words(&res));
}

#[test]
fn health_check_is_ok() {
    let srv = start(vec![Box::new(Echo)], auth_eq("Bearer test"));
    // connecting runs the health check, so this already proves it works.
    let cli = taken(srv.connect("Bearer test"));

    let out = taken(srv.request(&cli, HEALTH_REQ, Vec::new()));
    assert!(out.is_empty());
}

#[test]
fn health_check_rejects_body() {
    let srv = start(vec![Box::new(Echo)], auth_eq("Bearer test"));
    let cli = taken(srv.connect("Bearer test"));

    assert!(srv.request(&cli, HEALTH_REQ, b"x".to_vec()).is_err());
    assert_eq!(
        "request failed: 500 health check does not accept a body",
        failure(srv.request(&cli, HEALTH_REQ, b"x".to_vec()))
    );
    assert_eq!(200, dispatch(&HealthHandler, Vec::new()).status);
    assert_eq!(500, dispatch(&HealthHandler, b"x".to_vec()).status);
}

#[test]
fn duplicate_health_handler_is_err() {
    struct SneakyHealth;

    impl ChanHandler for SneakyHealth {
        fn req(&self) -> &'static str {
            HEALTH_REQ
        }

        fn handle(&self, _req: Vec<u8>) -> Result<Vec<u8>, ChanError> {
            Ok(Vec::new())
        }
    }

    let res = Server::new(vec![Box::new(SneakyHealth)], auth_eq("Bearer test"));
    assert_eq!("duplicate handler req: __health", failure(res));
}

#[test]
fn handler_error_is_err() {
    let srv = start(vec![Box::new(Fail)], auth_eq("Bearer test"));
    let cli = taken(srv.connect("Bearer test"));

    assert!(srv.request(&cli, "fail", b"x".to_vec()).is_err());
    assert_eq!(
        "request failed: 500 boom",
        failure(srv.request(&cli, "fail", b"x".to_vec()))
    );
}

#[test]
fn missing_auth_header_is_unauthorized() {
    let srv = start(vec![Box::new(Echo)], auth_eq("Bearer test"));

    // Bypass ChanCli, which always sets the header.
    for auth in [None, Some(&b"Bearer \xc3\xa9"[..])] {
        let res = srv.serve(&head(auth, "/echo", None), BodyRead::Whole(b"x".to_vec()));
        assert_eq!(res.status, 401);
        assert_eq!("missing or invalid authorization", words(&res));
    }
}

#[test]
fn duplicate_handler_is_err() {
    let res = Server::new(
        vec![Box::new(Echo), Box::new(Fail), Box::new(Echo)],
        auth_eq("Bearer test"),
    );
    assert_eq!("duplicate handler req: echo", failure(res));
}

#[test]
fn handler_numbers() {
    let table = taken(HandlerTable::new(vec!["a".to_string(), "b".to_string()]));
    assert_eq!(Some(0), table.find("__health"));
    assert_eq!(Some(1), table.find("a"));
    assert_eq!(Some(2), table.find("b"));
    assert_eq!(None, table.find("c"));
}

#[test]
fn paths_route_to_one_segment() {
    assert_eq!(Some("echo".to_string()), route("/echo"));
    assert_eq!(Some("echo".to_string()), route("echo"));
    for path in ["", "/", "//", "/a/", "/a/b", "//a"] {
        assert_eq!(None, route(path));
    }
}

#[test]
fn request_names_are_checked() {
    let (cli, health) = ChanCli::connect("127.0.0.1:1234", "Bearer t".to_string());
    assert_eq!("http://127.0.0.1:1234/__health", health.url);
    assert_eq!("Bearer t", health.authorization);
    assert!(health.body.is_empty());
    for req in ["", "/", "a/b", "/a"] {
        assert_eq!(
            "req must be a single non-empty path segment",
            failure(cli.request(req, Vec::new()))
        );
    }
    let sent = taken(cli.request("a b", b"x".to_vec()));
    assert_eq!("http://127.0.0.1:1234/a b", sent.url);
    assert_eq!(b"x".to_vec(), sent.body);
}

#[test]
fn oversized_bodies_are_refused() {
    let srv = start(vec![Box::new(Echo)], auth_eq("Bearer test"));
    let declared = (MAX_BODY + 1).to_string();
    let auth = Some(&b"Bearer test"[..]);
    let res = srv.serve(
        &head(auth, "/echo", Some(declared.as_bytes())),
        BodyRead::Whole(Vec::new()),
    );
    assert_eq!(413, res.status);
    assert_eq!("payload exceeds maximum size limit", words(&res));

    let res = srv.serve(&head(auth, "/echo", None), BodyRead::TooLarge);
    assert_eq!(413, res.status);
    assert_eq!("payload exceeds maximum size limit", words(&res));

    let res = srv.serve(&head(auth, "/echo", None), BodyRead::Failed);
    assert_eq!(400, res.status);
    assert_eq!("failed to read stream or malformed payload", words(&res));

    // an unknown path is reported before an oversized body
    let res = srv.serve(
        &head(auth, "/nope", Some(declared.as_bytes())),
        BodyRead::Whole(Vec::new()),
    );
    assert_eq!(404, res.status);
}

#[test]
fn declared_lengths() {
    assert_eq!(16 * 1024 * 1024, MAX_BODY);
    assert!(!declared_too_large(None));
    for value in ["16777216", "0", "", "x", "-1", "18446744073709551616", "1 "] {
        assert!(!declared_too_large(Some(value.as_bytes())));
    }
    for value in ["16777217", "+16777217", "0016777217", "18446744073709551615"] {
        assert!(declared_too_large(Some(value.as_bytes())));
    }
}

#[test]
fn numbers_are_parsed_like_the_standard_library_does() {
    for s in [
        "", "+", "-", "0", "+0", "-0", "00", "7", "+7", "++7", "18446744073709551615",
        "18446744073709551616", "99999999999999999999999", "1x", " 1", "1_000", "٣",
        "99999999999999999999999x",
    ] {
        assert_eq!(s.parse::<u64>().ok(), parse_u64(s));
    }
}

#[test]
fn header_values_are_read_like_the_http_crate_does() {
    for b in 0..=255u8 {
        let value = [b'a', b, b'z'];
        if let Ok(header) = hyper::header::HeaderValue::from_bytes(&value) {
            assert_eq!(
                header.to_str().ok().map(|s| s.to_string()),
                header_str(&value)
            );
        }
    }
    assert_eq!(Some(String::new()), header_str(b""));
}

#[test]
fn connections_without_a_permit_are_refused() {
    match let_in(Permit::TimedOut) {
        ConnStep::Refuse(reply) => {
            assert_eq!(503, reply.status);
            assert_eq!("Service Unavailable", words(&reply));
            assert_eq!(Some(60), reply.retry_after);
            assert!(reply.plain_text);
        }
        _ => panic!("not refused"),
    }
    assert_eq!(503, busy_reply().status);
    assert!(matches!(let_in(Permit::Granted), ConnStep::Serve));
    assert!(matches!(let_in(Permit::Closed), ConnStep::Drop));
}

#[test]
fn responses_are_taken() {
    assert_eq!(b"x".to_vec(), taken(ChanCli::response(200, b"x".to_vec())));
    assert_eq!(b"x".to_vec(), taken(ChanCli::response(299, b"x".to_vec())));
    assert_eq!(
        "request failed: 300 x",
        failure(ChanCli::response(300, b"x".to_vec()))
    );
    assert_eq!(
        "request failed: 199 a\u{fffd}b",
        failure(ChanCli::response(199, b"a\xffb".to_vec()))
    );
}

#[test]
fn api_sanity() {
    let enc: CfgGetRes = Ok(vec![
        ("test1".to_string(), "1".to_string()),
        ("test2".to_string(), "2".to_string()),
    ]);

    let bin: Vec<u8> = encode(&enc).unwrap();

    let res: CfgGetRes = decode(&bin).unwrap();

    assert_eq!("test1", res.as_ref().unwrap()[0].0);
    assert_eq!("2", res.as_ref().unwrap()[1].1);

    let enc2: CfgGetRes = Err("test-err".to_string());
    let bin2: Vec<u8> = encode(&enc2).unwrap();
    let res2: CfgGetRes = decode(&bin2).unwrap();
    assert_eq!("test-err", res2.unwrap_err());
}

#[test]
fn payload_bytes() {
    let res: CfgGetRes = Ok(vec![("k".to_string(), "vv".to_string())]);
    assert_eq!(vec![0, 1, 1, b'k', 2, b'v', b'v'], encode(&res).unwrap());
    let res: CfgGetRes = Err("no".to_string());
    assert_eq!(vec![1, 2, b'n', b'o'], encode(&res).unwrap());

    // a request without expiration says so
    let put = CfgPutReq::new("k".to_string(), "v".to_string());
    let bytes = encode(&put).unwrap();
    assert_eq!(vec![1, b'k', 1, b'v', 0], bytes);
    let back: CfgPutReq = decode(&bytes).unwrap();
    assert_eq!("k", back.key);
    assert_eq!("v", back.value);
    assert_eq!(None, back.expires_at_micros);

    let put = CfgPutReq {
        key: "k".to_string(),
        value: "v".to_string(),
        expires_at_micros: Some(3),
    };
    let bytes = encode(&put).unwrap();
    assert_eq!(vec![1, b'k', 1, b'v', 1, 6], bytes);
    let back: CfgPutReq = decode(&bytes).unwrap();
    assert_eq!(Some(3), back.expires_at_micros);
    // a key and a value alone are a request too
    let back: CfgPutReq = decode(&[1, b'k', 1, b'v']).unwrap();
    assert_eq!("k", back.key);
    assert_eq!("v", back.value);
    assert_eq!(None, back.expires_at_micros);
}

fn put_req(expires_at_micros: Option<i64>) -> CfgPutReq {
    CfgPutReq {
        key: "some-key".to_string(),
        value: "some value".to_string(),
        expires_at_micros,
    }
}

fn get_results() -> Vec<CfgGetRes> {
    vec![
        Ok(Vec::new()),
        Ok(vec![
            ("k".to_string(), "vv".to_string()),
            ("l".to_string(), String::new()),
        ]),
        Err("no".to_string()),
    ]
}

#[test]
fn bytes_behind_a_payload_are_ignored() {
    for tail in [vec![9], vec![0], vec![1, 6], vec![1], vec![255; 20]] {
        for expires in [None, Some(3), Some(-1), Some(i64::MAX)] {
            let mut bytes = encode(&put_req(expires)).unwrap();
            bytes.extend(&tail);
            let back: CfgPutReq = decode(&bytes).unwrap();
            assert_eq!("some-key", back.key);
            assert_eq!("some value", back.value);
            assert_eq!(expires, back.expires_at_micros);
        }
        for res in get_results() {
            let mut bytes = encode(&res).unwrap();
            bytes.extend(&tail);
            assert_eq!(res, decode::<CfgGetRes>(&bytes).unwrap());
        }
    }
}

#[test]
fn payloads_that_are_cut_are_refused() {
    for expires in [None, Some(3), Some(i64::MIN), Some(i64::MAX)] {
        let bytes = encode(&put_req(expires)).unwrap();
        // the lengths of the key and the value are a byte each
        let pair = 1 + 8 + 1 + 10;
        for cut in 0..bytes.len() {
            let left = decode::<CfgPutReq>(&bytes[..cut]);
            if cut == pair {
                let left = left.unwrap();
                assert_eq!("some-key", left.key);
                assert_eq!("some value", left.value);
                assert_eq!(None, left.expires_at_micros);
            } else {
                assert!(left.is_err());
            }
        }
    }
    for res in get_results() {
        let bytes = encode(&res).unwrap();
        for cut in 0..bytes.len() {
            assert!(decode::<CfgGetRes>(&bytes[..cut]).is_err());
        }
    }
}

#[test]
fn faults_of_the_caller_are_told_apart() {
    assert!(ChanError::InvalidReq.is_invalid_input());
    assert!(ChanError::HealthBody.is_invalid_input());
    assert!(ChanError::DuplicateHandler("a".to_string()).is_invalid_input());
    assert!(!ChanError::Other("x".to_string()).is_invalid_input());
}

#[test]
fn malformed_payloads_are_refused() {
    assert!(decode::<CfgPutReq>(&[]).is_err());
    assert!(decode::<CfgPutReq>(&[5, b'k']).is_err());
    assert!(decode::<CfgPutReq>(&[1, 0xff, 1, b'v']).is_err());
    assert!(decode::<CfgPutReq>(&[1, b'k', 1, b'v', 1]).is_err());
    assert!(decode::<CfgGetRes>(&[]).is_err());
    assert!(decode::<CfgGetRes>(&[2]).is_err());
    // a length that cannot be is refused, not reserved
    let huge = [253, 255, 255, 255, 255, 255, 255, 255, 127];
    assert!(decode::<CfgPutReq>(&huge).is_err());
    let mut huge_res = vec![1];
    huge_res.extend(huge);
    assert!(decode::<CfgGetRes>(&huge_res).is_err());
}

#[test]
fn put_request_of_what_was_read() {
    let pair = || Ok(("k".to_string(), "v".to_string(), 4));
    let none = || Err("no triple".to_string());
    let req = put_req_from(pair(), 4, none()).unwrap();
    assert_eq!(None, req.expires_at_micros);
    assert_eq!("no triple", put_req_from(pair(), 5, none()).unwrap_err());
    let triple = Ok(("x".to_string(), "y".to_string(), Some(1)));
    let req = put_req_from(pair(), 5, triple).unwrap();
    assert_eq!("x", req.key);
    assert_eq!("y", req.value);
    assert_eq!(Some(1), req.expires_at_micros);
    assert_eq!(
        "no pair",
        put_req_from(Err("no pair".to_string()), 4, none()).unwrap_err()
    );
}

#[test]
fn config_requests() {
    let (cli, _) = ChanCli::connect("h:1", auth_header("key"));
    let sent = taken(cli.cfg_get(()));
    assert_eq!("http://h:1/cfg-get", sent.url);
    assert_eq!("Bearer key", sent.authorization);
    assert!(sent.body.is_empty());
    let sent = taken(cli.cfg_put(CfgPutReq::new("k".to_string(), "v".to_string())));
    assert_eq!("http://h:1/cfg-put", sent.url);
    assert_eq!(vec![1, b'k', 1, b'v', 0], sent.body);

    assert!(cfg_put_result(Ok(Vec::new())).is_ok());
    assert_eq!(
        "unexpected cfg_put result",
        failure(cfg_put_result(Ok(vec![0])))
    );
    assert_eq!(
        "request failed: 500 boom",
        failure(cfg_put_result(ChanCli::response(500, b"boom".to_vec())))
    );
    assert_eq!(
        Err("no".to_string()),
        taken(cfg_get_result(Ok(vec![1, 2, b'n', b'o'])))
    );
    assert!(cfg_get_result(Ok(Vec::new())).is_err());
}

#[test]
fn commands() {
    let (cli, _) = ChanCli::connect("h:1", auth_header("key"));
    let (sent, pending) = taken(command_request(&cli, Cmd::Health));
    assert_eq!("http://h:1/__health", sent.url);
    assert_eq!(Pending::Health, pending);
    let (sent, pending) = taken(command_request(&cli, Cmd::CfgGet));
    assert_eq!("http://h:1/cfg-get", sent.url);
    assert_eq!(Pending::CfgGet, pending);
    let put = Cmd::CfgPut {
        key: "k".to_string(),
        value: "v".to_string(),
    };
    let (sent, pending) = taken(command_request(&cli, put));
    assert_eq!("http://h:1/cfg-put", sent.url);
    assert_eq!(vec![1, b'k', 1, b'v', 0], sent.body);
    assert_eq!(Pending::CfgPut, pending);

    let values = vec![0, 1, 1, b'k', 1, b'v'];
    match taken(command_result(Pending::CfgGet, Ok(values))) {
        Output::Values(pairs) => {
            assert_eq!(vec![("k".to_string(), "v".to_string())], pairs)
        }
        Output::Nothing => panic!("no values"),
    }
    assert_eq!(
        "no",
        failure(command_result(Pending::CfgGet, Ok(vec![1, 2, b'n', b'o'])))
    );
    assert!(matches!(
        command_result(Pending::Health, Ok(Vec::new())),
        Ok(Output::Nothing)
    ));
    assert!(command_result(Pending::CfgPut, Ok(vec![1])).is_err());
    assert_eq!(
        "req must be a single non-empty path segment",
        failure(command_result(Pending::Health, Err(ChanError::InvalidReq)))
    );
}
