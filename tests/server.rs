use serde_tc::auth::{authenticate, sign_request, AuthError, AuthenticatedRequest};
use serde_tc::descriptor::{MethodDescriptor, ServiceDescriptor};
use serde_tc::dispatch::{ErrorTag, ResultEnvelope, ServiceObject};
use serde_tc::envelope::{encode_named, CallEnvelope, Params};
use serde_tc::router::{Reply, RouteError, Router};
use serde_tc::stub::{
    decode_result, encode_result, result_of_reply, ClientError, FnTransport, InProcessStub, ServiceStub, Stub, StubCall,
};
use serde_tc::value::{Kind, Value};
use std::cell::{Cell, RefCell};
use std::collections::HashMap;

/// A toy scheme: a signature is a checksum of the public key and the message.
struct ToyScheme {
    verifications: Cell<usize>,
}

fn checksum(key: &str, message: &[u8]) -> String {
    let mut h: u64 = 0xcbf29ce484222325;
    for b in key.as_bytes().iter().chain(message.iter()) {
        h ^= *b as u64;
        h = h.wrapping_mul(0x100000001b3);
    }
    format!("{:016x}", h)
}

impl ToyScheme {
    fn sign(&self, message: &Vec<u8>, private_key: &String) -> String {
        checksum(&self.public_key_of(private_key), message)
    }
    fn verify(&self, message: &Vec<u8>, signature: &String, public_key: &String) -> bool {
        self.verifications.set(self.verifications.get() + 1);
        checksum(public_key, message) == *signature
    }
    fn public_key_of(&self, private_key: &String) -> String {
        format!("pub-{}", private_key)
    }
}

fn scheme() -> ToyScheme {
    ToyScheme { verifications: Cell::new(0) }
}

fn signed_by(scheme: &ToyScheme, env: &CallEnvelope, k: &String) -> AuthenticatedRequest {
    let sign = |b: &Vec<u8>| scheme.sign(b, k);
    sign_request(&sign, &scheme.public_key_of(k), env)
}

fn serve_with<S: ServiceObject>(router: &mut Router<S>, scheme: &ToyScheme, key: &String, req: &AuthenticatedRequest) -> Reply {
    let check = |b: &Vec<u8>, s: &String, p: &String| scheme.verify(b, s, p);
    router.serve(&check, key, req)
}

/// Keeps one counter per caller.
#[derive(Default)]
struct Calculator {
    values: HashMap<String, i64>,
    calls: usize,
}

impl ServiceObject for Calculator {
    fn invoke(&mut self, method: &String, args: Vec<Value>) -> Option<Value> {
        self.calls += 1;
        match (method.as_str(), args.as_slice()) {
            ("add", [Value::Text(caller), Value::Int(amount)]) => {
                *self.values.entry(caller.clone()).or_insert(0) += amount;
                Some(Value::Null)
            }
            ("get", [Value::Text(caller)]) => Some(Value::Int(*self.values.get(caller).unwrap_or(&0))),
            _ => None,
        }
    }
}

fn calculator() -> ServiceDescriptor {
    let mut s = ServiceDescriptor::new("Calculator".to_owned());
    let add = MethodDescriptor::new(
        &"add".to_owned(),
        &vec![("amount".to_owned(), Kind::Integer)],
        Kind::Unit,
        true,
        true,
        false,
    )
    .unwrap();
    let get = MethodDescriptor::new(&"get".to_owned(), &vec![], Kind::Integer, true, true, false).unwrap();
    s.add_method(add).unwrap();
    s.add_method(get).unwrap();
    s
}

fn server() -> Router<Calculator> {
    let mut router = Router::new();
    router.register("x".to_owned(), calculator(), Calculator::default()).unwrap();
    router
}

fn add_call(amount: i64) -> CallEnvelope {
    encode_named(&calculator().methods[0], &vec![Value::Int(amount)])
}

fn get_call() -> CallEnvelope {
    encode_named(&calculator().methods[1], &vec![])
}

fn calls_of(router: &Router<Calculator>) -> usize {
    router.routes[0].object.calls
}

#[test]
fn add_then_get_is_per_caller() {
    let scheme = scheme();
    let mut router = server();
    let key = "x".to_owned();
    let k = "k".to_owned();
    let k2 = "k2".to_owned();

    let req = signed_by(&scheme, &add_call(5), &k);
    assert_eq!(String::from_utf8(req.body.clone()).unwrap(), r#"{"method":"add","params":{"amount":5}}"#);
    let reply = serve_with(&mut router, &scheme, &key, &req);
    assert_eq!(reply, Reply::Dispatched(ResultEnvelope::Success(Value::Null)));
    assert_eq!(reply.status(), 200);

    let reply = serve_with(&mut router, &scheme, &key, &signed_by(&scheme, &get_call(), &k));
    assert_eq!(reply, Reply::Dispatched(ResultEnvelope::Success(Value::Int(5))));
    let reply = serve_with(&mut router, &scheme, &key, &signed_by(&scheme, &get_call(), &k2));
    assert_eq!(reply, Reply::Dispatched(ResultEnvelope::Success(Value::Int(0))));
    assert_eq!(router.routes[0].object.values.get("pub-k"), Some(&5));
    assert_eq!(router.routes[0].object.values.get("pub-k2"), None);
}

#[test]
fn tampered_parameter_is_rejected_before_the_object() {
    let scheme = scheme();
    let mut router = server();
    let key = "x".to_owned();
    let signed = signed_by(&scheme, &add_call(5), &"k".to_owned());
    let digit = signed.body.iter().position(|b| *b == b'5').unwrap();
    for flip in [1u8, 2, 4, 0x80] {
        let mut req = signed.clone();
        req.body[digit] ^= flip;
        let reply = serve_with(&mut router, &scheme, &key, &req);
        assert_eq!(reply, Reply::Unauthorized(AuthError::InvalidSignature));
        assert_eq!(reply.status(), 401);
    }
    assert_eq!(calls_of(&router), 0);
}

#[test]
fn missing_credentials_are_rejected() {
    let scheme = scheme();
    let mut router = server();
    let key = "x".to_owned();
    let signed = signed_by(&scheme, &add_call(1), &"k".to_owned());
    let no_key = AuthenticatedRequest { public_key: None, ..signed.clone() };
    assert_eq!(serve_with(&mut router, &scheme, &key, &no_key), Reply::Unauthorized(AuthError::MissingPublicKey));
    let no_signature = AuthenticatedRequest { signature: None, ..signed };
    assert_eq!(serve_with(&mut router, &scheme, &key, &no_signature), Reply::Unauthorized(AuthError::MissingSignature));
    assert_eq!(scheme.verifications.get(), 0);
    assert_eq!(calls_of(&router), 0);
}

#[test]
fn unregistered_key_is_not_found_without_authentication() {
    let scheme = scheme();
    let mut router = server();
    let req = signed_by(&scheme, &add_call(1), &"k".to_owned());
    let reply = serve_with(&mut router, &scheme, &"missing".to_owned(), &req);
    assert_eq!(reply, Reply::ObjectNotFound("missing".to_owned()));
    assert_eq!(reply.status(), 404);
    assert_eq!(scheme.verifications.get(), 0);
    assert_eq!(calls_of(&router), 0);
}

#[test]
fn malformed_body_is_a_client_error() {
    let scheme = scheme();
    let mut router = server();
    let k = "k".to_owned();
    let body = b"This request is not a valid JSON".to_vec();
    let signature = scheme.sign(&body, &k);
    let req = AuthenticatedRequest { body, public_key: Some(scheme.public_key_of(&k)), signature: Some(signature) };
    let reply = serve_with(&mut router, &scheme, &"x".to_owned(), &req);
    assert_eq!(reply, Reply::MalformedEnvelope);
    assert_eq!(reply.status(), 400);
    assert_eq!(calls_of(&router), 0);
}

#[test]
fn dispatch_errors_are_server_errors() {
    let scheme = scheme();
    let mut router = server();
    let env = CallEnvelope { method: "nonexistent-method".to_owned(), params: Params::Named(vec![]) };
    let reply = serve_with(&mut router, &scheme, &"x".to_owned(), &signed_by(&scheme, &env, &"k".to_owned()));
    assert_eq!(
        reply,
        Reply::Dispatched(ResultEnvelope::Failure(ErrorTag::MethodNotFound, "nonexistent-method".to_owned()))
    );
    assert_eq!(reply.status(), 500);
}

#[test]
fn duplicate_key_is_refused() {
    let mut router = server();
    let r = router.register("x".to_owned(), calculator(), Calculator::default());
    assert_eq!(r, Err(RouteError::DuplicateKey("x".to_owned())));
    assert_eq!(router.routes.len(), 1);
}

#[test]
fn in_process_and_network_give_the_same_results() {
    let scheme = scheme();
    let k = "k".to_owned();
    let mut router = server();
    let mut local = InProcessStub::new(calculator(), Calculator::default(), scheme.public_key_of(&k));
    let calls = vec![
        add_call(3),
        get_call(),
        add_call(-1),
        get_call(),
        CallEnvelope { method: "add".to_owned(), params: Params::Named(vec![]) },
        CallEnvelope { method: "nope".to_owned(), params: Params::Positional(vec![]) },
        CallEnvelope { method: "add".to_owned(), params: Params::Positional(vec![Value::Bool(true)]) },
    ];
    for env in calls {
        let over_network = result_of_reply(serve_with(&mut router, &scheme, &"x".to_owned(), &signed_by(&scheme, &env, &k)));
        let in_process = local.call(&env).unwrap();
        assert_eq!(over_network, in_process);
    }
    assert_eq!(local.object().values.get("pub-k"), Some(&2));
}

#[test]
fn authenticate_uses_the_scheme() {
    let scheme = scheme();
    let req = signed_by(&scheme, &get_call(), &"k".to_owned());
    assert_eq!(authenticate(&|b: &Vec<u8>, s: &String, p: &String| scheme.verify(b, s, p), &req), Ok(Value::Text("pub-k".to_owned())));
    let mut bad = req.clone();
    bad.signature = Some("0".to_owned());
    assert_eq!(authenticate(&|b: &Vec<u8>, s: &String, p: &String| scheme.verify(b, s, p), &bad), Err(AuthError::InvalidSignature));
    assert_eq!(scheme.verifications.get(), 2);
}

#[test]
fn reply_bodies_round_trip() {
    let cases = vec![
        (ResultEnvelope::Success(Value::Text("123".to_owned())), r#""123""#),
        (ResultEnvelope::Success(Value::Int(-7)), "-7"),
        (
            ResultEnvelope::Failure(ErrorTag::ArgumentNotFound, "amount".to_owned()),
            r#"{"error":"ArgumentNotFound","detail":"amount"}"#,
        ),
        (
            ResultEnvelope::Failure(ErrorTag::InternalFailure, String::new()),
            r#"{"error":"InternalFailure","detail":""}"#,
        ),
    ];
    for (res, text) in cases {
        let bytes = encode_result(&res);
        assert_eq!(String::from_utf8(bytes.clone()).unwrap(), text);
        let success = matches!(res, ResultEnvelope::Success(_));
        assert_eq!(decode_result(success, &bytes), Some(res));
    }
    assert_eq!(decode_result(false, &br#"{"error":"Nope","detail":""}"#.to_vec()), None);
}

#[test]
fn not_found_reply_carries_its_tag() {
    let res = result_of_reply(Reply::ObjectNotFound("y".to_owned()));
    assert_eq!(res, ResultEnvelope::Failure(ErrorTag::ObjectNotFound, "y".to_owned()));
    let res = result_of_reply(Reply::Unauthorized(AuthError::InvalidSignature));
    assert_eq!(res, ResultEnvelope::Failure(ErrorTag::AuthenticationFailure, String::new()));
}

fn unreachable() -> FnTransport<impl Fn(&CallEnvelope) -> Result<ResultEnvelope, String>> {
    FnTransport::new(|_envelope: &CallEnvelope| Err("connection refused".to_owned()))
}

#[test]
fn stub_returns_values_failures_and_transport_errors() {
    let desc = calculator();
    let local = InProcessStub::new(calculator(), Calculator::default(), "pub-k".to_owned());
    let mut stub = ServiceStub::new(local);
    assert_eq!(stub.call_method(&desc.methods[0], &vec![Value::Int(5)]), Ok(Value::Null));
    assert_eq!(stub.call_method(&desc.methods[1], &vec![]), Ok(Value::Int(5)));
    let mut other = desc.clone();
    other.methods[1].name = "missing".to_owned();
    assert_eq!(
        stub.call_method(&other.methods[1], &vec![]),
        Err(ClientError::Remote(ErrorTag::MethodNotFound, "missing".to_owned()))
    );
    let mut down = ServiceStub::new(unreachable());
    assert_eq!(
        down.call_method(&desc.methods[1], &vec![]),
        Err(ClientError::Transport("connection refused".to_owned()))
    );
}

/// The service of the original integration tests, with no caller identity.
struct SimpleImpl;

impl ServiceObject for SimpleImpl {
    fn invoke(&mut self, method: &String, args: Vec<Value>) -> Option<Value> {
        match (method.as_str(), args.as_slice()) {
            ("f1", [Value::Int(a1), Value::Text(a2), Value::Int(a3)]) => {
                Some(Value::Text(format!("{}{}{}", a1, a2, a3)))
            }
            ("f2", []) => Some(Value::Text("hi".to_owned())),
            ("f3", [Value::Int(_)]) => Some(Value::Null),
            _ => None,
        }
    }
}

fn trait2() -> ServiceDescriptor {
    let mut s = ServiceDescriptor::new("Trait2".to_owned());
    let explicit = vec![
        ("a1".to_owned(), Kind::Integer),
        ("a2".to_owned(), Kind::Text),
        ("a3".to_owned(), Kind::Integer),
    ];
    s.add_method(MethodDescriptor::new(&"f1".to_owned(), &explicit, Kind::Text, true, false, false).unwrap())
        .unwrap();
    s.add_method(MethodDescriptor::new(&"f2".to_owned(), &vec![], Kind::Text, true, false, false).unwrap())
        .unwrap();
    s.add_method(
        MethodDescriptor::new(&"f3".to_owned(), &vec![("a1".to_owned(), Kind::Integer)], Kind::Unit, true, false, false)
            .unwrap(),
    )
    .unwrap();
    s
}

/// A transport that hands signed requests to a router in the same process.
fn loopback(router: Router<SimpleImpl>) -> FnTransport<impl Fn(&CallEnvelope) -> Result<ResultEnvelope, String>> {
    let router = RefCell::new(router);
    FnTransport::new(move |envelope: &CallEnvelope| {
        let scheme = scheme();
        let req = signed_by(&scheme, envelope, &"client".to_owned());
        let reply = serve_with(&mut router.borrow_mut(), &scheme, &"x".to_owned(), &req);
        let success = reply.status() == 200;
        let body = encode_result(&result_of_reply(reply));
        decode_result(success, &body).ok_or_else(|| "unreadable reply".to_owned())
    })
}

fn trait2_server() -> Router<SimpleImpl> {
    let mut router = Router::new();
    router.register("x".to_owned(), trait2(), SimpleImpl).unwrap();
    router
}

fn signed(env: &CallEnvelope) -> AuthenticatedRequest {
    signed_by(&scheme(), env, &"client".to_owned())
}

#[test]
fn test_success() {
    let transport = loopback(trait2_server());
    let mut client = ServiceStub::new(transport);
    let args = vec![Value::Int(1), Value::Text("2".to_owned()), Value::Int(3)];
    let res = client.call_method(&trait2().methods[0], &args).unwrap();
    assert_eq!(res, Value::Text("123".to_owned()));
}

#[test]
fn test_failure0() {
    let mut client = ServiceStub::new(unreachable());
    let args = vec![Value::Int(1), Value::Text("2".to_owned()), Value::Int(3)];
    let res = client.call_method(&trait2().methods[0], &args);
    assert!(res.is_err());
}

#[test]
fn test_failure1() {
    let mut router = trait2_server();
    let env = CallEnvelope { method: "nonexistent-method".to_owned(), params: Params::Named(vec![]) };
    let reply = serve_with(&mut router, &scheme(), &"x".to_owned(), &signed(&env));
    assert_eq!(reply.status(), 500);
}

#[test]
fn test_failure2() {
    let mut router = trait2_server();
    let body = b"This request is not a valid JSON".to_vec();
    let scheme = scheme();
    let k = "client".to_owned();
    let req = AuthenticatedRequest {
        signature: Some(scheme.sign(&body, &k)),
        public_key: Some(scheme.public_key_of(&k)),
        body,
    };
    let reply = serve_with(&mut router, &scheme, &"x".to_owned(), &req);
    assert_eq!(reply.status(), 400);
}

#[test]
fn test_failure3() {
    let mut router = trait2_server();
    let env = CallEnvelope { method: "doesn't matter".to_owned(), params: Params::Named(vec![]) };
    let reply = serve_with(&mut router, &scheme(), &"missing".to_owned(), &signed(&env));
    assert_eq!(reply.status(), 404);
}

#[test]
fn positional_call_through_the_server() {
    let mut router = trait2_server();
    let env = CallEnvelope {
        method: "f1".to_owned(),
        params: Params::Positional(vec![Value::Int(1), Value::Text("2".to_owned()), Value::Int(3)]),
    };
    let reply = serve_with(&mut router, &scheme(), &"x".to_owned(), &signed(&env));
    assert_eq!(reply.status(), 200);
    assert_eq!(String::from_utf8(encode_result(&result_of_reply(reply))).unwrap(), r#""123""#);
}

#[test]
fn add_auth_signs_the_body_with_the_signers_key() {
    let scheme = scheme();
    let k = "k".to_owned();
    let sign = |b: &Vec<u8>| scheme.sign(b, &k);
    let mut req = AuthenticatedRequest { body: b"payload".to_vec(), public_key: None, signature: None };
    serde_tc::auth::add_auth(&sign, &scheme.public_key_of(&k), &mut req);
    let first = req.clone();
    assert_eq!(first.public_key, Some("pub-k".to_owned()));
    assert_eq!(first.signature, Some(checksum("pub-k", b"payload")));
    serde_tc::auth::add_auth(&sign, &scheme.public_key_of(&k), &mut req);
    assert_eq!(req, first);
}
