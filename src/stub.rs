//! The client side: what a server's reply carries back, transports that
//! carry a call, and a stub that turns a typed call into a result.
use crate::descriptor::{explicit_params, method_wf, MethodDescriptor, ServiceDescriptor, service_wf};
use crate::dispatch::{dispatch, fault_result, resolve, ErrorTag, ResultEnvelope, ResultView, ServiceObject};
use crate::envelope::{encode_named, named_envelope, write_bytes, CallEnvelope, EnvelopeView};
use crate::router::{dispatch_answer, Reply, ReplyView};
use crate::value::{
    lemma_text_unique, lemma_value_unique, parse_literal, parse_text_at, parse_value_at, text_bytes, value_at,
    value_bytes, value_in_range, values_view, write_text, write_value, Value, ValueView,
};
use vstd::prelude::*;

verus! {

/// The name of an error tag on the wire.
pub open spec fn tag_text(t: ErrorTag) -> Seq<char> {
    match t {
        ErrorTag::MethodNotFound => "MethodNotFound"@,
        ErrorTag::ArgumentNotFound => "ArgumentNotFound"@,
        ErrorTag::ArgumentCountMismatch => "ArgumentCountMismatch"@,
        ErrorTag::ParseFailure => "ParseFailure"@,
        ErrorTag::AuthenticationFailure => "AuthenticationFailure"@,
        ErrorTag::ObjectNotFound => "ObjectNotFound"@,
        ErrorTag::TransportFailure => "TransportFailure"@,
        ErrorTag::InternalFailure => "InternalFailure"@,
    }
}

/// The name of an error tag on the wire.
pub fn tag_name(t: ErrorTag) -> (r: &'static str)
    ensures
        r@ == tag_text(t),
{
    match t {
        ErrorTag::MethodNotFound => "MethodNotFound",
        ErrorTag::ArgumentNotFound => "ArgumentNotFound",
        ErrorTag::ArgumentCountMismatch => "ArgumentCountMismatch",
        ErrorTag::ParseFailure => "ParseFailure",
        ErrorTag::AuthenticationFailure => "AuthenticationFailure",
        ErrorTag::ObjectNotFound => "ObjectNotFound",
        ErrorTag::TransportFailure => "TransportFailure",
        ErrorTag::InternalFailure => "InternalFailure",
    }
}

/// Distinct tags have distinct names.
pub proof fn lemma_tag_text_injective(t: ErrorTag, u: ErrorTag)
    requires
        tag_text(t) == tag_text(u),
    ensures
        t == u,
{
    reveal_strlit("MethodNotFound");
    reveal_strlit("ArgumentNotFound");
    reveal_strlit("ArgumentCountMismatch");
    reveal_strlit("ParseFailure");
    reveal_strlit("AuthenticationFailure");
    reveal_strlit("ObjectNotFound");
    reveal_strlit("TransportFailure");
    reveal_strlit("InternalFailure");
    assert("MethodNotFound"@.len() == 14 && "MethodNotFound"@[0] == 'M' && "MethodNotFound"@[1] == 'e');
    assert("ArgumentNotFound"@.len() == 16 && "ArgumentNotFound"@[0] == 'A' && "ArgumentNotFound"@[1] == 'r');
    assert("ArgumentCountMismatch"@.len() == 21 && "ArgumentCountMismatch"@[0] == 'A' && "ArgumentCountMismatch"@[1] == 'r');
    assert("ParseFailure"@.len() == 12 && "ParseFailure"@[0] == 'P' && "ParseFailure"@[1] == 'a');
    assert("AuthenticationFailure"@.len() == 21 && "AuthenticationFailure"@[0] == 'A' && "AuthenticationFailure"@[1] == 'u');
    assert("ObjectNotFound"@.len() == 14 && "ObjectNotFound"@[0] == 'O' && "ObjectNotFound"@[1] == 'b');
    assert("TransportFailure"@.len() == 16 && "TransportFailure"@[0] == 'T' && "TransportFailure"@[1] == 'r');
    assert("InternalFailure"@.len() == 15 && "InternalFailure"@[0] == 'I' && "InternalFailure"@[1] == 'n');
    if t != u {
        assert(tag_text(t).len() != tag_text(u).len() || tag_text(t)[0] != tag_text(u)[0] || tag_text(t)[1]
            != tag_text(u)[1]);
    }
}

fn tag_matches(s: &String, t: ErrorTag) -> (r: bool)
    ensures
        r == (s@ == tag_text(t)),
{
    *s == tag_name(t).to_string()
}

/// The tag with the given wire name, if any.
pub fn tag_of_name(s: &String) -> (r: Option<ErrorTag>)
    ensures
        r matches Some(t) ==> tag_text(t) == s@,
        forall|t: ErrorTag| #[trigger] tag_text(t) == s@ ==> r == Some(t),
{
    let tags: [ErrorTag; 8] = [
        ErrorTag::MethodNotFound,
        ErrorTag::ArgumentNotFound,
        ErrorTag::ArgumentCountMismatch,
        ErrorTag::ParseFailure,
        ErrorTag::AuthenticationFailure,
        ErrorTag::ObjectNotFound,
        ErrorTag::TransportFailure,
        ErrorTag::InternalFailure,
    ];
    let mut i: usize = 0;
    while i < 8
        invariant
            i <= 8,
            tags@ == seq![
                ErrorTag::MethodNotFound,
                ErrorTag::ArgumentNotFound,
                ErrorTag::ArgumentCountMismatch,
                ErrorTag::ParseFailure,
                ErrorTag::AuthenticationFailure,
                ErrorTag::ObjectNotFound,
                ErrorTag::TransportFailure,
                ErrorTag::InternalFailure,
            ],
            forall|j: int| 0 <= j < i ==> tag_text(#[trigger] tags@[j]) != s@,
        decreases 8 - i,
    {
        if tag_matches(s, tags[i]) {
            proof {
                assert forall|t: ErrorTag| #[trigger] tag_text(t) == s@ implies tags@[i as int] == t by {
                    lemma_tag_text_injective(t, tags@[i as int]);
                }
            }
            return Some(tags[i]);
        }
        i = i + 1;
    }
    proof {
        assert forall|t: ErrorTag| #[trigger] tag_text(t) != s@ by {
            let j: int = match t {
                ErrorTag::MethodNotFound => 0,
                ErrorTag::ArgumentNotFound => 1,
                ErrorTag::ArgumentCountMismatch => 2,
                ErrorTag::ParseFailure => 3,
                ErrorTag::AuthenticationFailure => 4,
                ErrorTag::ObjectNotFound => 5,
                ErrorTag::TransportFailure => 6,
                ErrorTag::InternalFailure => 7,
            };
            assert(tags@[j] == t);
        }
    }
    None
}

/// The result that a reply stands for: a dispatched result as it is; the
/// conditions that stop a request before dispatch as failures of their own.
pub open spec fn reply_result(r: ReplyView) -> ResultView {
    match r {
        ReplyView::Dispatched(res) => res,
        ReplyView::ObjectNotFound(k) => ResultView::Failure(ErrorTag::ObjectNotFound, k),
        ReplyView::Unauthorized(_) => ResultView::Failure(ErrorTag::AuthenticationFailure, Seq::empty()),
        ReplyView::MalformedEnvelope => ResultView::Failure(ErrorTag::ParseFailure, Seq::empty()),
    }
}

/// The result that a reply stands for.
pub fn result_of_reply(r: Reply) -> (res: ResultEnvelope)
    ensures
        res@ == reply_result(r@),
{
    match r {
        Reply::Dispatched(res) => res,
        Reply::ObjectNotFound(k) => ResultEnvelope::Failure(ErrorTag::ObjectNotFound, k),
        Reply::Unauthorized(_) => ResultEnvelope::Failure(ErrorTag::AuthenticationFailure, String::new()),
        Reply::MalformedEnvelope => ResultEnvelope::Failure(ErrorTag::ParseFailure, String::new()),
    }
}

/// `{"error":`
pub open spec fn error_prefix() -> Seq<u8> {
    seq![123u8, 34u8, 101u8, 114u8, 114u8, 111u8, 114u8, 34u8, 58u8]
}

/// `,"detail":`
pub open spec fn detail_prefix() -> Seq<u8> {
    seq![44u8, 34u8, 100u8, 101u8, 116u8, 97u8, 105u8, 108u8, 34u8, 58u8]
}

/// The body of a reply: the value itself on success, else
/// `{"error":"<tag>","detail":"<detail>"}`.
pub open spec fn result_bytes(r: ResultView) -> Seq<u8> {
    match r {
        ResultView::Success(v) => value_bytes(v),
        ResultView::Failure(t, d) => error_prefix() + text_bytes(tag_text(t)) + detail_prefix()
            + text_bytes(d) + seq![125u8],
    }
}

/// The body of a reply.
pub fn encode_result(r: &ResultEnvelope) -> (b: Vec<u8>)
    ensures
        b@ == result_bytes(r@),
{
    let mut out: Vec<u8> = Vec::new();
    match r {
        ResultEnvelope::Success(v) => {
            write_value(v, &mut out);
        },
        ResultEnvelope::Failure(t, d) => {
            let head: [u8; 9] = [123, 34, 101, 114, 114, 111, 114, 34, 58];
            let mid: [u8; 10] = [44, 34, 100, 101, 116, 97, 105, 108, 34, 58];
            assert(head@ =~= error_prefix());
            assert(mid@ =~= detail_prefix());
            write_bytes(head.as_slice(), &mut out);
            write_text(tag_name(*t), &mut out);
            write_bytes(mid.as_slice(), &mut out);
            write_text(d.as_str(), &mut out);
            out.push(125);
        },
    }
    assert(out@ =~= result_bytes(r@));
    out
}

/// A result that the representation can hold.
pub open spec fn result_in_range(r: ResultView) -> bool {
    match r {
        ResultView::Success(v) => value_in_range(v),
        ResultView::Failure(_, _) => true,
    }
}

proof fn lemma_failure_layout(b: Seq<u8>, t: ErrorTag, d: Seq<char>)
    requires
        b == result_bytes(ResultView::Failure(t, d)),
    ensures
        ({
            let nl = text_bytes(tag_text(t)).len() as int;
            let dl = text_bytes(d).len() as int;
            &&& b.len() > 9
            &&& b.subrange(0, 9) == error_prefix()
            &&& b.subrange(9, b.len() as int) == text_bytes(tag_text(t)) + (detail_prefix() + text_bytes(d)
                + seq![125u8])
            &&& b.len() > 19 + nl
            &&& b.subrange(9 + nl, 19 + nl) == detail_prefix()
            &&& b.subrange(19 + nl, b.len() as int) == text_bytes(d) + seq![125u8]
            &&& b.len() == 20 + nl + dl
        }),
{
    let nl = text_bytes(tag_text(t)).len() as int;
    let tail = detail_prefix() + text_bytes(d) + seq![125u8];
    assert(b =~= error_prefix() + (text_bytes(tag_text(t)) + tail));
    assert(b.subrange(0, 9) =~= error_prefix());
    assert(b.subrange(9, b.len() as int) =~= text_bytes(tag_text(t)) + tail);
    assert(b.subrange(9 + nl, 19 + nl) =~= detail_prefix());
    assert(b.subrange(19 + nl, b.len() as int) =~= text_bytes(d) + seq![125u8]);
}

/// Reply bodies decode uniquely, given whether the status says success.
pub proof fn lemma_result_bytes_unique(r: ResultView, s: ResultView)
    requires
        result_bytes(r) == result_bytes(s),
        r is Success <==> s is Success,
    ensures
        r == s,
{
    match (r, s) {
        (ResultView::Success(v), ResultView::Success(w)) => {
            assert(value_bytes(v) + Seq::<u8>::empty() =~= value_bytes(w) + Seq::<u8>::empty());
            lemma_value_unique(v, w, Seq::empty(), Seq::empty());
        },
        (ResultView::Failure(t, d), ResultView::Failure(u, e)) => {
            let b = result_bytes(r);
            lemma_failure_layout(b, t, d);
            lemma_failure_layout(b, u, e);
            let w = b.subrange(9, b.len() as int);
            lemma_text_unique(
                tag_text(t),
                tag_text(u),
                detail_prefix() + text_bytes(d) + seq![125u8],
                detail_prefix() + text_bytes(e) + seq![125u8],
            );
            lemma_tag_text_injective(t, u);
            let x = detail_prefix() + text_bytes(d) + seq![125u8];
            let y = detail_prefix() + text_bytes(e) + seq![125u8];
            assert(x.subrange(10, x.len() as int) =~= text_bytes(d) + seq![125u8]);
            assert(y.subrange(10, y.len() as int) =~= text_bytes(e) + seq![125u8]);
            lemma_text_unique(d, e, seq![125u8], seq![125u8]);
        },
        _ => {},
    }
}

/// Reads a reply body: a value when the status says success, else an error
/// object. It accepts exactly the canonical bodies of results of that kind
/// (with integers within range) and returns the result they are the body of.
pub fn decode_result(success: bool, b: &Vec<u8>) -> (r: Option<ResultEnvelope>)
    ensures
        r matches Some(res) ==> result_bytes(res@) == b@ && (res is Success <==> success),
        forall|res: ResultView|
            result_in_range(res) && (res is Success <==> success) && #[trigger] result_bytes(res) == b@ ==> (r matches Some(
                d,
            ) && d@ == res),
{
    let ghost canon = exists|res: ResultView|
        result_in_range(res) && (res is Success <==> success) && #[trigger] result_bytes(res) == b@;
    let ghost target = choose|res: ResultView|
        result_in_range(res) && (res is Success <==> success) && #[trigger] result_bytes(res) == b@;
    proof {
        assert forall|res: ResultView|
            result_in_range(res) && (res is Success <==> success) && #[trigger] result_bytes(res) == b@ implies canon
            && res == target by {
            lemma_result_bytes_unique(res, target);
        }
    }
    if success {
        proof {
            if canon {
                if let ResultView::Success(v) = target {
                    assert(b@.subrange(0, b.len() as int) =~= value_bytes(v) + Seq::<u8>::empty());
                    assert(value_at(b@.subrange(0, b.len() as int), v, Seq::empty()));
                }
            }
        }
        match parse_value_at(b, 0) {
            Some((v, end)) => {
                if end != b.len() {
                    return None;
                }
                assert(b@.subrange(0, end as int) =~= b@);
                let res = ResultEnvelope::Success(v);
                proof {
                    if canon {
                        lemma_result_bytes_unique(res@, target);
                    }
                }
                Some(res)
            },
            None => None,
        }
    } else {
        proof {
            if canon {
                if let ResultView::Failure(t, d) = target {
                    lemma_failure_layout(b@, t, d);
                }
            }
        }
        let head: [u8; 9] = [123, 34, 101, 114, 114, 111, 114, 34, 58];
        let mid: [u8; 10] = [44, 34, 100, 101, 116, 97, 105, 108, 34, 58];
        assert(head@ =~= error_prefix());
        assert(mid@ =~= detail_prefix());
        if !parse_literal(b, 0, head.as_slice()) || b.len() <= 9 {
            return None;
        }
        let (name, nend) = match parse_text_at(b, 9) {
            None => {
                return None;
            },
            Some(x) => x,
        };
        let tag = match tag_of_name(&name) {
            None => {
                return None;
            },
            Some(t) => t,
        };
        if !parse_literal(b, nend, mid.as_slice()) || b.len() <= nend + 10 {
            return None;
        }
        let (detail, dend) = match parse_text_at(b, nend + 10) {
            None => {
                return None;
            },
            Some(x) => x,
        };
        if dend >= b.len() || dend + 1 != b.len() || b[dend] != 125 {
            return None;
        }
        let res = ResultEnvelope::Failure(tag, detail);
        proof {
            assert(b@ =~= b@.subrange(0, 9) + b@.subrange(9, nend as int) + b@.subrange(
                nend as int,
                nend + 10,
            ) + b@.subrange(nend + 10, dend as int) + b@.subrange(dend as int, dend + 1));
            assert(b@.subrange(dend as int, dend + 1) =~= seq![125u8]);
            assert(b@ =~= result_bytes(res@));
            if canon {
                lemma_result_bytes_unique(res@, target);
            }
        }
        Some(res)
    }
}

// ---------------------------------------------------------------------------
// Transports and stubs
/// A transport: carries one call to its destination and brings its result
/// back, or says why it could not.
pub trait StubCall {
    /// The calls carried so far, each envelope with what came back for it.
    spec fn exchanges(&self) -> Seq<(EnvelopeView, Answer)>;

    /// Carries one call and records it.
    fn call(&mut self, envelope: &CallEnvelope) -> (r: Result<ResultEnvelope, String>)
        ensures
            final(self).exchanges() == old(self).exchanges().push((envelope@, answer_of(r))),
    ;
}

/// What came back for a call: a result, or why the transport failed.
pub type Answer = Result<ResultView, Seq<char>>;

/// The model of what a transport hands back.
pub open spec fn answer_of(r: Result<ResultEnvelope, String>) -> Answer {
    match r {
        Ok(res) => Ok(res@),
        Err(e) => Err(e@),
    }
}

/// A client object bound to a transport.
pub trait Stub: Sized {
    type Transport: StubCall;

    fn new(transport: Self::Transport) -> Self;
}

/// Why a typed call did not return a value.
#[derive(Clone, Debug, PartialEq)]
pub enum ClientError {
    /// The far end answered with this failure.
    Remote(ErrorTag, String),
    /// The call did not reach the far end, or its answer could not be read.
    Transport(String),
}

/// The transport of a caller in the same process as the object: the call is
/// dispatched directly, with the caller's public key as its identity.
pub struct InProcessStub<S> {
    descriptor: ServiceDescriptor,
    object: S,
    public_key: String,
    log: Ghost<Seq<(EnvelopeView, Answer)>>,
}

impl<S> InProcessStub<S> {
    /// The descriptor of the object.
    pub closed spec fn spec_descriptor(&self) -> ServiceDescriptor {
        self.descriptor
    }

    /// The object.
    pub closed spec fn spec_object(&self) -> S {
        self.object
    }

    /// The caller's public key.
    pub closed spec fn spec_public_key(&self) -> String {
        self.public_key
    }
}

impl<S: ServiceObject> InProcessStub<S> {
    pub fn new(descriptor: ServiceDescriptor, object: S, public_key: String) -> (r: InProcessStub<S>)
        requires
            service_wf(descriptor@),
        ensures
            r.spec_descriptor() == descriptor,
            r.spec_object() == object,
            r.spec_public_key() == public_key,
            r.exchanges().len() == 0,
    {
        InProcessStub { descriptor, object, public_key, log: Ghost(Seq::empty()) }
    }

    /// The object the calls go to.
    pub fn object(&self) -> (r: &S)
        ensures
            *r == self.spec_object(),
    {
        &self.object
    }

    /// Dispatches a call on the object with the caller's identity.
    pub fn call_direct(&mut self, envelope: &CallEnvelope) -> (r: ResultEnvelope)
        requires
            service_wf(old(self).spec_descriptor()@),
        ensures
            final(self).spec_descriptor() == old(self).spec_descriptor(),
            final(self).spec_public_key() == old(self).spec_public_key(),
            resolve(
                old(self).spec_descriptor()@,
                envelope@,
                ValueView::Text(old(self).spec_public_key()@),
            ) matches Err(f) ==> r@ == fault_result(f) && final(self).spec_object() == old(
                self,
            ).spec_object(),
            dispatch_answer(
                r@,
                old(self).spec_descriptor()@,
                envelope@,
                ValueView::Text(old(self).spec_public_key()@),
            ),
    {
        let identity = Value::Text(self.public_key.clone());
        dispatch(&self.descriptor, &mut self.object, envelope, &identity)
    }
}

impl<S: ServiceObject> StubCall for InProcessStub<S> {
    closed spec fn exchanges(&self) -> Seq<(EnvelopeView, Answer)> {
        self.log@
    }

    fn call(&mut self, envelope: &CallEnvelope) -> (r: Result<ResultEnvelope, String>) {
        let ghost prev = self.log@;
        let r = if !self.descriptor.is_well_formed() {
            Err("the service descriptor is not well formed".to_string())
        } else {
            Ok(self.call_direct(envelope))
        };
        self.log = Ghost(prev.push((envelope@, answer_of(r))));
        r
    }
}

/// A transport made of a function that carries one call; it keeps the record
/// of the calls carried.
pub struct FnTransport<F: Fn(&CallEnvelope) -> Result<ResultEnvelope, String>> {
    carry: F,
    log: Ghost<Seq<(EnvelopeView, Answer)>>,
}

impl<F: Fn(&CallEnvelope) -> Result<ResultEnvelope, String>> FnTransport<F> {
    #[verifier::type_invariant]
    spec fn inv(&self) -> bool {
        forall|e: &CallEnvelope| call_requires(self.carry, (e,))
    }

    /// A transport that carries each call with `carry`.
    pub fn new(carry: F) -> (r: FnTransport<F>)
        requires
            forall|e: &CallEnvelope| call_requires(carry, (e,)),
        ensures
            r.exchanges().len() == 0,
    {
        FnTransport { carry, log: Ghost(Seq::empty()) }
    }
}

impl<F: Fn(&CallEnvelope) -> Result<ResultEnvelope, String>> StubCall for FnTransport<F> {
    closed spec fn exchanges(&self) -> Seq<(EnvelopeView, Answer)> {
        self.log@
    }

    fn call(&mut self, envelope: &CallEnvelope) -> (r: Result<ResultEnvelope, String>) {
        proof {
            use_type_invariant(&*self);
        }
        let r = (self.carry)(envelope);
        let ghost prev = self.log@;
        self.log = Ghost(prev.push((envelope@, answer_of(r))));
        r
    }
}

/// A typed client of one service over a transport.
pub struct ServiceStub<C> {
    pub transport: C,
}

/// Turns the result that came back into the outcome of a typed call.
pub fn finish_call(r: ResultEnvelope) -> (o: Result<Value, ClientError>)
    ensures
        r@ matches ResultView::Success(v) ==> o matches Ok(w) && w@ == v,
        r@ matches ResultView::Failure(t, d) ==> o matches Err(ClientError::Remote(u, e)) && u == t && e@ == d,
{
    match r {
        ResultEnvelope::Success(v) => Ok(v),
        ResultEnvelope::Failure(t, d) => Err(ClientError::Remote(t, d)),
    }
}

/// How a typed call ends for what the transport brought back.
pub open spec fn call_outcome(came_back: Answer, r: Result<Value, ClientError>) -> bool {
    match came_back {
        Err(e) => r matches Err(ClientError::Transport(x)) && x@ == e,
        Ok(ResultView::Success(v)) => r matches Ok(w) && w@ == v,
        Ok(ResultView::Failure(t, d)) => r matches Err(ClientError::Remote(u, e)) && u == t && e@ == d,
    }
}

impl<C: StubCall> Stub for ServiceStub<C> {
    type Transport = C;

    fn new(transport: C) -> Self {
        ServiceStub { transport }
    }
}

impl<C: StubCall> ServiceStub<C> {
    /// Calls a method: the arguments go out in named form, and the result that
    /// comes back is returned as a value or as the failure it carries; a
    /// transport that fails gives a transport error.
    pub fn call_method(&mut self, m: &MethodDescriptor, args: &Vec<Value>) -> (r: Result<Value, ClientError>)
        requires
            method_wf(m@),
            args@.len() == explicit_params(m@).len(),
        ensures
            final(self).transport.exchanges().len() == old(self).transport.exchanges().len() + 1,
            final(self).transport.exchanges().drop_last() == old(self).transport.exchanges(),
            final(self).transport.exchanges().last().0 == named_envelope(m@, values_view(args@)),
            call_outcome(final(self).transport.exchanges().last().1, r),
    {
        let env = encode_named(m, args);
        let came_back = self.transport.call(&env);
        let ghost kept = answer_of(came_back);
        let r = match came_back {
            Err(e) => Err(ClientError::Transport(e)),
            Ok(res) => finish_call(res),
        };
        assert(call_outcome(kept, r));
        assert(self.transport.exchanges().drop_last() =~= old(self).transport.exchanges());
        r
    }
}

} // verus!
