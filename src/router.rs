//! The object router of a server, and the pipeline that one request goes
//! through: lookup, authentication, envelope decoding, dispatch.
use crate::auth::{
    authentication, decide_authentication, identity_of, verdict_of, AuthError, AuthenticatedRequest,
};
use crate::descriptor::{service_wf, ServiceDescriptor, ServiceView};
use crate::dispatch::{
    dispatch, fault_result, resolve, Fault, ResultEnvelope, ResultView, ServiceObject,
};
use crate::envelope::{
    decode_envelope, envelope_bytes, envelope_in_range, lemma_envelope_bytes_unique,
    lemma_envelope_view_in_range, EnvelopeView,
};
use crate::value::ValueView;
use vstd::prelude::*;

verus! {

/// One registered object: its key, its descriptor and the object itself.
pub struct Route<S> {
    pub key: String,
    pub descriptor: ServiceDescriptor,
    pub object: S,
}

/// The objects of a server by key, built once at startup.
pub struct Router<S> {
    pub routes: Vec<Route<S>>,
}

/// Why an object could not be registered.
#[derive(Clone, Debug, PartialEq)]
pub enum RouteError {
    /// Another object is registered under this key.
    DuplicateKey(String),
}

/// What a server answers to one request.
#[derive(Clone, Debug, PartialEq)]
pub enum Reply {
    /// The call went through dispatch.
    Dispatched(ResultEnvelope),
    /// No object is registered under the key.
    ObjectNotFound(String),
    /// The request was rejected before dispatch.
    Unauthorized(AuthError),
    /// The body is not the canonical bytes of an envelope.
    MalformedEnvelope,
}

pub enum ReplyView {
    Dispatched(ResultView),
    ObjectNotFound(Seq<char>),
    Unauthorized(AuthError),
    MalformedEnvelope,
}

impl View for Reply {
    type V = ReplyView;

    open spec fn view(&self) -> ReplyView {
        match self {
            Reply::Dispatched(r) => ReplyView::Dispatched(r@),
            Reply::ObjectNotFound(k) => ReplyView::ObjectNotFound(k@),
            Reply::Unauthorized(e) => ReplyView::Unauthorized(*e),
            Reply::MalformedEnvelope => ReplyView::MalformedEnvelope,
        }
    }
}

/// The status code of a reply: not found, unauthorized and a malformed
/// envelope each have their own; a call that dispatch turned into an error is
/// a server error.
pub open spec fn status_of(r: ReplyView) -> u16 {
    match r {
        ReplyView::Dispatched(ResultView::Success(_)) => 200,
        ReplyView::Dispatched(ResultView::Failure(_, _)) => 500,
        ReplyView::ObjectNotFound(_) => 404,
        ReplyView::Unauthorized(_) => 401,
        ReplyView::MalformedEnvelope => 400,
    }
}

impl Reply {
    /// The status code of this reply.
    pub fn status(&self) -> (r: u16)
        ensures
            r == status_of(self@),
    {
        match self {
            Reply::Dispatched(ResultEnvelope::Success(_)) => 200,
            Reply::Dispatched(ResultEnvelope::Failure(_, _)) => 500,
            Reply::ObjectNotFound(_) => 404,
            Reply::Unauthorized(_) => 401,
            Reply::MalformedEnvelope => 400,
        }
    }
}

/// The keys of the routes, in order.
pub open spec fn route_keys<S>(routes: Seq<Route<S>>) -> Seq<Seq<char>> {
    routes.map_values(|r: Route<S>| r.key@)
}

/// Keys are unique and every descriptor is well formed.
pub open spec fn router_wf<S>(routes: Seq<Route<S>>) -> bool {
    &&& forall|i: int, j: int| 0 <= i < j < routes.len() ==> #[trigger] routes[i].key@ != #[trigger] routes[j].key@
    &&& forall|i: int| 0 <= i < routes.len() ==> service_wf(#[trigger] routes[i].descriptor@)
}

/// The route registered under a key, if any.
pub open spec fn route_index(keys: Seq<Seq<char>>, key: Seq<char>) -> Option<int> {
    if exists|i: int| 0 <= i < keys.len() && keys[i] == key {
        Some(choose|i: int| 0 <= i < keys.len() && keys[i] == key)
    } else {
        None
    }
}

/// What the body of a request decodes to: the envelope whose canonical bytes
/// it is, or nothing where there is none.
pub open spec fn decodes_to(body: Seq<u8>, decoded: Option<EnvelopeView>) -> bool {
    match decoded {
        Some(e) => envelope_in_range(e) && envelope_bytes(e) == body,
        None => !exists|e: EnvelopeView| envelope_in_range(e) && #[trigger] envelope_bytes(e) == body,
    }
}

/// How far a request gets before dispatch.
pub enum Stage {
    /// No object under the key: neither authentication nor dispatch is reached.
    NotFound,
    /// Authentication failed: dispatch is not reached.
    Rejected(AuthError),
    /// The verified body is not an envelope.
    Malformed,
    /// Dispatch on the route at this index, of this envelope, with this identity.
    Dispatch(int, EnvelopeView, ValueView),
}

/// The stage a request reaches, given whether its signature is valid and
/// what its body decodes to.
pub open spec fn stage(
    keys: Seq<Seq<char>>,
    key: Seq<char>,
    req: AuthenticatedRequest,
    signature_valid: bool,
    decoded: Option<EnvelopeView>,
) -> Stage {
    match route_index(keys, key) {
        None => Stage::NotFound,
        Some(i) => match authentication(req, signature_valid) {
            Err(e) => Stage::Rejected(e),
            Ok(id) => match decoded {
                None => Stage::Malformed,
                Some(e) => Stage::Dispatch(i, e, id),
            },
        },
    }
}

/// What dispatch may answer to a call: the fault where the call does not
/// resolve, else a value or an internal failure.
pub open spec fn dispatch_answer(res: ResultView, s: ServiceView, e: EnvelopeView, id: ValueView) -> bool {
    match resolve(s, e, id) {
        Err(f) => res == fault_result(f),
        Ok(_) => res is Success || res == fault_result(Fault::InternalFailure),
    }
}

/// Whether a stage reaches an object at all.
pub open spec fn reaches_object<S>(routes: Seq<Route<S>>, st: Stage) -> bool {
    match st {
        Stage::Dispatch(i, e, id) => resolve(routes[i].descriptor@, e, id) is Ok,
        _ => false,
    }
}

/// The reply that a stage leads to.
pub open spec fn reply_for<S>(routes: Seq<Route<S>>, key: Seq<char>, st: Stage, r: ReplyView) -> bool {
    match st {
        Stage::NotFound => r == ReplyView::ObjectNotFound(key),
        Stage::Rejected(e) => r == ReplyView::Unauthorized(e),
        Stage::Malformed => r == ReplyView::MalformedEnvelope,
        Stage::Dispatch(i, e, id) => r matches ReplyView::Dispatched(res) && dispatch_answer(
            res,
            routes[i].descriptor@,
            e,
            id,
        ),
    }
}

/// Keys and descriptors stay; only the object of the route at `i` may change.
pub open spec fn only_object_changed<S>(old_routes: Seq<Route<S>>, new_routes: Seq<Route<S>>, i: int) -> bool {
    &&& new_routes.len() == old_routes.len()
    &&& forall|j: int|
        0 <= j < old_routes.len() ==> (#[trigger] new_routes[j]).key == old_routes[j].key
            && new_routes[j].descriptor == old_routes[j].descriptor
    &&& forall|j: int| 0 <= j < old_routes.len() && j != i ==> #[trigger] new_routes[j] == old_routes[j]
}

impl<S: ServiceObject> Router<S> {
    /// A router with no objects.
    pub fn new() -> (r: Router<S>)
        ensures
            r.routes@.len() == 0,
            router_wf(r.routes@),
    {
        Router { routes: Vec::new() }
    }

    /// The position of the route registered under a key.
    pub fn find(&self, key: &String) -> (r: Option<usize>)
        requires
            router_wf(self.routes@),
        ensures
            r matches Some(i) ==> route_index(route_keys(self.routes@), key@) == Some(i as int),
            r is None ==> route_index(route_keys(self.routes@), key@) is None,
    {
        let ghost keys = route_keys(self.routes@);
        let mut i: usize = 0;
        while i < self.routes.len()
            invariant
                i <= self.routes@.len(),
                keys == route_keys(self.routes@),
                router_wf(self.routes@),
                forall|k: int| 0 <= k < i ==> keys[k] != key@,
            decreases self.routes@.len() - i,
        {
            if self.routes[i].key == *key {
                proof {
                    assert(keys[i as int] == key@);
                    let j = choose|j: int| 0 <= j < keys.len() && keys[j] == key@;
                    if j != i {
                        if j < i {
                            assert(self.routes@[j].key@ != self.routes@[i as int].key@);
                        } else {
                            assert(self.routes@[i as int].key@ != self.routes@[j].key@);
                        }
                    }
                }
                return Some(i);
            }
            i = i + 1;
        }
        None
    }

    /// Whether keys are unique and every descriptor is well formed.
    pub fn is_well_formed(&self) -> (r: bool)
        ensures
            r == router_wf(self.routes@),
    {
        let n = self.routes.len();
        let mut i: usize = 0;
        while i < n
            invariant
                n == self.routes@.len(),
                i <= n,
                forall|a: int, b: int|
                    0 <= a < b < n && a < i ==> #[trigger] self.routes@[a].key@ != #[trigger] self.routes@[b].key@,
                forall|a: int| 0 <= a < i ==> service_wf(#[trigger] self.routes@[a].descriptor@),
            decreases n - i,
        {
            if !self.routes[i].descriptor.is_well_formed() {
                return false;
            }
            let mut j: usize = i + 1;
            while j < n
                invariant
                    n == self.routes@.len(),
                    i < j <= n,
                    forall|b: int| i < b < j ==> self.routes@[i as int].key@ != #[trigger] self.routes@[b].key@,
                decreases n - j,
            {
                if self.routes[i].key == self.routes[j].key {
                    assert(self.routes@[i as int].key@ == self.routes@[j as int].key@);
                    return false;
                }
                j = j + 1;
            }
            i = i + 1;
        }
        true
    }

    /// Registers an object under a key that is not taken yet.
    pub fn register(&mut self, key: String, descriptor: ServiceDescriptor, object: S) -> (r: Result<
        (),
        RouteError,
    >)
        requires
            router_wf(old(self).routes@),
            service_wf(descriptor@),
        ensures
            router_wf(final(self).routes@),
            route_index(route_keys(old(self).routes@), key@) is Some <==> r is Err,
            r is Ok ==> final(self).routes@ == old(self).routes@.push(Route { key, descriptor, object }),
            r matches Err(e) ==> final(self).routes@ == old(self).routes@ && e == RouteError::DuplicateKey(key),
    {
        match self.find(&key) {
            Some(_) => Err(RouteError::DuplicateKey(key)),
            None => {
                let ghost prev = self.routes@;
                let ghost keys = route_keys(prev);
                self.routes.push(Route { key, descriptor, object });
                proof {
                    let rs = self.routes@;
                    assert forall|i: int, j: int| 0 <= i < j < rs.len() implies #[trigger] rs[i].key@
                        != #[trigger] rs[j].key@ by {
                        if j == rs.len() - 1 {
                            assert(keys[i] == prev[i].key@);
                            if keys[i] == rs[j].key@ {
                                assert(route_index(keys, rs[j].key@) is Some);
                            }
                        } else {
                            assert(rs[i] == prev[i] && rs[j] == prev[j]);
                        }
                    }
                    assert forall|i: int| 0 <= i < rs.len() implies service_wf(#[trigger] rs[i].descriptor@) by {
                        if i < prev.len() {
                            assert(rs[i] == prev[i]);
                        }
                    }
                }
                Ok(())
            },
        }
    }

    /// Handles one request once its signature has been checked: the object is
    /// looked up first, then the request is authenticated, then its body is
    /// decoded and dispatched with the verified identity.
    pub fn serve_checked(&mut self, key: &String, req: &AuthenticatedRequest, signature_valid: bool) -> (r:
        Reply)
        requires
            router_wf(old(self).routes@),
        ensures
            router_wf(final(self).routes@),
            exists|decoded: Option<EnvelopeView>|
                {
                    &&& decodes_to(req.body@, decoded)
                    &&& reply_for(
                        old(self).routes@,
                        key@,
                        stage(route_keys(old(self).routes@), key@, *req, signature_valid, decoded),
                        r@,
                    )
                    &&& (!reaches_object(
                        old(self).routes@,
                        stage(route_keys(old(self).routes@), key@, *req, signature_valid, decoded),
                    ) ==> final(self).routes@ == old(self).routes@)
                    &&& (stage(route_keys(old(self).routes@), key@, *req, signature_valid, decoded) matches Stage::Dispatch(i, _, _)
                        ==> only_object_changed(old(self).routes@, final(self).routes@, i))
                },
    {
        let ghost dec = if exists|e: EnvelopeView| envelope_in_range(e) && #[trigger] envelope_bytes(e) == req.body@ {
            Some(choose|e: EnvelopeView| envelope_in_range(e) && #[trigger] envelope_bytes(e) == req.body@)
        } else {
            None
        };
        assert(decodes_to(req.body@, dec));
        let i = match self.find(key) {
            None => {
                assert(reply_for(
                    self.routes@,
                    key@,
                    stage(route_keys(self.routes@), key@, *req, signature_valid, dec),
                    ReplyView::ObjectNotFound(key@),
                ));
                return Reply::ObjectNotFound(key.clone());
            },
            Some(i) => i,
        };
        let identity = match decide_authentication(req, signature_valid) {
            Err(e) => {
                assert(reply_for(
                    self.routes@,
                    key@,
                    stage(route_keys(self.routes@), key@, *req, signature_valid, dec),
                    ReplyView::Unauthorized(e),
                ));
                return Reply::Unauthorized(e);
            },
            Ok(id) => id,
        };
        let env = match decode_envelope(&req.body) {
            None => {
                assert(decodes_to(req.body@, None));
                assert(reply_for(
                    self.routes@,
                    key@,
                    stage(route_keys(self.routes@), key@, *req, signature_valid, None),
                    ReplyView::MalformedEnvelope,
                ));
                return Reply::MalformedEnvelope;
            },
            Some(e) => e,
        };
        proof {
            lemma_envelope_view_in_range(env);
        }
        let ghost old_routes = self.routes@;
        let ghost st = stage(route_keys(old_routes), key@, *req, signature_valid, Some(env@));
        assert(st == Stage::Dispatch(i as int, env@, identity@));
        assert(service_wf(self.routes@[i as int].descriptor@));
        let route = &mut self.routes[i];
        let result = dispatch(&route.descriptor, &mut route.object, &env, &identity);
        proof {
            let rs = self.routes@;
            assert(rs.len() == old_routes.len());
            assert(rs[i as int].key == old_routes[i as int].key);
            assert(rs[i as int].descriptor == old_routes[i as int].descriptor);
            assert forall|j: int| 0 <= j < old_routes.len() && j != i implies #[trigger] rs[j] == old_routes[j] by {}
            assert forall|j: int| 0 <= j < old_routes.len() implies (#[trigger] rs[j]).key == old_routes[j].key
                && rs[j].descriptor == old_routes[j].descriptor by {}
            if !reaches_object(old_routes, st) {
                assert(rs =~= old_routes);
            }
            assert forall|a: int| 0 <= a < rs.len() implies service_wf(#[trigger] rs[a].descriptor@) by {
                assert(rs[a].descriptor == old_routes[a].descriptor);
            }
            assert forall|a: int, b: int| 0 <= a < b < rs.len() implies #[trigger] rs[a].key@
                != #[trigger] rs[b].key@ by {
                assert(rs[a].key == old_routes[a].key && rs[b].key == old_routes[b].key);
            }
        }
        Reply::Dispatched(result)
    }

    /// Handles one request: looks the object up, checks the signature over the
    /// received bytes with the scheme, then decodes and dispatches. The scheme
    /// is not consulted for a request whose key names no object.
    pub fn serve<F: Fn(&Vec<u8>, &String, &String) -> bool>(
        &mut self,
        check: &F,
        key: &String,
        req: &AuthenticatedRequest,
    ) -> (r: Reply)
        requires
            router_wf(old(self).routes@),
            forall|b: &Vec<u8>, s: &String, k: &String| call_requires(*check, (b, s, k)),
        ensures
            router_wf(final(self).routes@),
            route_index(route_keys(old(self).routes@), key@) is None ==> r@ == ReplyView::ObjectNotFound(key@)
                && final(self).routes@ == old(self).routes@,
            route_index(route_keys(old(self).routes@), key@) is Some ==> exists|
                valid: bool,
                decoded: Option<EnvelopeView>,
            |
                {
                    &&& verdict_of(*check, *req, valid)
                    &&& decodes_to(req.body@, decoded)
                    &&& reply_for(
                        old(self).routes@,
                        key@,
                        stage(route_keys(old(self).routes@), key@, *req, valid, decoded),
                        r@,
                    )
                    &&& (!reaches_object(
                        old(self).routes@,
                        stage(route_keys(old(self).routes@), key@, *req, valid, decoded),
                    ) ==> final(self).routes@ == old(self).routes@)
                    &&& (stage(route_keys(old(self).routes@), key@, *req, valid, decoded) matches Stage::Dispatch(i, _, _)
                        ==> only_object_changed(old(self).routes@, final(self).routes@, i))
                },
    {
        if self.find(key).is_none() {
            return Reply::ObjectNotFound(key.clone());
        }
        let valid = match (&req.public_key, &req.signature) {
            (Some(k), Some(s)) => check(&req.body, s, k),
            _ => false,
        };
        self.serve_checked(key, req, valid)
    }
}


/// Object not found: a request whose key names no registered object stops at
/// routing, whatever its signature and body; it reaches neither
/// authentication nor an object.
pub proof fn lemma_object_not_found<S>(
    routes: Seq<Route<S>>,
    key: Seq<char>,
    req: AuthenticatedRequest,
    signature_valid: bool,
    decoded: Option<EnvelopeView>,
)
    requires
        forall|i: int| 0 <= i < routes.len() ==> (#[trigger] routes[i]).key@ != key,
    ensures
        stage(route_keys(routes), key, req, signature_valid, decoded) == Stage::NotFound,
        !reaches_object(routes, stage(route_keys(routes), key, req, signature_valid, decoded)),
{
    let keys = route_keys(routes);
    assert(!exists|i: int| 0 <= i < keys.len() && keys[i] == key) by {
        assert forall|i: int| 0 <= i < keys.len() implies keys[i] != key by {
            assert(keys[i] == routes[i].key@);
        }
    }
}

/// Tamper detection: a request to a registered object whose signature does
/// not check out over the received bytes is rejected as an authentication
/// failure and reaches no object.
pub proof fn lemma_tampered_request_rejected<S>(
    routes: Seq<Route<S>>,
    key: Seq<char>,
    req: AuthenticatedRequest,
    decoded: Option<EnvelopeView>,
)
    requires
        route_index(route_keys(routes), key) is Some,
        req.public_key is Some,
        req.signature is Some,
    ensures
        stage(route_keys(routes), key, req, false, decoded) == Stage::Rejected(AuthError::InvalidSignature),
        !reaches_object(routes, stage(route_keys(routes), key, req, false, decoded)),
{
}

/// Identity injection parity: a request that carries the canonical bytes of an
/// envelope and whose signature checks out is dispatched, whatever its body
/// decoded to, as exactly that envelope with the signer's public key as
/// identity; so the server answers as an in-process call of the same envelope
/// by the holder of that key does.
pub proof fn lemma_transport_parity<S>(
    routes: Seq<Route<S>>,
    key: Seq<char>,
    req: AuthenticatedRequest,
    sent: EnvelopeView,
    decoded: EnvelopeView,
    res: ResultView,
)
    requires
        router_wf(routes),
        route_index(route_keys(routes), key) is Some,
        req.public_key is Some,
        req.signature is Some,
        req.body@ == envelope_bytes(sent),
        envelope_bytes(decoded) == req.body@,
    ensures
        ({
            let i = route_index(route_keys(routes), key)->0;
            &&& stage(route_keys(routes), key, req, true, Some(decoded)) == Stage::Dispatch(
                i,
                sent,
                identity_of(req.public_key->0@),
            )
            &&& reply_for(
                routes,
                key,
                stage(route_keys(routes), key, req, true, Some(decoded)),
                ReplyView::Dispatched(res),
            ) == dispatch_answer(res, routes[i].descriptor@, sent, ValueView::Text(req.public_key->0@))
        }),
{
    lemma_envelope_bytes_unique(decoded, sent);
}

} // verus!
