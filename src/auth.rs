//! The authentication layer: the client signs the canonical bytes of an
//! envelope; the server checks the signature over the bytes it received and
//! derives the caller's identity from the signer's public key.
use crate::envelope::{encode_envelope, envelope_bytes, CallEnvelope};
use crate::value::{Value, ValueView};
use vstd::prelude::*;

verus! {

/// A request as the network carries it: the envelope's bytes, and the signer's
/// public key and signature out of band.
#[derive(Clone, Debug, PartialEq)]
pub struct AuthenticatedRequest {
    pub body: Vec<u8>,
    pub public_key: Option<String>,
    pub signature: Option<String>,
}

/// Why a request was rejected before dispatch.
#[derive(Clone, Copy, Debug, PartialEq, Eq, Structural)]
pub enum AuthError {
    MissingPublicKey,
    MissingSignature,
    InvalidSignature,
}

/// The identity that a verified public key stands for in an invocation.
pub open spec fn identity_of(public_key: Seq<char>) -> ValueView {
    ValueView::Text(public_key)
}

/// What the server decides on a request, given whether its signature checks
/// out over the received bytes.
pub open spec fn authentication(req: AuthenticatedRequest, signature_valid: bool) -> Result<ValueView, AuthError> {
    match req.public_key {
        None => Err(AuthError::MissingPublicKey),
        Some(k) => match req.signature {
            None => Err(AuthError::MissingSignature),
            Some(_) => if signature_valid {
                Ok(identity_of(k@))
            } else {
                Err(AuthError::InvalidSignature)
            },
        },
    }
}

/// The model of an authentication outcome.
pub open spec fn auth_outcome(r: Result<Value, AuthError>) -> Result<ValueView, AuthError> {
    match r {
        Ok(v) => Ok(v@),
        Err(e) => Err(e),
    }
}

/// Whether `valid` is a verdict that a signature check can give on a request:
/// where both credentials are there, one that the check gives on the received
/// body, the signature and the key; where one is missing, no check is made.
pub open spec fn verdict_of<F: Fn(&Vec<u8>, &String, &String) -> bool>(
    check: F,
    req: AuthenticatedRequest,
    valid: bool,
) -> bool {
    if req.public_key is Some && req.signature is Some {
        call_ensures(check, (&req.body, &req.signature->0, &req.public_key->0), valid)
    } else {
        !valid
    }
}

/// Adds the signer's public key and a signature over the body to a request;
/// the body itself is left as it is, so the bytes signed are the bytes sent.
pub fn add_auth<F: Fn(&Vec<u8>) -> String>(sign: &F, public_key: &String, req: &mut AuthenticatedRequest)
    requires
        call_requires(*sign, (&old(req).body,)),
    ensures
        final(req).body == old(req).body,
        final(req).public_key == Some(*public_key),
        final(req).signature matches Some(s) && call_ensures(*sign, (&old(req).body,), s),
{
    let signature = sign(&req.body);
    req.public_key = Some(public_key.clone());
    req.signature = Some(signature);
}

/// Signs a call: the body is the envelope's canonical bytes, signed as they
/// are, with the signer's public key beside them.
pub fn sign_request<F: Fn(&Vec<u8>) -> String>(sign: &F, public_key: &String, env: &CallEnvelope) -> (r:
    AuthenticatedRequest)
    requires
        forall|b: &Vec<u8>| call_requires(*sign, (b,)),
    ensures
        r.body@ == envelope_bytes(env@),
        r.public_key == Some(*public_key),
        r.signature matches Some(s) && call_ensures(*sign, (&r.body,), s),
{
    let mut req = AuthenticatedRequest { body: encode_envelope(env), public_key: None, signature: None };
    add_auth(sign, public_key, &mut req);
    req
}

/// Decides on a request once the signature has been checked.
pub fn decide_authentication(req: &AuthenticatedRequest, signature_valid: bool) -> (r: Result<
    Value,
    AuthError,
>)
    ensures
        auth_outcome(r) == authentication(*req, signature_valid),
{
    match &req.public_key {
        None => Err(AuthError::MissingPublicKey),
        Some(k) => match &req.signature {
            None => Err(AuthError::MissingSignature),
            Some(_) => {
                if signature_valid {
                    Ok(Value::Text(k.clone()))
                } else {
                    Err(AuthError::InvalidSignature)
                }
            },
        },
    }
}

/// Checks a request's signature over the bytes received, and decides. The
/// check is made only when both the key and the signature are present.
pub fn authenticate<F: Fn(&Vec<u8>, &String, &String) -> bool>(check: &F, req: &AuthenticatedRequest) -> (r:
    Result<Value, AuthError>)
    requires
        forall|b: &Vec<u8>, s: &String, k: &String| call_requires(*check, (b, s, k)),
    ensures
        exists|valid: bool| verdict_of(*check, *req, valid) && auth_outcome(r) == authentication(*req, valid),
{
    let valid = match (&req.public_key, &req.signature) {
        (Some(k), Some(s)) => check(&req.body, s, k),
        _ => false,
    };
    decide_authentication(req, valid)
}

} // verus!
