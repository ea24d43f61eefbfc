//! Remote method dispatch for service objects: a value model with a canonical
//! byte encoding, service descriptors, a call encoder, a dispatch engine, an
//! authentication layer and an object router.
pub mod value;
pub mod descriptor;
pub mod envelope;
pub mod dispatch;
pub mod auth;
pub mod router;
pub mod stub;
pub mod types;
