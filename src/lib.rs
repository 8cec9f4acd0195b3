//! Certificate bundle parsing: PEM/DER framing, identity extraction,
//! heuristic chain reconstruction and server bundle composition.
use vstd::prelude::*;

pub mod record;
pub mod chain;
pub mod bundle;
pub mod text;
pub mod framing;
pub mod x509;
pub mod dispatch;
pub mod roundtrip;

verus! {

} // verus!
