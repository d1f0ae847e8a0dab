//! Contact constraint bookkeeping.
pub mod contact_manifold;
