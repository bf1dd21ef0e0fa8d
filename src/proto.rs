//! Protocol types.
pub mod nfs4;
