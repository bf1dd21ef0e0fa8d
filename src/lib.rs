//! Server-side wire protocol layer of an NFS version 4.2 file service.
//!
//! The crate holds the XDR codec, ONC RPC record marking, the call and reply
//! envelope, the compound argument and result types, the compound evaluator with
//! its current-filehandle register, and an in-memory attribute backend.
pub mod config;
pub mod constants;
pub mod error;
pub mod proto;
pub mod rpc;
pub mod server;
pub mod vfs;
pub mod xdr;

pub use config::NfsConfig;
pub use error::{NfsError, NfsResult};
