//! Numbers of NFS version 4.2.
use vstd::prelude::*;

verus! {

/// The RPC program number of NFS.
pub const NFS_PROGRAM: u32 = 100003;

/// The major version.
pub const NFS_VERSION: u32 = 4;

/// The minor version.
pub const NFS_MINOR_VERSION: u32 = 2;

/// The default port.
pub const NFS_PORT: u16 = 2049;

/// The largest filehandle, in bytes.
pub const NFS4_FHSIZE: u32 = 128;

/// The longest name of a directory entry, in bytes.
pub const NFS4_MAXNAMLEN: u32 = 255;

/// The longest path name, in bytes.
pub const NFS4_MAXPATHLEN: u32 = 4096;

} // verus!
