//! Errors of the server and the status codes they map to.
use vstd::prelude::*;

verus! {

/// Declares `std::io::Error`, which the I/O error variant carries.
#[verifier::external_type_specification]
#[verifier::external_body]
pub struct ExIoError(std::io::Error);

/// Declares `serde_json::Error`, which the serialization error variant carries.
#[verifier::external_type_specification]
#[verifier::external_body]
pub struct ExJsonError(serde_json::Error);

/// What can go wrong in the server.
#[derive(Debug)]
pub enum NfsError {
    Io(std::io::Error),
    Serialization(serde_json::Error),
    Xdr(String),
    Protocol(String),
    InvalidArgument(String),
    PermissionDenied,
    NotFound,
    AlreadyExists,
    NotSupported,
    NoSpace,
    ReadOnlyFs,
    StaleHandle,
    BadStateid,
    Grace,
    ServerFault,
    Network(String),
    Config(String),
    Auth(String),
}

/// A result whose error is an `NfsError`.
pub type NfsResult<T> = Result<T, NfsError>;

/// NFS version 4.2 status codes.
#[derive(Debug, Clone, Copy, PartialEq, Eq, Structural)]
pub enum Nfs4Status {
    Success,
    Perm,
    Noent,
    Io,
    Nxio,
    Access,
    Exist,
    Xdev,
    Nodev,
    Notdir,
    Isdir,
    Inval,
    Fbig,
    Nospc,
    Rofs,
    Mlink,
    Nametoolong,
    Notempty,
    Dquot,
    Stale,
    Badhandle,
    BadCookie,
    Notsupp,
    Toosmall,
    Serverfault,
    Badtype,
    Delay,
    SameSession,

    // added by minor version 2
    BadLabel,
    OffloadDenied,
    OffloadNoReqs,
    PartnerNoAuth,
    PartnerNotsupp,
    UnionNotsupp,
    WrongLfs,
}

/// The wire value of a status.
pub open spec fn nfs4_status_code(s: Nfs4Status) -> u32 {
    match s {
        Nfs4Status::Success => 0,
        Nfs4Status::Perm => 1,
        Nfs4Status::Noent => 2,
        Nfs4Status::Io => 5,
        Nfs4Status::Nxio => 6,
        Nfs4Status::Access => 13,
        Nfs4Status::Exist => 17,
        Nfs4Status::Xdev => 18,
        Nfs4Status::Nodev => 19,
        Nfs4Status::Notdir => 20,
        Nfs4Status::Isdir => 21,
        Nfs4Status::Inval => 22,
        Nfs4Status::Fbig => 27,
        Nfs4Status::Nospc => 28,
        Nfs4Status::Rofs => 30,
        Nfs4Status::Mlink => 31,
        Nfs4Status::Nametoolong => 63,
        Nfs4Status::Notempty => 66,
        Nfs4Status::Dquot => 69,
        Nfs4Status::Stale => 70,
        Nfs4Status::Badhandle => 10001,
        Nfs4Status::BadCookie => 10003,
        Nfs4Status::Notsupp => 10004,
        Nfs4Status::Toosmall => 10005,
        Nfs4Status::Serverfault => 10006,
        Nfs4Status::Badtype => 10007,
        Nfs4Status::Delay => 10008,
        Nfs4Status::SameSession => 10018,
        Nfs4Status::BadLabel => 10093,
        Nfs4Status::OffloadDenied => 10091,
        Nfs4Status::OffloadNoReqs => 10094,
        Nfs4Status::PartnerNoAuth => 10089,
        Nfs4Status::PartnerNotsupp => 10088,
        Nfs4Status::UnionNotsupp => 10090,
        Nfs4Status::WrongLfs => 10092,
    }
}

impl Nfs4Status {
    /// The wire value of the status.
    pub fn code(&self) -> (r: u32)
        ensures
            r == nfs4_status_code(*self),
    {
        match self {
            Nfs4Status::Success => 0,
            Nfs4Status::Perm => 1,
            Nfs4Status::Noent => 2,
            Nfs4Status::Io => 5,
            Nfs4Status::Nxio => 6,
            Nfs4Status::Access => 13,
            Nfs4Status::Exist => 17,
            Nfs4Status::Xdev => 18,
            Nfs4Status::Nodev => 19,
            Nfs4Status::Notdir => 20,
            Nfs4Status::Isdir => 21,
            Nfs4Status::Inval => 22,
            Nfs4Status::Fbig => 27,
            Nfs4Status::Nospc => 28,
            Nfs4Status::Rofs => 30,
            Nfs4Status::Mlink => 31,
            Nfs4Status::Nametoolong => 63,
            Nfs4Status::Notempty => 66,
            Nfs4Status::Dquot => 69,
            Nfs4Status::Stale => 70,
            Nfs4Status::Badhandle => 10001,
            Nfs4Status::BadCookie => 10003,
            Nfs4Status::Notsupp => 10004,
            Nfs4Status::Toosmall => 10005,
            Nfs4Status::Serverfault => 10006,
            Nfs4Status::Badtype => 10007,
            Nfs4Status::Delay => 10008,
            Nfs4Status::SameSession => 10018,
            Nfs4Status::BadLabel => 10093,
            Nfs4Status::OffloadDenied => 10091,
            Nfs4Status::OffloadNoReqs => 10094,
            Nfs4Status::PartnerNoAuth => 10089,
            Nfs4Status::PartnerNotsupp => 10088,
            Nfs4Status::UnionNotsupp => 10090,
            Nfs4Status::WrongLfs => 10092,
        }
    }
}

/// The status an error is reported with; errors with no status of their own are
/// a server fault.
pub open spec fn status_of_error(e: NfsError) -> Nfs4Status {
    match e {
        NfsError::Io(_) => Nfs4Status::Io,
        NfsError::PermissionDenied => Nfs4Status::Access,
        NfsError::NotFound => Nfs4Status::Noent,
        NfsError::AlreadyExists => Nfs4Status::Exist,
        NfsError::NotSupported => Nfs4Status::Notsupp,
        NfsError::NoSpace => Nfs4Status::Nospc,
        NfsError::ReadOnlyFs => Nfs4Status::Rofs,
        NfsError::StaleHandle => Nfs4Status::Stale,
        NfsError::BadStateid => Nfs4Status::Badhandle,
        NfsError::InvalidArgument(_) => Nfs4Status::Inval,
        _ => Nfs4Status::Serverfault,
    }
}

impl From<NfsError> for Nfs4Status {
    fn from(error: NfsError) -> (r: Nfs4Status)
        ensures
            r == status_of_error(error),
    {
        match error {
            NfsError::Io(_) => Nfs4Status::Io,
            NfsError::PermissionDenied => Nfs4Status::Access,
            NfsError::NotFound => Nfs4Status::Noent,
            NfsError::AlreadyExists => Nfs4Status::Exist,
            NfsError::NotSupported => Nfs4Status::Notsupp,
            NfsError::NoSpace => Nfs4Status::Nospc,
            NfsError::ReadOnlyFs => Nfs4Status::Rofs,
            NfsError::StaleHandle => Nfs4Status::Stale,
            NfsError::BadStateid => Nfs4Status::Badhandle,
            NfsError::InvalidArgument(_) => Nfs4Status::Inval,
            _ => Nfs4Status::Serverfault,
        }
    }
}

impl vstd::std_specs::convert::FromSpecImpl<NfsError> for Nfs4Status {
    open spec fn obeys_from_spec() -> bool {
        true
    }

    open spec fn from_spec(v: NfsError) -> Nfs4Status {
        status_of_error(v)
    }
}

} // verus!
