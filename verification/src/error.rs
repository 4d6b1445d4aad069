//! The errors the library speaks. Their variants are meant to be explained to
//! a user: a wrong password is not a damaged header, and neither is a
//! container newer than this build.

use vstd::prelude::*;

use crate::text::{concat, hex, hex4};

verus! {

/// What kind of thing went wrong below the library.
#[derive(Debug, Clone, Copy, PartialEq, Eq, Structural)]
pub enum IoErrorKind {
    NotFound,
    PermissionDenied,
    UnexpectedEof,
    InvalidInput,
    WriteZero,
    StorageFull,
    /// A hidden volume is protected from the write.
    Protected,
    Other,
}

/// The words for a kind of I/O error.
pub open spec fn kind_text(kind: IoErrorKind) -> Seq<char> {
    match kind {
        IoErrorKind::NotFound => "entity not found"@,
        IoErrorKind::PermissionDenied => "permission denied"@,
        IoErrorKind::UnexpectedEof => "unexpected end of file"@,
        IoErrorKind::InvalidInput => "invalid input parameter"@,
        IoErrorKind::WriteZero => "write zero"@,
        IoErrorKind::StorageFull => "no storage space"@,
        IoErrorKind::Protected => "read-only filesystem or storage medium"@,
        IoErrorKind::Other => "other error"@,
    }
}

impl IoErrorKind {
    /// The kind in words; it names no path and no file.
    pub fn describe(self) -> (r: &'static str)
        ensures
            r@ == kind_text(self),
    {
        match self {
            IoErrorKind::NotFound => "entity not found",
            IoErrorKind::PermissionDenied => "permission denied",
            IoErrorKind::UnexpectedEof => "unexpected end of file",
            IoErrorKind::InvalidInput => "invalid input parameter",
            IoErrorKind::WriteZero => "write zero",
            IoErrorKind::StorageFull => "no storage space",
            IoErrorKind::Protected => "read-only filesystem or storage medium",
            IoErrorKind::Other => "other error",
        }
    }
}

/// A failed access to storage.
#[derive(Debug)]
pub struct IoError {
    pub kind: IoErrorKind,
    pub message: String,
}

/// An I/O error as a value: its kind and its words.
#[verifier::ext_equal]
pub struct IoFault {
    pub kind: IoErrorKind,
    pub message: Seq<char>,
}

impl View for IoError {
    type V = IoFault;

    open spec fn view(&self) -> IoFault {
        IoFault { kind: self.kind, message: self.message@ }
    }
}

impl IoError {
    pub fn new(kind: IoErrorKind, message: &str) -> (r: IoError)
        ensures
            r@ == (IoFault { kind, message: message@ }),
    {
        IoError { kind, message: message.to_string() }
    }
}

/// The one error type of the container layers.
#[derive(Debug)]
pub enum VcError {
    /// No candidate (hash, position, scheme) produced a valid header.
    /// Indistinguishable from a wrong password by design of the format.
    NotFoundOrWrongPassword,
    /// The header is valid, but asks for a newer program than this one.
    VersionTooNew { required: u16, supported: u16 },
    /// The header carries the system-encryption flag.
    SystemVolume,
    /// A write was refused to protect a hidden volume, and the outer volume
    /// has become read-only.
    HiddenVolumeProtected,
    /// The magic matched and a checksum did not: real corruption.
    HeaderDamaged,
    /// The filesystem inside was recognised and is not supported.
    UnsupportedFilesystem(String),
    /// The filesystem inside was not recognised.
    UnknownFilesystem,
    Filesystem(String),
    Io(IoError),
    /// An internal invariant does not hold.
    Internal(String),
}

/// An error as a value.
#[verifier::ext_equal]
pub enum VcFault {
    NotFoundOrWrongPassword,
    VersionTooNew { required: u16, supported: u16 },
    SystemVolume,
    HiddenVolumeProtected,
    HeaderDamaged,
    UnsupportedFilesystem(Seq<char>),
    UnknownFilesystem,
    Filesystem(Seq<char>),
    Io(IoFault),
    Internal(Seq<char>),
}

impl View for VcError {
    type V = VcFault;

    open spec fn view(&self) -> VcFault {
        match *self {
            VcError::NotFoundOrWrongPassword => VcFault::NotFoundOrWrongPassword,
            VcError::VersionTooNew { required, supported } => VcFault::VersionTooNew {
                required,
                supported,
            },
            VcError::SystemVolume => VcFault::SystemVolume,
            VcError::HiddenVolumeProtected => VcFault::HiddenVolumeProtected,
            VcError::HeaderDamaged => VcFault::HeaderDamaged,
            VcError::UnsupportedFilesystem(s) => VcFault::UnsupportedFilesystem(s@),
            VcError::UnknownFilesystem => VcFault::UnknownFilesystem,
            VcError::Filesystem(s) => VcFault::Filesystem(s@),
            VcError::Io(e) => VcFault::Io(e@),
            VcError::Internal(s) => VcFault::Internal(s@),
        }
    }
}

pub type VcResult<T> = Result<T, VcError>;

/// Whether a result is this error.
pub open spec fn fails_with<T>(r: Result<T, VcError>, f: VcFault) -> bool {
    r matches Err(e) && e@ == f
}

/// A result by its values: `Ok` as it is, an error by its view.
pub open spec fn outcome<T>(r: VcResult<T>) -> Result<T, VcFault> {
    match r {
        Ok(v) => Ok(v),
        Err(e) => Err(e@),
    }
}

/// Whether an error says that a write was refused for a hidden volume's sake.
pub open spec fn protecting(f: VcFault) -> bool {
    f is HiddenVolumeProtected || (f matches VcFault::Io(io) && io.kind is Protected)
}

/// What a user is told about an error.
pub open spec fn fault_text(f: VcFault) -> Seq<char> {
    match f {
        VcFault::NotFoundOrWrongPassword =>
            "no volume header found — wrong password/PIM, or not a VeraCrypt container"@,
        VcFault::VersionTooNew { required, supported } =>
            "container requires a newer VeraCrypt format (min version "@ + hex4(required)
            + ") than supported ("@ + hex4(supported) + ")"@,
        VcFault::SystemVolume => "system-encryption volumes are not supported"@,
        VcFault::HiddenVolumeProtected =>
            "write blocked to protect the hidden volume; the volume is now read-only"@,
        VcFault::HeaderDamaged =>
            "volume header is damaged (CRC mismatch); the embedded backup header may still be intact"@,
        VcFault::UnsupportedFilesystem(name) => "container holds a "@ + name
            + " filesystem; not supported yet"@,
        VcFault::UnknownFilesystem => "could not identify a filesystem inside the container"@,
        VcFault::Filesystem(detail) => "filesystem error: "@ + detail,
        VcFault::Io(e) => "I/O error: "@ + e.message,
        VcFault::Internal(detail) => "internal error: "@ + detail,
    }
}

impl VcError {
    /// The error in words for a user.
    pub fn message(&self) -> (r: String)
        ensures
            r@ == fault_text(self@),
    {
        match self {
            VcError::NotFoundOrWrongPassword =>
                "no volume header found — wrong password/PIM, or not a VeraCrypt container".to_string(),
            VcError::VersionTooNew { required, supported } => {
                let a: String = concat(
                    "container requires a newer VeraCrypt format (min version ",
                    hex(*required).as_str(),
                );
                let b: String = concat(a.as_str(), ") than supported (");
                let c: String = concat(b.as_str(), hex(*supported).as_str());
                concat(c.as_str(), ")")
            },
            VcError::SystemVolume => "system-encryption volumes are not supported".to_string(),
            VcError::HiddenVolumeProtected =>
                "write blocked to protect the hidden volume; the volume is now read-only".to_string(),
            VcError::HeaderDamaged =>
                "volume header is damaged (CRC mismatch); the embedded backup header may still be intact".to_string(),
            VcError::UnsupportedFilesystem(name) => {
                let a: String = concat("container holds a ", name.as_str());
                concat(a.as_str(), " filesystem; not supported yet")
            },
            VcError::UnknownFilesystem =>
                "could not identify a filesystem inside the container".to_string(),
            VcError::Filesystem(detail) => concat("filesystem error: ", detail.as_str()),
            VcError::Io(e) => concat("I/O error: ", e.message.as_str()),
            VcError::Internal(detail) => concat("internal error: ", detail.as_str()),
        }
    }
}

/// A message carries the details of its failure to the letter.
pub proof fn messages_carry_their_details(
    required: u16,
    supported: u16,
    detail: Seq<char>,
    kind: IoErrorKind,
)
    ensures
        fault_text(VcFault::VersionTooNew { required, supported })
            == "container requires a newer VeraCrypt format (min version "@ + hex4(required)
            + ") than supported ("@ + hex4(supported) + ")"@,
        fault_text(VcFault::UnsupportedFilesystem(detail)) == "container holds a "@ + detail
            + " filesystem; not supported yet"@,
        fault_text(VcFault::Filesystem(detail)) == "filesystem error: "@ + detail,
        fault_text(VcFault::Internal(detail)) == "internal error: "@ + detail,
        fault_text(VcFault::Io(IoFault { kind, message: detail })) == "I/O error: "@ + detail,
{
}

} // verus!
