//! Error types for archive operations.
//!
//! [`ArchiveError`] is the codec's own taxonomy: each variant names one way
//! that encoding, decoding or extraction planning can fail.  [`TarError`]
//! is the user-facing error of the tool, carrying a message and mapping to
//! an exit code; codec errors are folded into it at the boundary.

use vstd::prelude::*;
use vstd::string::*;

verus! {

/// One failure of the codec or of extraction planning.
#[derive(Clone, Copy, PartialEq, Eq, Debug, Structural)]
pub enum ArchiveError {
    /// An entry cannot be encoded within the ustar field widths even after
    /// the long-name extension has been applied.
    Format,
    /// A header block whose stored checksum does not match its bytes.
    Checksum,
    /// A block that is structurally not a ustar header.
    Malformed,
    /// The byte stream ended before the encoded lengths said it would.
    Truncated,
    /// An entry whose destination would escape the extraction root.
    UnsafePath,
    /// A hard link whose target was not seen earlier in the stream.
    DanglingLink,
    /// A request to create an archive from zero entries.
    EmptyArchive,
}

/// The classes of platform I/O failure that the error mapping distinguishes.
#[derive(Clone, Copy, PartialEq, Eq, Debug, Structural)]
pub enum IoClass {
    NotFound,
    PermissionDenied,
    Other,
}

#[verifier::external_type_specification]
#[verifier::external_body]
pub struct ExIoError(std::io::Error);

/// Relies on std::io::Error's Display implementation: renders the platform
/// error as text.
#[verifier::external_body]
fn io_error_text(e: &std::io::Error) -> String {
    e.to_string()
}

/// Relies on std::io::Error::kind: sorts the platform error into one of the
/// three classes the library distinguishes, every other kind into `Other`.
#[verifier::external_body]
fn classify_io_error(e: &std::io::Error) -> IoClass {
    match e.kind() {
        std::io::ErrorKind::NotFound => IoClass::NotFound,
        std::io::ErrorKind::PermissionDenied => IoClass::PermissionDenied,
        _ => IoClass::Other,
    }
}

/// Error type for tar operations.
#[derive(Debug)]
pub enum TarError {
    /// I/O error occurred.
    IoError(std::io::Error),
    /// Invalid archive format or corrupted archive.
    InvalidArchive(String),
    /// File or directory not found.
    FileNotFound(String),
    /// Permission denied.
    PermissionDenied(String),
    /// General tar operation error.
    TarOperationError(String),
}

impl TarError {
    /// The one-line diagnostic for this error, as the tool prints it.
    pub fn message(&self) -> (r: String)
        ensures
            match self {
                TarError::IoError(_) => r@.len() >= "I/O error: "@.len() && r@.subrange(
                    0,
                    "I/O error: "@.len() as int,
                ) == "I/O error: "@,
                TarError::InvalidArchive(m) => r@ == "Invalid archive: "@ + m@,
                TarError::FileNotFound(m) => r@ == "File not found: "@ + m@,
                TarError::PermissionDenied(m) => r@ == "Permission denied: "@ + m@,
                TarError::TarOperationError(m) => r@ == "tar: "@ + m@,
            },
    {
        match self {
            TarError::IoError(e) => {
                let text = io_error_text(e);
                let r = String::from_str("I/O error: ").concat(text.as_str());
                proof {
                    assert(r@.subrange(0, "I/O error: "@.len() as int) =~= "I/O error: "@);
                }
                r
            },
            TarError::InvalidArchive(m) => String::from_str("Invalid archive: ").concat(
                m.as_str(),
            ),
            TarError::FileNotFound(m) => String::from_str("File not found: ").concat(m.as_str()),
            TarError::PermissionDenied(m) => String::from_str("Permission denied: ").concat(
                m.as_str(),
            ),
            TarError::TarOperationError(m) => String::from_str("tar: ").concat(m.as_str()),
        }
    }

    /// The process exit code this error maps to: corrupt or invalid archives
    /// are distinguished from every other failure.
    pub fn code(&self) -> (r: i32)
        ensures
            r == (if self matches TarError::InvalidArchive(_) {
                2int
            } else {
                1int
            }),
    {
        match self {
            TarError::IoError(_) => 1,
            TarError::InvalidArchive(_) => 2,
            TarError::FileNotFound(_) => 1,
            TarError::PermissionDenied(_) => 1,
            TarError::TarOperationError(_) => 1,
        }
    }

    /// The underlying platform error, for the variant that wraps one.
    pub fn source(&self) -> (r: Option<&std::io::Error>)
        ensures
            r is Some <==> self matches TarError::IoError(_),
    {
        match self {
            TarError::IoError(e) => Some(e),
            _ => None,
        }
    }

    /// Builds the error for a platform failure already sorted into a class:
    /// the class alone decides the variant, and the rendered text rides along.
    pub fn from_parts(class: IoClass, text: String, err: std::io::Error) -> (r: TarError)
        ensures
            class == IoClass::NotFound ==> (r matches TarError::FileNotFound(m) && m@ == text@),
            class == IoClass::PermissionDenied ==> (r matches TarError::PermissionDenied(m) && m@
                == text@),
            class == IoClass::Other ==> r matches TarError::IoError(_),
    {
        match class {
            IoClass::NotFound => TarError::FileNotFound(text),
            IoClass::PermissionDenied => TarError::PermissionDenied(text),
            IoClass::Other => TarError::IoError(err),
        }
    }
}

impl From<std::io::Error> for TarError {
    fn from(err: std::io::Error) -> TarError {
        let class = classify_io_error(&err);
        let text = io_error_text(&err);
        TarError::from_parts(class, text, err)
    }
}

impl vstd::std_specs::convert::FromSpecImpl<std::io::Error> for TarError {
    open spec fn obeys_from_spec() -> bool {
        false
    }

    open spec fn from_spec(v: std::io::Error) -> TarError {
        arbitrary()
    }
}

impl ArchiveError {
    /// The user-facing error for this codec failure.  Checksum and structure
    /// failures count as an invalid archive; the rest are operation errors.
    pub fn to_tar_error(self) -> (r: TarError)
        ensures
            match self {
                ArchiveError::Checksum => r matches TarError::InvalidArchive(m) && m@
                    == "checksum mismatch in header block"@,
                ArchiveError::Malformed => r matches TarError::InvalidArchive(m) && m@
                    == "malformed header block"@,
                ArchiveError::Truncated => r matches TarError::InvalidArchive(m) && m@
                    == "unexpected end of archive"@,
                ArchiveError::Format => r matches TarError::TarOperationError(m) && m@
                    == "entry does not fit the header format"@,
                ArchiveError::UnsafePath => r matches TarError::TarOperationError(m) && m@
                    == "refusing to extract outside the destination"@,
                ArchiveError::DanglingLink => r matches TarError::TarOperationError(m) && m@
                    == "hard link target not present in archive"@,
                ArchiveError::EmptyArchive => r matches TarError::TarOperationError(m) && m@
                    == "Cowardly refusing to create an empty archive"@,
            },
    {
        match self {
            ArchiveError::Checksum => TarError::InvalidArchive(
                String::from_str("checksum mismatch in header block"),
            ),
            ArchiveError::Malformed => TarError::InvalidArchive(
                String::from_str("malformed header block"),
            ),
            ArchiveError::Truncated => TarError::InvalidArchive(
                String::from_str("unexpected end of archive"),
            ),
            ArchiveError::Format => TarError::TarOperationError(
                String::from_str("entry does not fit the header format"),
            ),
            ArchiveError::UnsafePath => TarError::TarOperationError(
                String::from_str("refusing to extract outside the destination"),
            ),
            ArchiveError::DanglingLink => TarError::TarOperationError(
                String::from_str("hard link target not present in archive"),
            ),
            ArchiveError::EmptyArchive => TarError::TarOperationError(
                String::from_str("Cowardly refusing to create an empty archive"),
            ),
        }
    }
}

} // verus!
