//! What can go wrong, and how it is reported.
use vstd::prelude::*;
use vstd::string::StringExecFns;

verus! {

/// The category of a transport failure, with the names that std's
/// `io::ErrorKind` gives them.
#[derive(Clone, Copy, Debug, PartialEq, Eq, Structural)]
pub enum ErrorKind {
    NotFound,
    PermissionDenied,
    ConnectionRefused,
    ConnectionReset,
    HostUnreachable,
    NetworkUnreachable,
    ConnectionAborted,
    NotConnected,
    AddrInUse,
    AddrNotAvailable,
    NetworkDown,
    BrokenPipe,
    AlreadyExists,
    WouldBlock,
    NotADirectory,
    IsADirectory,
    DirectoryNotEmpty,
    ReadOnlyFilesystem,
    StaleNetworkFileHandle,
    InvalidInput,
    InvalidData,
    TimedOut,
    WriteZero,
    StorageFull,
    NotSeekable,
    QuotaExceeded,
    FileTooLarge,
    ResourceBusy,
    ExecutableFileBusy,
    Deadlock,
    TooManyLinks,
    ArgumentListTooLong,
    CrossesDevices,
    InvalidFilename,
    Interrupted,
    Unsupported,
    UnexpectedEof,
    OutOfMemory,
    Other,
}

/// A transport failure: its category, what it says, and the number that the
/// operating system has for it, where it came from there.
#[derive(Clone, Debug, PartialEq, Eq)]
pub struct IoError {
    pub kind: ErrorKind,
    pub message: String,
    pub code: Option<i32>,
}

/// The content of an [`IoError`].
pub ghost struct IoErrorView {
    pub kind: ErrorKind,
    pub message: Seq<char>,
    pub code: Option<i32>,
}

impl IoErrorView {
    /// The failure by its category and what it says alone.
    pub open spec fn retold(self) -> IoErrorView {
        IoErrorView { code: None, ..self }
    }
}

impl View for IoError {
    type V = IoErrorView;

    open spec fn view(&self) -> IoErrorView {
        IoErrorView { kind: self.kind, message: self.message@, code: self.code }
    }
}

impl IoError {
    /// A failure of the given category that has no number.
    pub fn new(kind: ErrorKind, message: String) -> (r: Self)
        ensures
            r@ == (IoErrorView { kind, message: message@, code: None }),
    {
        IoError { kind, message, code: None }
    }

    /// An equal failure.
    pub fn duplicate(&self) -> (r: Self)
        ensures
            r@ == self@,
    {
        IoError { kind: self.kind, message: self.message.clone(), code: self.code }
    }
}

/// Why a URI could not be parsed, built or opened.
#[derive(Clone, Debug, PartialEq, Eq)]
pub enum Error {
    /// An underlying transport or filesystem operation failed.
    Io(IoError),
    /// Valid input that no driver here covers.
    Unsupported(String),
    /// The input violates its format's rules.
    InvalidData(String),
}

/// The content of an [`Error`].
pub ghost enum ErrorView {
    Io(IoErrorView),
    Unsupported(Seq<char>),
    InvalidData(Seq<char>),
}

impl View for Error {
    type V = ErrorView;

    open spec fn view(&self) -> ErrorView {
        match self {
            Error::Io(e) => ErrorView::Io(e@),
            Error::Unsupported(m) => ErrorView::Unsupported(m@),
            Error::InvalidData(m) => ErrorView::InvalidData(m@),
        }
    }
}

impl ErrorView {
    /// The line that describes the error.
    pub open spec fn line(self) -> Seq<char> {
        match self {
            ErrorView::Io(e) => "I/O error: "@ + e.message,
            ErrorView::Unsupported(m) => "unsupported: "@ + m,
            ErrorView::InvalidData(m) => "invalid data: "@ + m,
        }
    }
}

impl Error {
    /// Malformed input, described by a fixed message.
    pub(crate) fn invalid(message: &str) -> (r: Self)
        ensures
            r@ == ErrorView::InvalidData(message@),
    {
        Error::InvalidData(message.to_owned())
    }

    /// The line that describes the error.
    pub fn to_string(&self) -> (r: String)
        ensures
            r@ == self@.line(),
    {
        match self {
            Error::Io(e) => {
                let mut s = "I/O error: ".to_owned();
                s.append(e.message.as_str());
                s
            },
            Error::Unsupported(m) => {
                let mut s = "unsupported: ".to_owned();
                s.append(m.as_str());
                s
            },
            Error::InvalidData(m) => {
                let mut s = "invalid data: ".to_owned();
                s.append(m.as_str());
                s
            },
        }
    }
}

} // verus!
