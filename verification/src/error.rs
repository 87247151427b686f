//! The common error type: I/O failures, invalid commands, damaged data files.
use vstd::prelude::*;
use vstd::std_specs::convert::FromSpecImpl;

verus! {

#[verifier::external_type_specification]
#[verifier::external_body]
pub struct ExIoError(std::io::Error);

/// The errors of the library.
#[derive(Debug)]
pub enum Error {
    /// A failure of the underlying file or network I/O.
    Io(std::io::Error),
    /// An invalid client command (unknown name, wrong arguments, ...).
    Protocol(String),
    /// A data file whose content is damaged or malformed.
    Corrupt(String),
    /// Server state that cannot safely be used.
    Internal(String),
}

/// An [`Error`] by its kind and its message.
pub enum ErrorView {
    Io,
    Protocol(Seq<char>),
    Corrupt(Seq<char>),
    Internal(Seq<char>),
}

impl View for Error {
    type V = ErrorView;

    open spec fn view(&self) -> ErrorView {
        match self {
            Error::Io(_) => ErrorView::Io,
            Error::Protocol(m) => ErrorView::Protocol(m@),
            Error::Corrupt(m) => ErrorView::Corrupt(m@),
            Error::Internal(m) => ErrorView::Internal(m@),
        }
    }
}

pub type Result<T> = std::result::Result<T, Error>;

/// The display text of an I/O error (`<std::io::Error as Display>::fmt`).
/// The text comes from the operating system and its locale, so nothing is stated of it.
#[verifier::external_body]
fn io_error_text(e: &std::io::Error) -> String {
    format!("{}", e)
}

/// The user-facing text of an error whose message is `m`, for the non-I/O kinds.
pub open spec fn error_text(e: ErrorView) -> Seq<char> {
    match e {
        ErrorView::Io => "IO 错误: "@,
        ErrorView::Protocol(m) => "命令错误: "@ + m,
        ErrorView::Corrupt(m) => "数据文件损坏: "@ + m,
        ErrorView::Internal(m) => "内部错误: "@ + m,
    }
}

/// Whether `m` is the text of error `e`: its text exactly, or for an I/O error its text
/// followed by the system's description.
pub open spec fn describes(m: Seq<char>, e: ErrorView) -> bool {
    if e is Io {
        exists|t: Seq<char>| m == error_text(e) + t
    } else {
        m == error_text(e)
    }
}

impl Error {
    /// The user-facing text of the error (what `Display` prints).
    /// For an I/O error it is the prefix followed by the system's description.
    pub fn message(&self) -> (r: String)
        ensures
            describes(r@, self@),
    {
        match self {
            Error::Io(e) => {
                let mut r = String::from_str("IO 错误: ");
                let t = io_error_text(e);
                r.append(t.as_str());
                assert(r@ == error_text(self@) + t@);
                r
            },
            Error::Protocol(m) => {
                let mut r = String::from_str("命令错误: ");
                r.append(m.as_str());
                r
            },
            Error::Corrupt(m) => {
                let mut r = String::from_str("数据文件损坏: ");
                r.append(m.as_str());
                r
            },
            Error::Internal(m) => {
                let mut r = String::from_str("内部错误: ");
                r.append(m.as_str());
                r
            },
        }
    }
}

impl From<std::io::Error> for Error {
    fn from(e: std::io::Error) -> (r: Self) {
        Error::Io(e)
    }
}

impl FromSpecImpl<std::io::Error> for Error {
    open spec fn obeys_from_spec() -> bool {
        true
    }

    open spec fn from_spec(e: std::io::Error) -> Self {
        Error::Io(e)
    }
}

} // verus!
