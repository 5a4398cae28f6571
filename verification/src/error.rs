use vstd::prelude::*;

verus! {

/// The kind of a failed read.
#[derive(Debug, Clone, Copy, PartialEq, Eq, Structural)]
pub enum IoErrorKind {
    /// The data ended before the requested number of bytes.
    UnexpectedEof,
}

/// A failed read.
#[derive(Debug, Clone, Copy, PartialEq, Eq, Structural)]
pub struct IoError {
    pub kind: IoErrorKind,
}

impl IoError {
    pub fn kind(&self) -> (k: IoErrorKind)
        ensures
            k == self.kind,
    {
        self.kind
    }
}

/// Everything that can go wrong while reading or writing FITS data.
#[derive(Debug)]
pub enum Error {
    Io(IoError),
    InvalidBlock(String),
    InvalidCard(String),
    InvalidHeader(String),
    MissingKeyword(&'static str),
    InvalidKeywordValue { keyword: &'static str, value: String, reason: &'static str },
    InvalidHDU(String),
    UnsupportedFeature(String),
    HduNotFound(usize),
    ChecksumMismatch { expected: u32, actual: u32 },
    TypeMismatch(String),
    EncodingError(String),
}

/// Which error a header that cannot be read gives: a keyword that is
/// missing, a keyword whose value is wrong, an `InvalidHeader` error with the
/// given text, an `InvalidHeader` error whatever its text (where no header
/// leads), or a feature this library does not support, with the text.
pub enum HeaderFault {
    Missing(Seq<char>),
    BadValue(Seq<char>),
    Header(Seq<char>),
    Malformed,
    Unsupported(Seq<char>),
}

/// Whether `r` is the error that `f` stands for.
pub open spec fn fault_matches<T>(r: Result<T, Error>, f: HeaderFault) -> bool {
    match f {
        HeaderFault::Missing(k) => r matches Err(Error::MissingKeyword(m)) && m@ == k,
        HeaderFault::BadValue(k) => r matches Err(Error::InvalidKeywordValue { keyword, .. })
            && keyword@ == k,
        HeaderFault::Header(msg) => r matches Err(Error::InvalidHeader(m)) && m@ == msg,
        HeaderFault::Malformed => r matches Err(Error::InvalidHeader(_)),
        HeaderFault::Unsupported(msg) => r matches Err(Error::UnsupportedFeature(m)) && m@ == msg,
    }
}

/// The decimal digits of `n`.
pub open spec fn decimal(n: nat) -> Seq<char> {
    crate::card::scan::ascii_chars(crate::card::encode::nat_text(n))
}

/// The human-readable description of an error.
pub open spec fn error_message(e: Error) -> Seq<char> {
    match e {
        Error::Io(_) => "I/O error: unexpected end of file"@,
        Error::InvalidBlock(s) => "Invalid Block: "@ + s@,
        Error::InvalidCard(s) => "Invalid Card: "@ + s@,
        Error::InvalidHeader(s) => "InvalidHeader: "@ + s@,
        Error::MissingKeyword(k) => "Missing required keyword: "@ + k@,
        Error::InvalidKeywordValue { keyword, value, reason } => "Keyword "@ + keyword@
            + " has invalid value: "@ + value@ + ": "@ + reason@,
        Error::InvalidHDU(s) => "InvalidHDU: "@ + s@,
        Error::UnsupportedFeature(s) => "Unsupported Feature: "@ + s@,
        Error::HduNotFound(n) => "HDU index "@ + decimal(n as nat) + " not found"@,
        Error::ChecksumMismatch { expected, actual } => "Checksum Mismatch: expected "@ + decimal(
            expected as nat,
        ) + ", got "@ + decimal(actual as nat),
        Error::TypeMismatch(s) => "Type mismatch: "@ + s@,
        Error::EncodingError(s) => "UTF-8 encoding error: "@ + s@,
    }
}

/// The decimal digits of `n`, as text.
pub(crate) fn decimal_text(n: u64) -> (r: String)
    ensures
        r@ == decimal(n as nat),
{
    let d = crate::card::encode::nat_digits(n);
    proof {
        crate::header::keywords::lemma_nat_text_digits(n as nat);
    }
    crate::card::scan::ascii_string(d.as_slice())
}

impl Error {
    /// The human-readable description of the error.
    pub fn message(&self) -> (r: String)
        ensures
            r@ == error_message(*self),
    {
        match self {
            Error::Io(e) => String::from_str("I/O error: unexpected end of file"),
            Error::InvalidBlock(s) => String::from_str("Invalid Block: ").concat(s.as_str()),
            Error::InvalidCard(s) => String::from_str("Invalid Card: ").concat(s.as_str()),
            Error::InvalidHeader(s) => String::from_str("InvalidHeader: ").concat(s.as_str()),
            Error::MissingKeyword(k) => String::from_str("Missing required keyword: ").concat(k),
            Error::InvalidKeywordValue { keyword, value, reason } => String::from_str(
                "Keyword ",
            ).concat(keyword).concat(" has invalid value: ").concat(value.as_str()).concat(
                ": ",
            ).concat(reason),
            Error::InvalidHDU(s) => String::from_str("InvalidHDU: ").concat(s.as_str()),
            Error::UnsupportedFeature(s) => String::from_str("Unsupported Feature: ").concat(
                s.as_str(),
            ),
            Error::HduNotFound(n) => {
                let s = decimal_text(*n as u64);
                String::from_str("HDU index ").concat(s.as_str()).concat(" not found")
            },
            Error::ChecksumMismatch { expected, actual } => {
                let e = decimal_text(*expected as u64);
                let a = decimal_text(*actual as u64);
                String::from_str("Checksum Mismatch: expected ").concat(e.as_str()).concat(
                    ", got ",
                ).concat(a.as_str())
            },
            Error::TypeMismatch(s) => String::from_str("Type mismatch: ").concat(s.as_str()),
            Error::EncodingError(s) => String::from_str("UTF-8 encoding error: ").concat(s.as_str()),
        }
    }
}

} // verus!
