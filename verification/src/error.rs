//! The error type shared by every fallible operation of the library.

use vstd::prelude::*;
use vstd::string::StringExecFns;

verus! {

/// Why the underlying byte stream refused an operation.
#[derive(Debug, Clone, Copy, PartialEq, Eq, Structural)]
pub enum IoErrorKind {
    /// The stream ended before the requested bytes were read.
    UnexpectedEof,
    /// The bytes read do not form what was expected of them.
    InvalidData,
    /// A seek or a write would move the position out of range.
    InvalidInput,
}

/// The failures that reading or writing an archive can report.
#[derive(Debug, Clone)]
pub enum CarError {
    /// Structured data, a protobuf message or a content identifier is malformed.
    Parsing(String),
    /// The archive as a whole is not acceptable.
    InvalidFile(String),
    /// A section is missing, or a header does not fit the slot reserved for it.
    InvalidSection(String),
    /// The byte stream failed.
    IO(IoErrorKind),
    /// A length prefix is above the limit; the value is the length announced.
    TooLargeSection(usize),
    /// Something that had to be there was not found.
    NotFound(String),
}

/// Which variant an error is, without its message.
#[derive(Debug, Clone, Copy, PartialEq, Eq, Structural)]
pub enum ErrorKind {
    Parsing,
    InvalidFile,
    InvalidSection,
    IO,
    TooLargeSection,
    NotFound,
}

impl CarError {
    /// The variant of this error.
    pub open spec fn kind(self) -> ErrorKind {
        match self {
            CarError::Parsing(_) => ErrorKind::Parsing,
            CarError::InvalidFile(_) => ErrorKind::InvalidFile,
            CarError::InvalidSection(_) => ErrorKind::InvalidSection,
            CarError::IO(_) => ErrorKind::IO,
            CarError::TooLargeSection(_) => ErrorKind::TooLargeSection,
            CarError::NotFound(_) => ErrorKind::NotFound,
        }
    }

    /// The text that follows the prefix in the rendered message.
    pub open spec fn detail(self) -> Seq<char> {
        match self {
            CarError::Parsing(s) => s@,
            CarError::InvalidFile(s) => s@,
            CarError::InvalidSection(s) => s@,
            CarError::IO(k) => io_kind_text(k),
            CarError::TooLargeSection(n) => decimal_text(n as nat),
            CarError::NotFound(s) => s@,
        }
    }

    /// The fixed text that starts the rendered message of each variant.
    pub open spec fn prefix(self) -> Seq<char> {
        match self {
            CarError::Parsing(_) => "parsing the file error: "@,
            CarError::InvalidFile(_) => "invalid file error: "@,
            CarError::InvalidSection(_) => "invalid section error: "@,
            CarError::IO(_) => "Io error: "@,
            CarError::TooLargeSection(_) => "too large section error: "@,
            CarError::NotFound(_) => "not found error: "@,
        }
    }

    /// Renders the error as a line of text: the variant's prefix, then its detail.
    pub fn to_string(&self) -> (text: String)
        ensures
            text@ == self.prefix() + self.detail(),
    {
        match self {
            CarError::Parsing(s) => String::from_str("parsing the file error: ").concat(s.as_str()),
            CarError::InvalidFile(s) => String::from_str("invalid file error: ").concat(s.as_str()),
            CarError::InvalidSection(s) => String::from_str("invalid section error: ").concat(
                s.as_str(),
            ),
            CarError::IO(k) => String::from_str("Io error: ").concat(io_kind_name(*k)),
            CarError::TooLargeSection(n) => {
                let digits = decimal(*n);
                String::from_str("too large section error: ").concat(digits.as_str())
            },
            CarError::NotFound(s) => String::from_str("not found error: ").concat(s.as_str()),
        }
    }
}

/// The words by which a stream failure is rendered.
pub open spec fn io_kind_text(k: IoErrorKind) -> Seq<char> {
    match k {
        IoErrorKind::UnexpectedEof => "unexpected end of file"@,
        IoErrorKind::InvalidData => "invalid data"@,
        IoErrorKind::InvalidInput => "invalid input parameter"@,
    }
}

fn io_kind_name(k: IoErrorKind) -> (s: &'static str)
    ensures
        s@ == io_kind_text(k),
{
    match k {
        IoErrorKind::UnexpectedEof => "unexpected end of file",
        IoErrorKind::InvalidData => "invalid data",
        IoErrorKind::InvalidInput => "invalid input parameter",
    }
}

/// The character of a decimal digit.
pub open spec fn digit_char(d: nat) -> char {
    if d == 0 {
        '0'
    } else if d == 1 {
        '1'
    } else if d == 2 {
        '2'
    } else if d == 3 {
        '3'
    } else if d == 4 {
        '4'
    } else if d == 5 {
        '5'
    } else if d == 6 {
        '6'
    } else if d == 7 {
        '7'
    } else if d == 8 {
        '8'
    } else {
        '9'
    }
}

/// A number written in decimal, without leading zeros.
pub open spec fn decimal_text(n: nat) -> Seq<char>
    decreases n,
{
    if n < 10 {
        seq![digit_char(n)]
    } else {
        decimal_text(n / 10).push(digit_char(n % 10))
    }
}

fn digit(d: usize) -> (c: char)
    requires
        d < 10,
    ensures
        c == digit_char(d as nat),
{
    if d == 0 {
        '0'
    } else if d == 1 {
        '1'
    } else if d == 2 {
        '2'
    } else if d == 3 {
        '3'
    } else if d == 4 {
        '4'
    } else if d == 5 {
        '5'
    } else if d == 6 {
        '6'
    } else if d == 7 {
        '7'
    } else if d == 8 {
        '8'
    } else {
        '9'
    }
}

/// `std::string::String::push`: the character is added at the end.
#[verifier::external_body]
fn push_char(s: &mut String, c: char)
    ensures
        final(s)@ == old(s)@.push(c),
{
    s.push(c)
}

fn decimal(n: usize) -> (s: String)
    ensures
        s@ == decimal_text(n as nat),
    decreases n,
{
    if n < 10 {
        let mut s = String::new();
        push_char(&mut s, digit(n));
        s
    } else {
        let mut s = decimal(n / 10);
        push_char(&mut s, digit(n % 10));
        s
    }
}

} // verus!
