use vstd::prelude::*;

verus! {

#[verifier::external_type_specification]
#[verifier::external_body]
pub struct ExIoError(std::io::Error);

#[verifier::external_type_specification]
#[verifier::external_body]
pub struct ExFromUtf8Error(std::string::FromUtf8Error);

/// XDR errors: the failures of the byte source or sink, of UTF-8
/// validation, and of the format itself.
#[derive(Debug)]
pub enum Error {
    /// An underlying I/O error; for a byte slice, input that ends too early.
    IOError(std::io::Error),
    /// A string whose bytes are not UTF-8.
    InvalidUtf8(std::string::FromUtf8Error),
    /// Encoding a discriminated union with a discriminant that has no arm.
    InvalidCase,
    /// Decoding an enum or boolean value outside its legal set.
    InvalidEnum,
    /// An array, opaque block or string longer than its limit.
    InvalidLen,
    /// Any other failure, with a message.
    Generic(String),
}

/// Relies on `std::io::Error::from`: builds the error of kind
/// `UnexpectedEof` that a reader gives when its input ends too early.
#[verifier::external_body]
fn eof_error() -> std::io::Error {
    std::io::Error::from(std::io::ErrorKind::UnexpectedEof)
}

impl Error {
    pub fn invalidcase() -> (r: Error)
        ensures
            r is InvalidCase,
    {
        Error::InvalidCase
    }

    pub fn invalidenum() -> (r: Error)
        ensures
            r is InvalidEnum,
    {
        Error::InvalidEnum
    }

    pub fn invalidlen() -> (r: Error)
        ensures
            r is InvalidLen,
    {
        Error::InvalidLen
    }

    pub fn badutf8(err: std::string::FromUtf8Error) -> (r: Error)
        ensures
            r == Error::InvalidUtf8(err),
    {
        Error::InvalidUtf8(err)
    }

    /// Wraps a failure of the byte source or sink.
    pub fn byteorder(err: std::io::Error) -> (r: Error)
        ensures
            r == Error::IOError(err),
    {
        Error::IOError(err)
    }

    pub fn generic(msg: String) -> (r: Error)
        ensures
            r == Error::Generic(msg),
    {
        Error::Generic(msg)
    }

    /// The error for input that ends before the value it should hold.
    pub fn eof() -> (r: Error)
        ensures
            r is IOError,
    {
        Error::IOError(eof_error())
    }
}

impl From<String> for Error {
    fn from(msg: String) -> (r: Error) {
        Error::Generic(msg)
    }
}

impl vstd::std_specs::convert::FromSpecImpl<String> for Error {
    open spec fn obeys_from_spec() -> bool {
        true
    }

    open spec fn from_spec(msg: String) -> Error {
        Error::Generic(msg)
    }
}

impl From<std::io::Error> for Error {
    fn from(err: std::io::Error) -> (r: Error) {
        Error::IOError(err)
    }
}

impl vstd::std_specs::convert::FromSpecImpl<std::io::Error> for Error {
    open spec fn obeys_from_spec() -> bool {
        true
    }

    open spec fn from_spec(err: std::io::Error) -> Error {
        Error::IOError(err)
    }
}

impl From<std::string::FromUtf8Error> for Error {
    fn from(err: std::string::FromUtf8Error) -> (r: Error) {
        Error::InvalidUtf8(err)
    }
}

impl vstd::std_specs::convert::FromSpecImpl<std::string::FromUtf8Error> for Error {
    open spec fn obeys_from_spec() -> bool {
        true
    }

    open spec fn from_spec(err: std::string::FromUtf8Error) -> Error {
        Error::InvalidUtf8(err)
    }
}

/// Relies on the `Display` text of `std::io::Error`.
#[verifier::external_body]
fn io_error_text(err: &std::io::Error) -> String {
    err.to_string()
}

/// Relies on the `Display` text of `std::string::FromUtf8Error`.
#[verifier::external_body]
fn utf8_error_text(err: &std::string::FromUtf8Error) -> String {
    err.to_string()
}

impl Error {
    /// A short text that describes the error: the cause's own text for a
    /// wrapped failure, the message of a generic error.
    pub fn description(&self) -> (r: String)
        ensures
            self is Generic ==> r@ == self->Generic_0@,
            self is InvalidCase ==> r@ == "invalid switch case"@,
            self is InvalidEnum ==> r@ == "invalid enum value"@,
            self is InvalidLen ==> r@ == "invalid string/array length"@,
    {
        match self {
            Error::IOError(e) => io_error_text(e),
            Error::InvalidUtf8(e) => utf8_error_text(e),
            Error::InvalidCase => String::from_str("invalid switch case"),
            Error::InvalidEnum => String::from_str("invalid enum value"),
            Error::InvalidLen => String::from_str("invalid string/array length"),
            Error::Generic(m) => m.clone(),
        }
    }
}

} // verus!
