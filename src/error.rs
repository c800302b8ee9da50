use vstd::prelude::*;

verus! {

/// Errors of a bus driver, mapped onto the generic kinds below so that code
/// written against any driver can act on them.
pub trait Error {
    /// The generic kind of this error.
    fn kind(&self) -> ErrorKind;
}

/// Generic 1-Wire error kinds.
#[derive(Debug, Clone, Copy, PartialEq, Eq, Structural, PartialOrd, Ord, Hash)]
#[non_exhaustive]
pub enum ErrorKind {
    /// A bus error occurred.
    Bus,
    /// The family code of the device did not match the expected one.
    FamilyCodeMismatch,
    /// No presence pulse was detected.
    NoPresencePulseDetected,
    /// The CRC check failed.
    CrcMismatch,
    /// A different error occurred; the driver's own error may tell more.
    Other,
}

/// The text that describes each kind.
pub open spec fn kind_text(k: ErrorKind) -> Seq<char> {
    match k {
        ErrorKind::Bus => "Bus error occurred"@,
        ErrorKind::FamilyCodeMismatch => "The family code of the device did not match the expected one"@,
        ErrorKind::NoPresencePulseDetected => "No presence pulse was detected"@,
        ErrorKind::CrcMismatch => "The CRC check failed"@,
        ErrorKind::Other => "A different error occurred. The original error may contain more information"@,
    }
}

impl ErrorKind {
    /// A sentence that describes this kind of error.
    pub fn message(&self) -> (r: &'static str)
        ensures
            r@ == kind_text(*self),
    {
        match self {
            ErrorKind::Bus => "Bus error occurred",
            ErrorKind::FamilyCodeMismatch => "The family code of the device did not match the expected one",
            ErrorKind::NoPresencePulseDetected => "No presence pulse was detected",
            ErrorKind::CrcMismatch => "The CRC check failed",
            ErrorKind::Other => "A different error occurred. The original error may contain more information",
        }
    }
}

impl Error for ErrorKind {
    fn kind(&self) -> ErrorKind {
        *self
    }
}

/// Names the error type of a bus driver.
pub trait ErrorType {
    /// The driver's error type.
    type Error: Error;
}

impl<T: ErrorType + ?Sized> ErrorType for &mut T {
    type Error = T::Error;
}

} // verus!
