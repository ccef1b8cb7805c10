//! Status codes returned by firmware routines. The word `0` is success;
//! values with the sign bit clear are warnings; values with the sign bit set
//! are errors, whose code is the word with the sign bit masked off.

use vstd::prelude::*;

verus! {

/// The status word's sign bit: values at or above it carry an error code.
pub const SIGN_BIT: usize = usize::MAX / 2 + 1;

/// Status code returned by firmware routines.
#[derive(Clone, Copy, Debug, PartialEq, Eq, Structural)]
pub enum Status {
    /// The function returned successfully.
    Success,
    /// The function returned with a warning.
    Warning(Warning),
    /// The function returned unsuccessfully.
    Error(Error),
}

/// Warning codes returned by firmware functions.
#[derive(Clone, Copy, Debug, PartialEq, Eq, Structural)]
pub enum Warning {
    /// The string contained characters the device could not render; they were
    /// skipped.
    UnknownGlyph,
    /// The handle was closed, but the file was not deleted.
    DeleteFailure,
    /// The handle was closed, but the file data was not flushed properly.
    WriteFailure,
    /// The buffer was too small and the data was truncated to fit it.
    BufferTooSmall,
    /// The data has not been updated within the timeframe local policy sets
    /// for it.
    StaleData,
    /// The buffer contains a compliant file system.
    FileSystem,
    /// The operation will be processed across a system reset.
    ResetRequired,
    /// A warning the specification does not define, likely vendor defined.
    Undefined,
}

/// Error codes returned by firmware functions.
#[derive(Clone, Copy, Debug, PartialEq, Eq, Structural)]
pub enum Error {
    /// The image failed to load.
    LoadError,
    /// A parameter was incorrect.
    InvalidParameter,
    /// The operation is not supported.
    Unsupported,
    /// The buffer was not the proper size for the request.
    BadBufferSize,
    /// The buffer is not large enough to hold the requested data; the needed
    /// size is returned in the appropriate parameter.
    BufferTooSmall,
    /// There is no data pending upon return.
    NotRead,
    /// The physical device reported an error while attempting the operation.
    DeviceError,
    /// The device cannot be written to.
    WriteProtected,
    /// A resource has run out.
    OutOfResources,
    /// An inconsistency was detected on the file system.
    VolumeCorrupted,
    /// There is no more space on the file system.
    VolumeFull,
    /// The device does not contain any medium to perform the operation.
    NoMedia,
    /// The medium in the device has changed since the last access.
    MediaChanged,
    /// The item was not found.
    NotFound,
    /// Access was denied.
    AccessDenied,
    /// The server was not found or did not respond to the request.
    NoResponse,
    /// A mapping to a device does not exist.
    NoMapping,
    /// The timeout time expired.
    Timeout,
    /// The protocol has not been started.
    NotStarted,
    /// The protocol has already been started.
    AlreadyStarted,
    /// The operation was aborted.
    Aborted,
    /// An ICMP error occurred during the network operation.
    IcmpError,
    /// A TFTP error occurred during the network operation.
    TftpError,
    /// A protocol error occurred during the network operation.
    ProtocolError,
    /// The function met an internal version incompatible with the one the
    /// caller requested.
    IncompatibleVersion,
    /// The function was not performed due to a security violation.
    SecurityViolation,
    /// A CRC error was detected.
    CrcError,
    /// The beginning or the end of the media was reached.
    EndOfMedia,
    /// The end of the file was reached.
    EndOfFile,
    /// The language specified was invalid.
    InvalidLanguage,
    /// The security status of the data is unknown or compromised and it must
    /// be updated or replaced.
    CompromisedData,
    /// There is an address conflict in address allocation.
    AddressConflict,
    /// An HTTP error occurred during the network operation.
    HttpError,
    /// An error the specification does not define, likely vendor defined.
    Undefined,
}

/// The warning each code stands for.
pub open spec fn spec_warning_from(code: int) -> Warning {
    if code == 1 {
        Warning::UnknownGlyph
    } else if code == 2 {
        Warning::DeleteFailure
    } else if code == 3 {
        Warning::WriteFailure
    } else if code == 4 {
        Warning::BufferTooSmall
    } else if code == 5 {
        Warning::StaleData
    } else if code == 6 {
        Warning::FileSystem
    } else if code == 7 {
        Warning::ResetRequired
    } else {
        Warning::Undefined
    }
}

/// The error each code stands for.
pub open spec fn spec_error_from(code: int) -> Error {
    if code == 1 {
        Error::LoadError
    } else if code == 2 {
        Error::InvalidParameter
    } else if code == 3 {
        Error::Unsupported
    } else if code == 4 {
        Error::BadBufferSize
    } else if code == 5 {
        Error::BufferTooSmall
    } else if code == 6 {
        Error::NotRead
    } else if code == 7 {
        Error::DeviceError
    } else if code == 8 {
        Error::WriteProtected
    } else if code == 9 {
        Error::OutOfResources
    } else if code == 10 {
        Error::VolumeCorrupted
    } else if code == 11 {
        Error::VolumeFull
    } else if code == 12 {
        Error::NoMedia
    } else if code == 13 {
        Error::MediaChanged
    } else if code == 14 {
        Error::NotFound
    } else if code == 15 {
        Error::AccessDenied
    } else if code == 16 {
        Error::NoResponse
    } else if code == 17 {
        Error::NoMapping
    } else if code == 18 {
        Error::Timeout
    } else if code == 19 {
        Error::NotStarted
    } else if code == 20 {
        Error::AlreadyStarted
    } else if code == 21 {
        Error::Aborted
    } else if code == 22 {
        Error::IcmpError
    } else if code == 23 {
        Error::TftpError
    } else if code == 24 {
        Error::ProtocolError
    } else if code == 25 {
        Error::IncompatibleVersion
    } else if code == 26 {
        Error::SecurityViolation
    } else if code == 27 {
        Error::CrcError
    } else if code == 28 {
        Error::EndOfMedia
    } else if code == 31 {
        Error::EndOfFile
    } else if code == 32 {
        Error::InvalidLanguage
    } else if code == 33 {
        Error::CompromisedData
    } else if code == 34 {
        Error::AddressConflict
    } else if code == 35 {
        Error::HttpError
    } else {
        Error::Undefined
    }
}

/// How a raw status word reads: zero is success, a word below the sign bit a
/// warning, a word at or above it an error whose code has the sign bit masked
/// off.
pub open spec fn spec_status_from(val: int) -> Status {
    if val == 0 {
        Status::Success
    } else if val < SIGN_BIT {
        Status::Warning(spec_warning_from(val))
    } else {
        Status::Error(spec_error_from(val - SIGN_BIT))
    }
}

impl From<usize> for Warning {
    /// Decode a warning code.
    fn from(val: usize) -> (r: Warning) {
        match val {
            1 => Warning::UnknownGlyph,
            2 => Warning::DeleteFailure,
            3 => Warning::WriteFailure,
            4 => Warning::BufferTooSmall,
            5 => Warning::StaleData,
            6 => Warning::FileSystem,
            7 => Warning::ResetRequired,
            _ => Warning::Undefined,
        }
    }
}

impl vstd::std_specs::convert::FromSpecImpl<usize> for Warning {
    open spec fn obeys_from_spec() -> bool {
        true
    }

    open spec fn from_spec(v: usize) -> Warning {
        spec_warning_from(v as int)
    }
}

impl From<usize> for Error {
    /// Decode an error code (the sign bit already masked off).
    fn from(val: usize) -> (r: Error) {
        match val {
            1 => Error::LoadError,
            2 => Error::InvalidParameter,
            3 => Error::Unsupported,
            4 => Error::BadBufferSize,
            5 => Error::BufferTooSmall,
            6 => Error::NotRead,
            7 => Error::DeviceError,
            8 => Error::WriteProtected,
            9 => Error::OutOfResources,
            10 => Error::VolumeCorrupted,
            11 => Error::VolumeFull,
            12 => Error::NoMedia,
            13 => Error::MediaChanged,
            14 => Error::NotFound,
            15 => Error::AccessDenied,
            16 => Error::NoResponse,
            17 => Error::NoMapping,
            18 => Error::Timeout,
            19 => Error::NotStarted,
            20 => Error::AlreadyStarted,
            21 => Error::Aborted,
            22 => Error::IcmpError,
            23 => Error::TftpError,
            24 => Error::ProtocolError,
            25 => Error::IncompatibleVersion,
            26 => Error::SecurityViolation,
            27 => Error::CrcError,
            28 => Error::EndOfMedia,
            31 => Error::EndOfFile,
            32 => Error::InvalidLanguage,
            33 => Error::CompromisedData,
            34 => Error::AddressConflict,
            35 => Error::HttpError,
            _ => Error::Undefined,
        }
    }
}

impl vstd::std_specs::convert::FromSpecImpl<usize> for Error {
    open spec fn obeys_from_spec() -> bool {
        true
    }

    open spec fn from_spec(v: usize) -> Error {
        spec_error_from(v as int)
    }
}

impl From<usize> for Status {
    /// Classify a raw status word by its sign bit and decode its code.
    fn from(val: usize) -> (r: Status) {
        if val == 0 {
            Status::Success
        } else if val < SIGN_BIT {
            Status::Warning(Warning::from(val))
        } else {
            Status::Error(Error::from(val - SIGN_BIT))
        }
    }
}

impl vstd::std_specs::convert::FromSpecImpl<usize> for Status {
    open spec fn obeys_from_spec() -> bool {
        true
    }

    open spec fn from_spec(v: usize) -> Status {
        spec_status_from(v as int)
    }
}

} // verus!
