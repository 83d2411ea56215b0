use vstd::prelude::*;

verus! {

/// Errors of file system operations.
#[derive(Debug)]
pub enum FsError {
    /// The block device reported a fault.
    BlockDeviceError,
    /// The file or directory does not exist.
    NotFound,
    /// No permission to access the path.
    AccessViolation,
    /// The root sector of the volume does not have the expected shape.
    InvalidSuperBlock,
    /// A sector address lies outside the data region.
    InvalidAddress,
    /// The free list is exhausted.
    NotEnoughSpace,
    /// The on-disk structures contradict each other.
    InternalError(String),
    /// The operation is not allowed on its target.
    IllegalOperation(String),
}

/// Result type of file system operations.
pub type FsResult<T> = Result<T, FsError>;

/// The kind of an [`FsError`], without its detail text.
#[derive(Clone, Copy, Debug, PartialEq, Eq, Structural)]
pub enum ErrorKind {
    BlockDeviceError,
    NotFound,
    AccessViolation,
    InvalidSuperBlock,
    InvalidAddress,
    NotEnoughSpace,
    InternalError,
    IllegalOperation,
}

/// Code handed to user space for [`FsError::NotFound`].
pub const NOT_FOUND: i64 = -1;

/// Code handed to user space for [`FsError::AccessViolation`].
pub const ACCESS_VIOLATION: i64 = -2;

/// Code handed to user space for [`FsError::IllegalOperation`].
pub const ILLEGAL: i64 = -3;

/// Code handed to user space for every other error.
pub const OTHER: i64 = -4;

impl FsError {
    /// The kind of this error.
    pub open spec fn spec_kind(&self) -> ErrorKind {
        match *self {
            FsError::BlockDeviceError => ErrorKind::BlockDeviceError,
            FsError::NotFound => ErrorKind::NotFound,
            FsError::AccessViolation => ErrorKind::AccessViolation,
            FsError::InvalidSuperBlock => ErrorKind::InvalidSuperBlock,
            FsError::InvalidAddress => ErrorKind::InvalidAddress,
            FsError::NotEnoughSpace => ErrorKind::NotEnoughSpace,
            FsError::InternalError(_) => ErrorKind::InternalError,
            FsError::IllegalOperation(_) => ErrorKind::IllegalOperation,
        }
    }

    /// The kind of this error.
    #[verifier::when_used_as_spec(spec_kind)]
    pub fn kind(&self) -> (k: ErrorKind)
        ensures
            k == self.spec_kind(),
    {
        match self {
            FsError::BlockDeviceError => ErrorKind::BlockDeviceError,
            FsError::NotFound => ErrorKind::NotFound,
            FsError::AccessViolation => ErrorKind::AccessViolation,
            FsError::InvalidSuperBlock => ErrorKind::InvalidSuperBlock,
            FsError::InvalidAddress => ErrorKind::InvalidAddress,
            FsError::NotEnoughSpace => ErrorKind::NotEnoughSpace,
            FsError::InternalError(_) => ErrorKind::InternalError,
            FsError::IllegalOperation(_) => ErrorKind::IllegalOperation,
        }
    }

    /// An illegal-operation error with the given detail.
    pub fn illegal(detail: &str) -> (e: FsError)
        ensures
            e matches FsError::IllegalOperation(s) && s@ == detail@,
    {
        FsError::IllegalOperation(detail.to_owned())
    }

    /// An internal error with the given detail.
    pub fn internal(detail: &str) -> (e: FsError)
        ensures
            e matches FsError::InternalError(s) && s@ == detail@,
    {
        FsError::InternalError(detail.to_owned())
    }
}

/// The stable integer code that user space sees for an error: -1 for a missing path, -2 for
/// an access violation, -3 for an illegal operation and -4 for everything else.
pub open spec fn spec_error_to_const(kind: ErrorKind) -> i64 {
    match kind {
        ErrorKind::NotFound => NOT_FOUND,
        ErrorKind::AccessViolation => ACCESS_VIOLATION,
        ErrorKind::IllegalOperation => ILLEGAL,
        _ => OTHER,
    }
}

/// The integer code of an error.
pub fn error_to_const(err: FsError) -> (code: i64)
    ensures
        code == spec_error_to_const(err.spec_kind()),
        code < 0,
{
    match err {
        FsError::NotFound => NOT_FOUND,
        FsError::AccessViolation => ACCESS_VIOLATION,
        FsError::IllegalOperation(_) => ILLEGAL,
        _ => OTHER,
    }
}

/// Folds a result into one integer: the payload on success, the error's code otherwise.
pub fn map_err(result: FsResult<i64>) -> (code: i64)
    ensures
        code == match result {
            Ok(fd) => fd,
            Err(e) => spec_error_to_const(e.spec_kind()),
        },
{
    match result {
        Ok(fd) => fd,
        Err(err) => error_to_const(err),
    }
}

} // verus!
