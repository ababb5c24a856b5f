use vstd::prelude::*;

verus! {

/// The outcome of a file-system operation.
#[derive(Copy, Clone, PartialEq, Eq)]
pub enum FileSystemResult<T: Copy + Clone> {
    Success(T),
    Failure(FileSystemError),
}

impl<T: Copy + Clone> FileSystemResult<T> {
    /// The success value; calling it on an error is ruled out by `requires`.
    pub fn unwrap(&self) -> (r: T)
        requires
            self is Success,
        ensures
            *self == FileSystemResult::<T>::Success(r),
    {
        match self {
            FileSystemResult::Success(v) => *v,
            FileSystemResult::Failure(_) => vstd::pervasive::unreached(),
        }
    }
}

/// Every way in which an operation can fail.
#[derive(Copy, Clone, Eq, PartialEq, Debug, Structural)]
pub enum FileSystemError {
    FileNotFound,
    FileNotOpen,
    NotOpenForRead,
    NotOpenForWrite,
    TooManyOpen,
    TooManyFiles,
    AlreadyOpen,
    DiskFull,
    FileTooBig,
    FilenameTooLong,
}

} // verus!
