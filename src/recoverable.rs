//! Results that may carry a value obtained by recovering from an error.
use vstd::prelude::*;

verus! {

pub enum Recoverable<T, E> {
    /// No error occurred.
    Success(T),
    Unrecoverable(E),
    /// An error occurred, but a usable value (such as a default) was found.
    Recoverable(T),
}

impl<T, E: Default> Recoverable<T, E> {
    /// The value, whether or not it came from a recovery.
    pub fn to_lenient_result(self) -> (r: Result<T, E>)
        ensures
            match self {
                Recoverable::Success(v) => r == Ok::<T, E>(v),
                Recoverable::Unrecoverable(e) => r == Err::<T, E>(e),
                Recoverable::Recoverable(v) => r == Ok::<T, E>(v),
            },
    {
        match self {
            Recoverable::Success(value) => Ok(value),
            Recoverable::Unrecoverable(error) => Err(error),
            Recoverable::Recoverable(value) => Ok(value),
        }
    }

    /// The value only when no error occurred; a recovered value gives the
    /// default error.
    pub fn to_result(self) -> (r: Result<T, E>)
        ensures
            match self {
                Recoverable::Success(v) => r == Ok::<T, E>(v),
                Recoverable::Unrecoverable(e) => r == Err::<T, E>(e),
                Recoverable::Recoverable(_) => r is Err,
            },
    {
        match self {
            Recoverable::Success(value) => Ok(value),
            Recoverable::Unrecoverable(error) => Err(error),
            Recoverable::Recoverable(_value) => Err(E::default()),
        }
    }
}

} // verus!
