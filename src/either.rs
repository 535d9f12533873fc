//! A value of one of two types.
use vstd::prelude::*;

verus! {

/// One of two values: a dispatched unit is either a parsed identifier or the
/// raw text it was read from.
#[derive(Debug, Clone, Copy, PartialEq, Eq, Hash)]
pub enum Either<A, B> {
    Left(A),
    Right(B),
}

impl<A: View, B: View> View for Either<A, B> {
    type V = Either<A::V, B::V>;

    open spec fn view(&self) -> Either<A::V, B::V> {
        match self {
            Either::Left(a) => Either::Left(a@),
            Either::Right(b) => Either::Right(b@),
        }
    }
}

impl<A, B> Either<A, B> {
    pub fn left(self) -> (r: Option<A>)
        ensures
            match self {
                Either::Left(a) => r == Some(a),
                Either::Right(_) => r is None,
            },
    {
        match self {
            Either::Left(a) => Some(a),
            Either::Right(_) => None,
        }
    }

    pub fn right(self) -> (r: Option<B>)
        ensures
            match self {
                Either::Left(_) => r is None,
                Either::Right(b) => r == Some(b),
            },
    {
        match self {
            Either::Left(_) => None,
            Either::Right(b) => Some(b),
        }
    }

    pub fn is_left(&self) -> (r: bool)
        ensures
            r == self is Left,
    {
        match self {
            Either::Left(_) => true,
            Either::Right(_) => false,
        }
    }

    pub fn is_right(&self) -> (r: bool)
        ensures
            r == self is Right,
    {
        match self {
            Either::Left(_) => false,
            Either::Right(_) => true,
        }
    }
}

} // verus!
