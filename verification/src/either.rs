//! A value of one of two types.

use vstd::prelude::*;

verus! {

/// Either a `Left` or a `Right`.
#[derive(Debug, Clone, Copy)]
pub enum Either<L, R> {
    Left(L),
    Right(R),
}

impl<L, R> Either<L, R> {
    /// Whether this is a `Left`.
    pub fn is_left(&self) -> (b: bool)
        ensures
            b == (self is Left),
    {
        match self {
            Either::Left(_) => true,
            Either::Right(_) => false,
        }
    }

    /// Whether this is a `Right`.
    pub fn is_right(&self) -> (b: bool)
        ensures
            b == (self is Right),
    {
        match self {
            Either::Left(_) => false,
            Either::Right(_) => true,
        }
    }

    /// The left value, if this is a `Left`.
    pub fn left(self) -> (o: Option<L>)
        ensures
            o == match self {
                Either::Left(l) => Some(l),
                Either::Right(_) => None::<L>,
            },
    {
        match self {
            Either::Left(l) => Some(l),
            Either::Right(_) => None,
        }
    }

    /// The right value, if this is a `Right`.
    pub fn right(self) -> (o: Option<R>)
        ensures
            o == match self {
                Either::Left(_) => None::<R>,
                Either::Right(r) => Some(r),
            },
    {
        match self {
            Either::Left(_) => None,
            Either::Right(r) => Some(r),
        }
    }

    /// The left value of a `Left`.
    pub fn unwrap_left(self) -> (l: L)
        requires
            self is Left,
        ensures
            self == Either::<L, R>::Left(l),
    {
        match self {
            Either::Left(l) => l,
            Either::Right(_) => unreached(),
        }
    }

    /// The right value of a `Right`.
    pub fn unwrap_right(self) -> (r: R)
        requires
            self is Right,
        ensures
            self == Either::<L, R>::Right(r),
    {
        match self {
            Either::Left(_) => unreached(),
            Either::Right(r) => r,
        }
    }
}

} // verus!
