//! A generic two-variant tagged union, used as a low-level building block by
//! the tree iterator's work queue.

use vstd::prelude::*;

verus! {

/// A value that is exactly one of two alternatives.
pub enum Either<T, U> {
    Left(T),
    Right(U),
}

impl<T, U> Either<T, U> {
    /// True exactly when this value holds the `Left` alternative.
    pub fn is_left(&self) -> (r: bool)
        ensures
            r == (self is Left),
    {
        match self {
            Either::Left(_) => true,
            Either::Right(_) => false,
        }
    }

    /// True exactly when this value holds the `Right` alternative.
    pub fn is_right(&self) -> (r: bool)
        ensures
            r == (self is Right),
    {
        match self {
            Either::Left(_) => false,
            Either::Right(_) => true,
        }
    }

    /// The `Left` contents, if this value holds them.
    pub fn left(&self) -> (r: Option<&T>)
        ensures
            match r {
                Some(x) => self is Left && *x == self->Left_0,
                None => self is Right,
            },
    {
        match self {
            Either::Left(x) => Some(x),
            Either::Right(_) => None,
        }
    }

    /// The `Right` contents, if this value holds them.
    pub fn right(&self) -> (r: Option<&U>)
        ensures
            match r {
                Some(y) => self is Right && *y == self->Right_0,
                None => self is Left,
            },
    {
        match self {
            Either::Left(_) => None,
            Either::Right(y) => Some(y),
        }
    }
}

} // verus!
