//! Taking the value out of something that may hold none.

use vstd::prelude::*;

verus! {

/// Something that may hold a value.
pub trait GuardedUnwrap<'a, T> {
    /// The value, where there is one.
    fn guarded_unwrap_inner(self) -> Option<T>;
}

impl<'a, T> GuardedUnwrap<'a, T> for Option<T> {
    fn guarded_unwrap_inner(self) -> (r: Option<T>)
        ensures
            r == self,
    {
        self
    }
}

impl<'a, T> GuardedUnwrap<'a, &'a T> for &'a Option<T> {
    fn guarded_unwrap_inner(self) -> (r: Option<&'a T>)
        ensures
            match r {
                Some(value) => *self == Some(*value),
                None => *self is None,
            },
    {
        match self {
            Some(value) => Some(value),
            None => None,
        }
    }
}

impl<'a, T> GuardedUnwrap<'a, &'a mut T> for &'a mut Option<T> {
    fn guarded_unwrap_inner(self) -> (r: Option<&'a mut T>)
        ensures
            match r {
                Some(value) => *old(self) == Some(*value) && *final(self) == Some(*final(value)),
                None => *old(self) is None && *final(self) is None,
            },
    {
        match self {
            Some(value) => Some(value),
            None => None,
        }
    }
}

impl<'a, T, E> GuardedUnwrap<'a, T> for Result<T, E> {
    fn guarded_unwrap_inner(self) -> (r: Option<T>)
        ensures
            match self {
                Ok(value) => r == Some(value),
                Err(_) => r is None,
            },
    {
        match self {
            Ok(value) => Some(value),
            Err(_) => None,
        }
    }
}

impl<'a, T, E> GuardedUnwrap<'a, &'a T> for &'a Result<T, E> {
    fn guarded_unwrap_inner(self) -> (r: Option<&'a T>)
        ensures
            match r {
                Some(value) => *self is Ok && self->Ok_0 == *value,
                None => *self is Err,
            },
    {
        match self {
            Ok(value) => Some(value),
            Err(_) => None,
        }
    }
}

impl<'a, T, E> GuardedUnwrap<'a, &'a mut T> for &'a mut Result<T, E> {
    fn guarded_unwrap_inner(self) -> (r: Option<&'a mut T>)
        ensures
            match r {
                Some(value) => *old(self) == Ok::<T, E>(*value) && *final(self) == Ok::<T, E>(
                    *final(value),
                ),
                None => *old(self) is Err && *final(self) == *old(self),
            },
    {
        match self {
            Ok(value) => Some(value),
            Err(_) => None,
        }
    }
}

} // verus!
