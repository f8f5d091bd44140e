//! Whether a value is at hand.

use vstd::prelude::*;

verus! {

/// A value that is at hand, one that is still to be looked for, or none.
#[derive(Debug)]
pub enum Status<T> {
    Known(T),
    Unknown,
    Absent,
}

impl<'a, T> Status<&'a mut T> {
    /// Lends the value out.
    pub fn as_deref_mut(&mut self) -> (r: Status<&mut T>)
        ensures
            match (*old(self), r) {
                (Status::Known(value), Status::Known(lent)) => {
                    &&& *lent == *value
                    &&& *final(self) matches Status::Known(after) && *after == *final(lent)
                        && *final(after) == *final(value)
                },
                (Status::Unknown, Status::Unknown) => *final(self) is Unknown,
                (Status::Absent, Status::Absent) => *final(self) is Absent,
                _ => false,
            },
    {
        match self {
            Status::Known(value) => Status::Known(&mut **value),
            Status::Unknown => Status::Unknown,
            Status::Absent => Status::Absent,
        }
    }
}

} // verus!
