use vstd::prelude::*;

verus! {

/// Unwrapping of a value that the caller has shown to be present.
pub trait SafeUnwrap: Sized {
    type Contained;

    /// The value is present.
    spec fn holds_value(&self) -> bool;

    /// The value held, when present.
    spec fn held(&self) -> Self::Contained;

    /// The value held; callers show first that it is present.
    fn safe_unwrap(self) -> (r: Self::Contained)
        requires
            self.holds_value(),
        ensures
            r == self.held(),
    ;
}

impl<T> SafeUnwrap for Option<T> {
    type Contained = T;

    open spec fn holds_value(&self) -> bool {
        self is Some
    }

    open spec fn held(&self) -> T {
        self->0
    }

    fn safe_unwrap(self) -> (r: T) {
        match self {
            Some(v) => v,
            None => unreached(),
        }
    }
}

impl<T, E> SafeUnwrap for Result<T, E> {
    type Contained = T;

    open spec fn holds_value(&self) -> bool {
        self is Ok
    }

    open spec fn held(&self) -> T {
        self->Ok_0
    }

    fn safe_unwrap(self) -> (r: T) {
        match self {
            Ok(v) => v,
            Err(_) => unreached(),
        }
    }
}

} // verus!
