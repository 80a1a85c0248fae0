//! Values that might be missing: `Option` and `Result` seen as fallible values.
use vstd::prelude::*;
use core::fmt::Debug;

verus! {

/// A value which might be missing, such as an `Option` or a `Result`.
///
/// This is the common interface of the outputs of `filter_map` closures.
pub trait Fallible<T>: Sized {
    /// Whether a successful value is present.
    spec fn has_value_spec(&self) -> bool;

    /// The successful value; meaningful only when `has_value_spec` holds.
    spec fn value_spec(self) -> T;

    /// Returns the successful value; it must be present.
    fn value(self) -> (r: T)
        requires
            self.has_value_spec(),
        ensures
            r == self.value_spec(),
    ;

    /// Returns whether the fallible has a successful value.
    fn has_value(&self) -> (r: bool)
        ensures
            r == self.has_value_spec(),
    ;

    /// `Some(self.value())` if a value is present, `None` otherwise.
    fn into_option(self) -> (r: Option<T>)
        ensures
            r == (if self.has_value_spec() {
                Some(self.value_spec())
            } else {
                None::<T>
            }),
    {
        if self.has_value() {
            Some(self.value())
        } else {
            None
        }
    }
}

impl<T> Fallible<T> for Option<T> {
    open spec fn has_value_spec(&self) -> bool {
        self is Some
    }

    open spec fn value_spec(self) -> T {
        self->0
    }

    fn value(self) -> (r: T) {
        self.unwrap()
    }

    fn has_value(&self) -> (r: bool) {
        self.is_some()
    }
}

impl<T, E: Debug> Fallible<T> for Result<T, E> {
    open spec fn has_value_spec(&self) -> bool {
        self is Ok
    }

    open spec fn value_spec(self) -> T {
        self->Ok_0
    }

    fn value(self) -> (r: T) {
        self.unwrap()
    }

    fn has_value(&self) -> (r: bool) {
        self.is_ok()
    }
}

/// Conversion of an optional value into an `Option`.
pub trait IntoOption<T>: Sized {
    /// The option this value stands for.
    spec fn as_option(self) -> Option<T>;

    /// Converts into an `Option`.
    fn into_option(self) -> (r: Option<T>)
        ensures
            r == self.as_option(),
    ;

    /// Converts into a `Result` whose error is the unit: `Some(x)` to `Ok(x)`, `None` to `Err(())`.
    fn into_result_with_unit_err(self) -> (r: Result<T, ()>)
        ensures
            r == (match self.as_option() {
                Some(x) => Ok::<T, ()>(x),
                None => Err::<T, ()>(()),
            }),
    ;
}

impl<T> IntoOption<T> for Option<T> {
    open spec fn as_option(self) -> Option<T> {
        self
    }

    fn into_option(self) -> (r: Option<T>) {
        self
    }

    fn into_result_with_unit_err(self) -> (r: Result<T, ()>) {
        match self {
            Some(x) => Ok(x),
            None => Err(()),
        }
    }
}

/// Conversion of a result with unit error back into an `Option`.
pub trait ResultIntoOption<T>: Sized {
    /// The option this result stands for.
    spec fn as_option(self) -> Option<T>;

    /// `Ok(x)` becomes `Some(x)`, `Err(())` becomes `None`.
    fn into_option(self) -> (r: Option<T>)
        ensures
            r == self.as_option(),
    ;
}

impl<T> ResultIntoOption<T> for Result<T, ()> {
    open spec fn as_option(self) -> Option<T> {
        match self {
            Ok(x) => Some(x),
            Err(_) => None,
        }
    }

    fn into_option(self) -> (r: Option<T>) {
        match self {
            Ok(x) => Some(x),
            Err(_) => None,
        }
    }
}

/// Conversion of a fallible value into a `Result`.
pub trait IntoResult<T, E>: Sized {
    /// The result this value stands for.
    spec fn as_result(self) -> Result<T, E>;

    /// Converts into a `Result`.
    fn into_result(self) -> (r: Result<T, E>)
        ensures
            r == self.as_result(),
    ;
}

impl<T> IntoResult<T, ()> for Option<T> {
    open spec fn as_result(self) -> Result<T, ()> {
        match self {
            Some(x) => Ok(x),
            None => Err(()),
        }
    }

    fn into_result(self) -> (r: Result<T, ()>) {
        self.into_result_with_unit_err()
    }
}

impl<T, E> IntoResult<T, E> for Result<T, E> {
    open spec fn as_result(self) -> Result<T, E> {
        self
    }

    fn into_result(self) -> (r: Result<T, E>) {
        self
    }
}

} // verus!
