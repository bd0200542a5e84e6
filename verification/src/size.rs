//! A size that is never zero.
use core::num::NonZero;
use vstd::prelude::*;

verus! {

/// A `u32` that is known not to be zero.
///
/// It holds a `core::num::NonZero<u32>`, so an `Option<NonZeroSize>` takes no
/// more room than a `u32`. The verifier cannot look into `NonZero`, so the
/// struct is opaque to it and [`nonzero_value`] names the number inside.
#[verifier::external_body]
#[derive(Copy, Debug, PartialEq, Eq, PartialOrd, Ord, Hash)]
pub struct NonZeroSize {
    inner: NonZero<u32>,
}

/// The number that a [`NonZeroSize`] holds.
pub uninterp spec fn nonzero_value(size: NonZeroSize) -> u32;

impl Clone for NonZeroSize {
    fn clone(&self) -> (copy: Self)
        ensures
            copy == *self,
    {
        *self
    }
}

impl View for NonZeroSize {
    type V = int;

    open spec fn view(&self) -> int {
        nonzero_value(*self) as int
    }
}

/// `NonZero::<u32>::new`: `None` for zero, and for any other value a size
/// that holds that value.
#[verifier::external_body]
fn nonzero_new(value: u32) -> (size: Option<NonZeroSize>)
    ensures
        value == 0 ==> size.is_none(),
        value != 0 ==> size.is_some() && nonzero_value(size.unwrap()) == value,
{
    NonZero::new(value).map(|inner| NonZeroSize { inner })
}

/// `NonZero::<u32>::get`: the value held, which is not zero.
#[verifier::external_body]
fn nonzero_get(size: NonZeroSize) -> (value: u32)
    ensures
        value == nonzero_value(size),
        value != 0,
{
    size.inner.get()
}

impl NonZeroSize {
    /// The size that holds `value`, or `None` if `value` is zero.
    pub fn new(value: u32) -> (size: Option<NonZeroSize>)
        ensures
            value == 0 ==> size.is_none(),
            value != 0 ==> size.is_some() && size.unwrap()@ == value,
    {
        nonzero_new(value)
    }

    /// The value held. It is never zero.
    pub fn get(self) -> (value: u32)
        ensures
            value == self@,
            value > 0,
    {
        nonzero_get(self)
    }
}

} // verus!
