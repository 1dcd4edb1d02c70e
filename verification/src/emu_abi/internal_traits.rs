//! Traits that the emulator's own types share.

use vstd::prelude::*;

verus! {

/// A type that can initialize itself directly inside storage that its caller provides.
pub trait InitInPlace: Sized {
    /// Puts a value into `this` and returns a reference to it.
    fn init(this: &mut Option<Self>) -> (r: &mut Self)
        ensures
            *final(this) == Some(*final(r)),
    ;
}

impl<T: Default> InitInPlace for T {
    fn init(this: &mut Option<Self>) -> (r: &mut Self)
        ensures
            *final(this) == Some(*final(r)),
            call_ensures(T::default, (), *r),
    {
        *this = Some(T::default());
        this.as_mut().unwrap()
    }
}

} // verus!
