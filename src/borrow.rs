use vstd::prelude::*;

use crate::Val;

verus! {

/// Gives the view of a value that a buffer copies from.
pub trait Borrow {
    type Borrowed: ?Sized;

    /// The value that `self` stands for.
    spec fn val(&self) -> Val;

    /// The value that a borrowed view stands for.
    spec fn borrowed_val(b: &Self::Borrowed) -> Val;

    /// `b` views exactly the data of `self`.
    spec fn is_view_of(&self, b: &Self::Borrowed) -> bool;

    fn borrow(&self) -> (r: &Self::Borrowed)
        ensures
            Self::borrowed_val(r) == self.val(),
            self.is_view_of(r),
    ;
}

impl Borrow for u64 {
    type Borrowed = u64;

    open spec fn val(&self) -> Val {
        Val::Int(*self)
    }

    open spec fn borrowed_val(b: &u64) -> Val {
        Val::Int(*b)
    }

    open spec fn is_view_of(&self, b: &u64) -> bool {
        *b == *self
    }

    fn borrow(&self) -> (r: &u64) {
        self
    }
}

impl Borrow for String {
    type Borrowed = str;

    open spec fn val(&self) -> Val {
        Val::Text(self@)
    }

    open spec fn borrowed_val(b: &str) -> Val {
        Val::Text(b@)
    }

    open spec fn is_view_of(&self, b: &str) -> bool {
        b@ == self@
    }

    fn borrow(&self) -> (r: &str) {
        self.as_str()
    }
}

impl<T: Borrow> Borrow for Vec<T> {
    type Borrowed = [T];

    open spec fn val(&self) -> Val {
        Val::List(self@.map_values(|x: T| x.val()))
    }

    open spec fn borrowed_val(b: &[T]) -> Val {
        Val::List(b@.map_values(|x: T| x.val()))
    }

    open spec fn is_view_of(&self, b: &[T]) -> bool {
        b@ == self@
    }

    fn borrow(&self) -> (r: &[T]) {
        self.as_slice()
    }
}

} // verus!
