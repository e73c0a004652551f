use vstd::prelude::*;

verus! {

/// What a chain needs of its tokens: an equality test and a copy, both
/// faithful to the token's deep view.
///
/// Two tokens are the same token exactly when their deep views are equal.
pub trait Chainable: Sized + DeepView {
    /// Whether `self` and `other` are the same token.
    fn same_token(&self, other: &Self) -> (r: bool)
        ensures
            r == (self.deep_view() == other.deep_view()),
    ;

    /// A copy of the token.
    fn copy_token(&self) -> (r: Self)
        ensures
            r.deep_view() == self.deep_view(),
    ;
}

impl Chainable for u32 {
    fn same_token(&self, other: &Self) -> (r: bool) {
        *self == *other
    }

    fn copy_token(&self) -> (r: Self) {
        *self
    }
}

impl Chainable for u8 {
    fn same_token(&self, other: &Self) -> (r: bool) {
        *self == *other
    }

    fn copy_token(&self) -> (r: Self) {
        *self
    }
}

impl Chainable for u16 {
    fn same_token(&self, other: &Self) -> (r: bool) {
        *self == *other
    }

    fn copy_token(&self) -> (r: Self) {
        *self
    }
}

impl Chainable for u64 {
    fn same_token(&self, other: &Self) -> (r: bool) {
        *self == *other
    }

    fn copy_token(&self) -> (r: Self) {
        *self
    }
}

impl Chainable for usize {
    fn same_token(&self, other: &Self) -> (r: bool) {
        *self == *other
    }

    fn copy_token(&self) -> (r: Self) {
        *self
    }
}

impl Chainable for i32 {
    fn same_token(&self, other: &Self) -> (r: bool) {
        *self == *other
    }

    fn copy_token(&self) -> (r: Self) {
        *self
    }
}

impl Chainable for i64 {
    fn same_token(&self, other: &Self) -> (r: bool) {
        *self == *other
    }

    fn copy_token(&self) -> (r: Self) {
        *self
    }
}

impl Chainable for char {
    fn same_token(&self, other: &Self) -> (r: bool) {
        *self == *other
    }

    fn copy_token(&self) -> (r: Self) {
        *self
    }
}

impl Chainable for bool {
    fn same_token(&self, other: &Self) -> (r: bool) {
        *self == *other
    }

    fn copy_token(&self) -> (r: Self) {
        *self
    }
}

impl Chainable for String {
    fn same_token(&self, other: &Self) -> (r: bool) {
        *self == *other
    }

    fn copy_token(&self) -> (r: Self) {
        self.clone()
    }
}

} // verus!
