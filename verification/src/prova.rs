//! A record that keeps two functions next to a text and a number.

use vstd::prelude::*;
use core::marker::PhantomData;

verus! {

/// A text, a number and two functions over lists of `T`.
pub struct Prova<T, F> {
    pub a: String,
    pub b: i32,
    pub f: F,
    pub f1: F,
    pub items: PhantomData<T>,
}

impl<T, F: Fn(&[T])> Prova<T, F> {
    /// The record of the four values.
    pub fn new(a: String, b: i32, f: F, f1: F) -> (r: Self)
        ensures
            r.a == a,
            r.b == b,
            r.f == f,
            r.f1 == f1,
    {
        Self { a, b, f, f1, items: PhantomData }
    }
}

} // verus!
