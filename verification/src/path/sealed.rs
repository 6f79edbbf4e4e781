//! Only this crate's types can be taken as a Path.

use vstd::prelude::*;

verus! {

/// Implemented by each type [`IntoPath`](super::IntoPath) is implemented for, and no other.
pub trait Sealed {}

impl Sealed for super::Path {}

impl<'a> Sealed for &'a super::Path {}

impl<'a> Sealed for &'a str {}

impl Sealed for String {}

impl<'a> Sealed for &'a String {}

} // verus!
