//! Only this crate's types can be taken as a Prefix.

use vstd::prelude::*;

verus! {

/// Implemented by each type [`IntoPrefix`](super::IntoPrefix) is implemented for, and no other.
pub trait Sealed {}

impl Sealed for super::Prefix {}

impl<'a> Sealed for &'a super::Prefix {}

impl<'a> Sealed for &'a str {}

impl Sealed for String {}

impl<'a> Sealed for &'a String {}

} // verus!
