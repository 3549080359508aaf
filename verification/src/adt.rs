//! A record that borrows its one field.

use vstd::prelude::*;

verus! {

/// A borrowed value behind a named field. Records of this type nest to any
/// depth, which makes them handy for showing how a pattern reaches through
/// references.
#[allow(dead_code)]
pub struct S<'a, T: 'a> {
    pub b: &'a T,
}

} // verus!
