use vstd::prelude::*;
use vstd::std_specs::convert::FromSpecImpl;

verus! {

/// Refers to an element of a [`NamedVec`](crate::NamedVec) either by its
/// name or by its position in the sequence.
///
/// A `&str` or a `usize` converts into a `Lookup` through `From`, so call
/// sites may build one with `"foo".into()` or `3.into()`.
#[derive(Debug, Clone, Copy)]
pub enum Lookup<'a> {
    Name(&'a str),
    Index(usize),
}

impl<'a> From<&'a str> for Lookup<'a> {
    fn from(s: &'a str) -> Self {
        Lookup::Name(s)
    }
}

impl<'a> FromSpecImpl<&'a str> for Lookup<'a> {
    open spec fn obeys_from_spec() -> bool {
        true
    }

    open spec fn from_spec(s: &'a str) -> Self {
        Lookup::Name(s)
    }
}

impl<'a> From<usize> for Lookup<'a> {
    fn from(i: usize) -> Self {
        Lookup::Index(i)
    }
}

impl<'a> FromSpecImpl<usize> for Lookup<'a> {
    open spec fn obeys_from_spec() -> bool {
        true
    }

    open spec fn from_spec(i: usize) -> Self {
        Lookup::Index(i)
    }
}

} // verus!
