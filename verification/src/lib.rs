//! An ordered collection of elements that can also be looked up by a unique
//! textual name derived from each element.

mod collection;
mod lookup;
mod named;

pub use collection::NamedVec;
pub use lookup::Lookup;
pub use named::{
    names_distinct, seq_has_name, seq_index_of_name, spec_upsert, spec_upsert_all, Named, Record,
};
