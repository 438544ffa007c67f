use vstd::prelude::*;

verus! {

/// An element of a [`NamedVec`](crate::NamedVec): a value that reports a
/// textual name of its own. The name identifies the element inside the
/// collection, so it must stay the same for as long as the element is stored;
/// changing an element in place so that its reported name changes leaves the
/// collection's index inconsistent and is a caller error.
pub trait Named {
    /// The element's name as a mathematical sequence of characters.
    spec fn spec_name(&self) -> Seq<char>;

    /// Returns the element's current name.
    fn name(&self) -> (r: &str)
        ensures
            r@ == self.spec_name(),
    ;
}

/// Holds when some element of `s` carries the name `name`.
pub open spec fn seq_has_name<T: Named>(s: Seq<T>, name: Seq<char>) -> bool {
    exists|i: int| 0 <= i < s.len() && (#[trigger] s[i].spec_name()) == name
}

/// The position of the element of `s` named `name`. This is the one such
/// position when `seq_has_name(s, name)` holds and the names in `s` are
/// distinct.
pub open spec fn seq_index_of_name<T: Named>(s: Seq<T>, name: Seq<char>) -> int {
    choose|i: int| 0 <= i < s.len() && (#[trigger] s[i].spec_name()) == name
}

/// Holds when no two elements of `s` share a name.
pub open spec fn names_distinct<T: Named>(s: Seq<T>) -> bool {
    forall|i: int, j: int| 0 <= i < j < s.len() ==> s[i].spec_name() != s[j].spec_name()
}

/// The sequence that results from upserting `item` into `s`: if an element
/// with the same name exists it is replaced at its position, otherwise `item`
/// is appended at the back.
pub open spec fn spec_upsert<T: Named>(s: Seq<T>, item: T) -> Seq<T> {
    if seq_has_name(s, item.spec_name()) {
        s.update(seq_index_of_name(s, item.spec_name()), item)
    } else {
        s.push(item)
    }
}

/// The sequence after upserting each element of `items` into `s` in order.
pub open spec fn spec_upsert_all<T: Named>(s: Seq<T>, items: Seq<T>) -> Seq<T>
    decreases items.len(),
{
    if items.len() == 0 {
        s
    } else {
        spec_upsert_all(spec_upsert(s, items[0]), items.drop_first())
    }
}

/// A ready-made element type: a string name paired with a numeric value.
#[derive(Debug, Clone, PartialEq)]
pub struct Record {
    pub name: String,
    pub value: u64,
}

impl Named for Record {
    open spec fn spec_name(&self) -> Seq<char> {
        self.name@
    }

    fn name(&self) -> &str {
        self.name.as_str()
    }
}

} // verus!
