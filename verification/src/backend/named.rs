//! Values kept by name, each under the handle it got first.

use vstd::prelude::*;

use crate::text;

verus! {

/// A table of named values. A value's handle is its place.
pub struct Named<T> {
    pub names: Vec<String>,
    pub values: Vec<T>,
}

/// The texts of a list of strings.
pub open spec fn texts(names: Seq<String>) -> Seq<Seq<char>> {
    Seq::new(names.len(), |i: int| names[i]@)
}

impl<T> Named<T> {
    /// Every value has a name, and no two the same.
    pub open spec fn wf(self) -> bool {
        &&& self.names@.len() == self.values@.len()
        &&& forall|i: int, j: int|
            0 <= i < j < self.names@.len() ==> #[trigger] self.names@[i]@ != #[trigger] self.names@[j]@
    }

    /// Whether a name stands at a handle.
    pub open spec fn at(self, key: Seq<char>, handle: int) -> bool {
        0 <= handle < self.names@.len() && self.names@[handle]@ == key
    }

    /// Whether a name is known.
    pub open spec fn knows(self, key: Seq<char>) -> bool {
        exists|handle: int| #[trigger] self.at(key, handle)
    }

    pub fn new() -> (table: Named<T>)
        ensures
            table.wf(),
            table.names@.len() == 0,
    {
        Named { names: Vec::new(), values: Vec::new() }
    }

    /// The handle of a name, where it is known.
    pub fn find(&self, key: &str) -> (found: Option<usize>)
        requires
            self.wf(),
        ensures
            found is Some == self.knows(key@),
            found is Some ==> self.at(key@, found->Some_0 as int),
    {
        let mut i: usize = 0;
        while i < self.names.len()
            invariant
                i <= self.names@.len(),
                forall|j: int| 0 <= j < i ==> !#[trigger] self.at(key@, j),
            decreases self.names@.len() - i,
        {
            if text::same(self.names[i].as_str(), key) {
                assert(self.at(key@, i as int));
                return Some(i);
            }
            i = i + 1;
        }
        None
    }

    /// Keeps a value under a name not known yet.
    pub fn put(&mut self, key: &str, value: T) -> (handle: usize)
        requires
            old(self).wf(),
            !old(self).knows(key@),
        ensures
            final(self).wf(),
            handle == old(self).values@.len(),
            final(self).values@ == old(self).values@.push(value),
            texts(final(self).names@) == texts(old(self).names@).push(key@),
    {
        let ghost before = self.names@;
        let handle: usize = self.values.len();
        self.names.push(key.to_owned());
        self.values.push(value);
        proof {
            assert forall|i: int| 0 <= i < before.len() implies #[trigger] before[i]@ != key@ by {
                assert(!old(self).at(key@, i));
            }
            assert(forall|i: int| 0 <= i < before.len() ==> self.names@[i] == before[i]);
            assert(texts(self.names@) =~= texts(before).push(key@));
        }
        handle
    }

    /// The value behind a handle, where there is one.
    pub fn get(&self, handle: usize) -> (value: Option<&T>)
        ensures
            value is Some == (handle < self.values@.len()),
            value is Some ==> *value->Some_0 == self.values@[handle as int],
    {
        if handle < self.values.len() {
            Some(&self.values[handle])
        } else {
            None
        }
    }
}

/// A name has one handle.
pub proof fn a_name_has_one_handle<T>(table: Named<T>, key: Seq<char>, a: int, b: int)
    requires
        table.wf(),
        table.at(key, a),
        table.at(key, b),
    ensures
        a == b,
{
}

/// Keeping one more value moves none that was kept before.
pub proof fn keeping_moves_nothing<T>(
    before: Named<T>,
    after: Named<T>,
    key: Seq<char>,
    other: Seq<char>,
    value: T,
    handle: int,
)
    requires
        texts(after.names@) == texts(before.names@).push(key),
        after.values@ == before.values@.push(value),
        before.wf(),
        before.at(other, handle),
    ensures
        after.at(other, handle),
        after.values@[handle] == before.values@[handle],
{
    assert(texts(after.names@).len() == before.names@.len() + 1);
    assert(texts(after.names@)[handle] == texts(before.names@)[handle]);
}

} // verus!
