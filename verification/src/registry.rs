use vstd::prelude::*;

use crate::text::ascii_str_eq;

verus! {

use vstd::string::StringExecFnsIsAscii;
use vstd::utf8::is_ascii_chars;

/// Handle into a [`Registry`].  Ids are assigned sequentially starting at
/// 1 and never reused; they come only from [`Registry::register`].
#[derive(Debug, Clone, Copy, PartialEq, Eq, Hash, Structural)]
pub struct Id(pub usize);

/// A generic append-only registry of named values: an ordered list of
/// values plus a name lookup.  The value registered under the i-th name
/// (0-based) has id i + 1.  Names are ASCII; a name registers only once.
pub struct Registry<T> {
    data: Vec<T>,
    names: Vec<String>,
}

impl<T> Registry<T> {
    /// The registered names in registration order.
    pub closed spec fn names_view(self) -> Seq<Seq<char>> {
        self.names@.map_values(|s: String| s@)
    }

    /// The registered values in registration order.
    pub closed spec fn values_view(self) -> Seq<T> {
        self.data@
    }

    pub open spec fn num_values(self) -> int {
        self.names_view().len() as int
    }

    pub open spec fn wf(self) -> bool {
        &&& self.names_view().len() == self.values_view().len()
        &&& forall|i: int|
            0 <= i < self.names_view().len() ==> is_ascii_chars(#[trigger] self.names_view()[i])
        &&& forall|i: int, j: int|
            0 <= i < j < self.names_view().len() ==> self.names_view()[i] != self.names_view()[j]
    }

    pub open spec fn valid_id(self, id: Id) -> bool {
        1 <= id.0 <= self.num_values()
    }

    pub open spec fn contains_name(self, name: Seq<char>) -> bool {
        exists|i: int| 0 <= i < self.names_view().len() && #[trigger] self.names_view()[i] == name
    }

    pub fn new() -> (r: Self)
        ensures
            r.wf(),
            r.num_values() == 0,
    {
        let r = Registry { data: Vec::new(), names: Vec::new() };
        proof {
            assert(r.names_view() =~= Seq::<Seq<char>>::empty());
        }
        r
    }

    /// Append a value under a new name and hand back its id.
    pub fn register(&mut self, name: String, value: T) -> (r: Id)
        requires
            old(self).wf(),
            name.is_ascii(),
            !old(self).contains_name(name@),
            old(self).num_values() < usize::MAX,
        ensures
            final(self).wf(),
            r.0 == old(self).num_values() + 1,
            final(self).names_view() == old(self).names_view().push(name@),
            final(self).values_view() == old(self).values_view().push(value),
    {
        let id = Id(self.data.len() + 1);
        self.names.push(name);
        self.data.push(value);
        proof {
            assert(self.names_view() =~= old(self).names_view().push(self.names@.last()@));
        }
        id
    }

    /// The id registered for a name, if any.
    pub fn id(&self, name: &str) -> (r: Option<Id>)
        requires
            self.wf(),
        ensures
            match r {
                Some(id) => {
                    &&& self.valid_id(id)
                    &&& self.names_view()[id.0 - 1] == name@
                },
                None => !self.contains_name(name@),
            },
    {
        if !name.is_ascii() {
            return None;
        }
        let n = self.names.len();
        let mut i: usize = 0;
        while i < n
            invariant
                i <= n,
                n == self.names_view().len(),
                self.wf(),
                name.is_ascii(),
                forall|j: int| 0 <= j < i ==> self.names_view()[j] != name@,
            decreases n - i,
        {
            proof {
                assert(self.names_view()[i as int] == self.names@[i as int]@);
            }
            if ascii_str_eq(self.names[i].as_str(), name) {
                return Some(Id(i + 1));
            }
            i += 1;
        }
        None
    }

    /// The value registered under an id.
    pub fn block(&self, id: Id) -> (r: &T)
        requires
            self.wf(),
            self.valid_id(id),
        ensures
            *r == self.values_view()[id.0 - 1],
    {
        &self.data[id.0 - 1]
    }
}

} // verus!
