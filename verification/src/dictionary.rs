//! The dictionary resolver: get-or-create resolution of a tag or category
//! name to a stable surrogate identifier.
//!
//! A dictionary holds normalized, deduplicated names. Entries are created
//! lazily and never deleted, so an entry's identifier is simply its position
//! in the table, stable for the table's whole life.

use vstd::prelude::*;

verus! {

/// One normalized name table (the tag set or the category set). The
/// identifier of a name is its index; names are never removed, so
/// identifiers stay stable across a run and across runs.
#[derive(Debug, Clone)]
pub struct DictTable {
    pub names: Vec<String>,
}

impl DictTable {
    /// The table as a sequence of names: the entry with identifier `i`
    /// holds the name at position `i`.
    pub open spec fn names_view(self) -> Seq<Seq<char>> {
        self.names.deep_view()
    }

    /// Name uniqueness: no two dictionary rows share the same name.
    pub open spec fn inv(self) -> bool {
        forall|i: int, j: int|
            0 <= i < j < self.names_view().len() ==> self.names_view()[i] != self.names_view()[j]
    }

    /// Whether some row already holds this name.
    pub open spec fn spec_contains_name(self, n: Seq<char>) -> bool {
        exists|i: int| 0 <= i < self.names_view().len() && self.names_view()[i] == n
    }

    pub fn new() -> (r: Self)
        ensures
            r.inv(),
            r.names_view() == Seq::<Seq<char>>::empty(),
    {
        DictTable { names: Vec::new() }
    }

    /// Look the name up; `Some(i)` is the unique row holding it.
    pub fn lookup(&self, name: &String) -> (r: Option<usize>)
        ensures
            match r {
                Some(i) => i < self.names_view().len() && self.names_view()[i as int] == name@,
                None => !self.spec_contains_name(name@),
            },
    {
        let n = self.names.len();
        let mut i: usize = 0;
        while i < n
            invariant
                n == self.names.len(),
                i <= n,
                forall|k: int| 0 <= k < i ==> self.names_view()[k] != name@,
            decreases n - i,
        {
            if self.names[i] == *name {
                return Some(i);
            }
            i = i + 1;
        }
        None
    }

    /// Get-or-create: the identifier of the row holding `name`, creating
    /// that row if no row holds it yet. Lookup miss followed by creation is
    /// one logical operation here, so a name resolved twice within a run
    /// yields the same identifier and at most one row.
    pub fn resolve(&mut self, name: &String) -> (id: usize)
        requires
            old(self).inv(),
        ensures
            final(self).inv(),
            id < final(self).names_view().len(),
            final(self).names_view()[id as int] == name@,
            old(self).spec_contains_name(name@) ==> final(self).names_view()
                == old(self).names_view(),
            !old(self).spec_contains_name(name@) ==> final(self).names_view()
                == old(self).names_view().push(name@) && id == old(self).names_view().len(),
    {
        match self.lookup(name) {
            Some(i) => i,
            None => {
                let id = self.names.len();
                self.names.push(name.clone());
                assert(self.names_view() =~= old(self).names_view().push(name@));
                id
            },
        }
    }
}

} // verus!
