//! The catalogue store: an essays table and two normalized dictionaries
//! (tags, categories) joined through association tables.
//!
//! The store keeps one row per essay identifier, dictionary names unique,
//! and every association row pointing at an existing essay and an existing
//! dictionary entry. An essay's association set is always replaced wholly:
//! an update deletes every association of the essay and re-inserts its
//! current source-declared set, so no stale association survives.

use vstd::prelude::*;

use crate::data_struct::Essay;
use crate::data_struct::EssayInfo;
use crate::dictionary::DictTable;
use crate::error::Error;

verus! {

/// The mathematical content of one essays-table row.
pub struct RowView {
    pub eid: Seq<char>,
    pub title: Seq<char>,
    pub date: Seq<char>,
    pub brief: Seq<char>,
    pub content: Seq<char>,
    pub last_save_time: int,
}

/// One row of the essays table. `last_save_time` is assigned by the store's
/// mutations (the run instant of the mutating reconciliation), never taken
/// from the source document.
#[derive(Debug, Clone)]
pub struct EssayRow {
    pub eid: String,
    pub title: String,
    pub date: String,
    pub brief: String,
    pub content: String,
    pub last_save_time: i64,
}

impl View for EssayRow {
    type V = RowView;

    open spec fn view(&self) -> RowView {
        RowView {
            eid: self.eid@,
            title: self.title@,
            date: self.date@,
            brief: self.brief@,
            content: self.content@,
            last_save_time: self.last_save_time as int,
        }
    }
}

/// The row an insert or update writes for `essay` at run instant `now`.
pub open spec fn row_view_of(essay: Essay, now: i64) -> RowView {
    RowView {
        eid: essay.eid@,
        title: essay.title@,
        date: essay.date@,
        brief: essay.brief@,
        content: essay.content@,
        last_save_time: now as int,
    }
}

/// One association row: the essay identifier and the dictionary identifier
/// (a position in the dictionary's name table).
#[derive(Debug)]
pub struct Assoc {
    pub eid: String,
    pub id: usize,
}

/// The dictionary names that `assocs` links to `e`, in association order.
pub open spec fn names_for(assocs: Seq<Assoc>, dict: Seq<Seq<char>>, e: Seq<char>) -> Seq<
    Seq<char>,
>
    decreases assocs.len(),
{
    if assocs.len() == 0 {
        Seq::empty()
    } else {
        let rest = names_for(assocs.drop_last(), dict, e);
        if assocs.last().eid@ == e {
            rest.push(dict[assocs.last().id as int])
        } else {
            rest
        }
    }
}

/// `assocs` with every row of essay `e` removed.
pub open spec fn without_eid(assocs: Seq<Assoc>, e: Seq<char>) -> Seq<Assoc>
    decreases assocs.len(),
{
    if assocs.len() == 0 {
        assocs
    } else {
        let rest = without_eid(assocs.drop_last(), e);
        if assocs.last().eid@ == e {
            rest
        } else {
            rest.push(assocs.last())
        }
    }
}

/// Every association's dictionary identifier is a live entry.
pub open spec fn assoc_ids_ok(assocs: Seq<Assoc>, dict_len: nat) -> bool {
    forall|k: int| 0 <= k < assocs.len() ==> (#[trigger] assocs[k]).id < dict_len
}

/// Whether some row of `essays` carries the identifier `e`.
pub open spec fn rows_contain_eid(essays: Seq<EssayRow>, e: Seq<char>) -> bool {
    exists|i: int| 0 <= i < essays.len() && (#[trigger] essays[i]).eid@ == e
}

/// Every association points at an essay that exists.
pub open spec fn assoc_eids_present(assocs: Seq<Assoc>, essays: Seq<EssayRow>) -> bool {
    forall|k: int|
        0 <= k < assocs.len() ==> rows_contain_eid(essays, (#[trigger] assocs[k]).eid@)
}

/// If no association of `e` is in `assocs`, `e` has no names there.
proof fn lemma_names_for_absent(assocs: Seq<Assoc>, dict: Seq<Seq<char>>, e: Seq<char>)
    requires
        forall|k: int| 0 <= k < assocs.len() ==> (#[trigger] assocs[k]).eid@ != e,
    ensures
        names_for(assocs, dict, e) == Seq::<Seq<char>>::empty(),
    decreases assocs.len(),
{
    if assocs.len() > 0 {
        assert(assocs.last() == assocs[assocs.len() - 1]);
        lemma_names_for_absent(assocs.drop_last(), dict, e);
    }
}

/// Growing the dictionary does not change the names of existing
/// associations: identifiers are positions and entries are never removed.
proof fn lemma_names_for_dict_grow(
    assocs: Seq<Assoc>,
    dict1: Seq<Seq<char>>,
    dict2: Seq<Seq<char>>,
    e: Seq<char>,
)
    requires
        assoc_ids_ok(assocs, dict1.len()),
        dict1.is_prefix_of(dict2),
    ensures
        names_for(assocs, dict2, e) == names_for(assocs, dict1, e),
    decreases assocs.len(),
{
    if assocs.len() > 0 {
        assert(assocs.last() == assocs[assocs.len() - 1]);
        assert(assoc_ids_ok(assocs.drop_last(), dict1.len()));
        lemma_names_for_dict_grow(assocs.drop_last(), dict1, dict2, e);
    }
}

/// The rows kept by `without_eid` are rows of the given sequence and
/// none of them belongs to the removed essay.
proof fn lemma_without_eid_elems(assocs: Seq<Assoc>, e: Seq<char>)
    ensures
        forall|k: int|
            0 <= k < without_eid(assocs, e).len() ==> (#[trigger] without_eid(assocs, e)[k]).eid@
                != e && assocs.contains(without_eid(assocs, e)[k]),
    decreases assocs.len(),
{
    if assocs.len() > 0 {
        lemma_without_eid_elems(assocs.drop_last(), e);
        assert(forall|k: int|
            0 <= k < without_eid(assocs.drop_last(), e).len() ==> assocs.drop_last().contains(
                #[trigger] without_eid(assocs.drop_last(), e)[k],
            ));
        assert(forall|a: Assoc| assocs.drop_last().contains(a) ==> assocs.contains(a));
    }
}

/// Removing one essay's associations leaves every other essay's names
/// unchanged.
proof fn lemma_names_for_without(
    assocs: Seq<Assoc>,
    dict: Seq<Seq<char>>,
    e: Seq<char>,
    other: Seq<char>,
)
    requires
        other != e,
    ensures
        names_for(without_eid(assocs, e), dict, other) == names_for(assocs, dict, other),
    decreases assocs.len(),
{
    if assocs.len() > 0 {
        lemma_names_for_without(assocs.drop_last(), dict, e, other);
        if assocs.last().eid@ != e {
            assert(without_eid(assocs, e) == without_eid(assocs.drop_last(), e).push(
                assocs.last(),
            ));
            assert(without_eid(assocs, e).drop_last() =~= without_eid(assocs.drop_last(), e));
        }
    }
}

/// Resolve each name through the dictionary and append one association row
/// of `eid` per name, in name order. Existing rows are untouched and other
/// essays' names are unchanged; the dictionary only grows.
fn push_assocs(assocs: &mut Vec<Assoc>, dict: &mut DictTable, eid: &String, names: &Vec<String>)
    requires
        old(dict).inv(),
        assoc_ids_ok(old(assocs)@, old(dict).names_view().len()),
    ensures
        final(dict).inv(),
        old(dict).names_view().is_prefix_of(final(dict).names_view()),
        assoc_ids_ok(final(assocs)@, final(dict).names_view().len()),
        names_for(final(assocs)@, final(dict).names_view(), eid@) == names_for(
            old(assocs)@,
            old(dict).names_view(),
            eid@,
        ) + names.deep_view(),
        forall|e: Seq<char>|
            e != eid@ ==> names_for(final(assocs)@, final(dict).names_view(), e) == names_for(
                old(assocs)@,
                old(dict).names_view(),
                e,
            ),
        final(assocs)@.len() >= old(assocs)@.len(),
        final(assocs)@.take(old(assocs)@.len() as int) == old(assocs)@,
        forall|k: int|
            old(assocs)@.len() <= k < final(assocs)@.len() ==> (#[trigger] final(assocs)@[k]).eid@
                == eid@,
{
    let n = names.len();
    let mut i: usize = 0;
    while i < n
        invariant
            n == names@.len(),
            i <= n,
            dict.inv(),
            old(dict).names_view().is_prefix_of(dict.names_view()),
            assoc_ids_ok(assocs@, dict.names_view().len()),
            names_for(assocs@, dict.names_view(), eid@) == names_for(
                old(assocs)@,
                old(dict).names_view(),
                eid@,
            ) + names.deep_view().take(i as int),
            forall|e: Seq<char>|
                e != eid@ ==> names_for(assocs@, dict.names_view(), e) == names_for(
                    old(assocs)@,
                    old(dict).names_view(),
                    e,
                ),
            assocs@.len() >= old(assocs)@.len(),
            assocs@.take(old(assocs)@.len() as int) == old(assocs)@,
            forall|k: int|
                old(assocs)@.len() <= k < assocs@.len() ==> (#[trigger] assocs@[k]).eid@ == eid@,
        decreases n - i,
    {
        let ghost dict_before = dict.names_view();
        let ghost assocs_before = assocs@;
        let id = dict.resolve(&names[i]);
        proof {
            assert(dict_before.is_prefix_of(dict.names_view()));
            assert(old(dict).names_view().is_prefix_of(dict.names_view()));
            lemma_names_for_dict_grow(assocs_before, dict_before, dict.names_view(), eid@);
        }
        assocs.push(Assoc { eid: eid.clone(), id });
        proof {
            assert(assocs@.drop_last() =~= assocs_before);
            assert(assocs@.last().eid@ == eid@);
            assert forall|e: Seq<char>| e != eid@ implies names_for(
                assocs@,
                dict.names_view(),
                e,
            ) == names_for(old(assocs)@, old(dict).names_view(), e) by {
                assert(assocs@.drop_last() =~= assocs_before);
                lemma_names_for_dict_grow(assocs_before, dict_before, dict.names_view(), e);
                assert(names_for(assocs@, dict.names_view(), e) == names_for(
                    assocs_before,
                    dict.names_view(),
                    e,
                ));
            }
            assert(names.deep_view().take(i + 1 as int) =~= names.deep_view().take(i as int).push(
                names@[i as int]@,
            ));
            assert(assocs@.take(old(assocs)@.len() as int) =~= old(assocs)@);
        }
        i = i + 1;
    }
    proof {
        assert(names.deep_view().take(n as int) =~= names.deep_view());
    }
}

/// A copy of `v` with every row of essay `eid` left out.
fn assocs_without(v: &Vec<Assoc>, eid: &String) -> (r: Vec<Assoc>)
    ensures
        r@ == without_eid(v@, eid@),
{
    let mut r: Vec<Assoc> = Vec::new();
    let n = v.len();
    let mut i: usize = 0;
    while i < n
        invariant
            n == v@.len(),
            i <= n,
            r@ == without_eid(v@.take(i as int), eid@),
        decreases n - i,
    {
        if v[i].eid != *eid {
            r.push(Assoc { eid: v[i].eid.clone(), id: v[i].id });
        }
        proof {
            assert(v@.take(i + 1 as int).drop_last() =~= v@.take(i as int));
            assert(v@.take(i + 1 as int).last() == v@[i as int]);
        }
        i = i + 1;
    }
    proof {
        assert(v@.take(n as int) =~= v@);
    }
    r
}

/// The essay identifiers that `assocs` links to the dictionary name `n`,
/// in association order.
pub open spec fn eids_for(assocs: Seq<Assoc>, dict: Seq<Seq<char>>, n: Seq<char>) -> Seq<
    Seq<char>,
>
    decreases assocs.len(),
{
    if assocs.len() == 0 {
        Seq::empty()
    } else {
        let rest = eids_for(assocs.drop_last(), dict, n);
        if dict[assocs.last().id as int] == n {
            rest.push(assocs.last().eid@)
        } else {
            rest
        }
    }
}

/// Every identifier listed by `eids_for` belongs to some association row.
proof fn lemma_eids_for_elems(assocs: Seq<Assoc>, dict: Seq<Seq<char>>, n: Seq<char>)
    ensures
        forall|k: int|
            0 <= k < eids_for(assocs, dict, n).len() ==> exists|j: int|
                0 <= j < assocs.len() && assocs[j].eid@ == #[trigger] eids_for(assocs, dict, n)[k],
    decreases assocs.len(),
{
    if assocs.len() > 0 {
        lemma_eids_for_elems(assocs.drop_last(), dict, n);
        let s = eids_for(assocs, dict, n);
        let rest = eids_for(assocs.drop_last(), dict, n);
        assert forall|k: int| 0 <= k < s.len() implies exists|j: int|
            0 <= j < assocs.len() && assocs[j].eid@ == #[trigger] s[k] by {
            if k < rest.len() {
                let j = choose|j: int|
                    0 <= j < assocs.drop_last().len() && assocs.drop_last()[j].eid@ == rest[k];
                assert(assocs[j].eid@ == s[k]);
            } else {
                assert(assocs[assocs.len() - 1].eid@ == s[k]);
            }
        }
    }
}

/// Dictionary uniqueness: in any store satisfying the invariant — and
/// every mutation of this module keeps it — no two tag rows and no two
/// category rows share a name, however many essays introduced the same
/// new name within one run.
pub proof fn lemma_dictionary_names_unique(s: CatalogueStore)
    requires
        s.inv(),
    ensures
        forall|i: int, j: int|
            0 <= i < j < s.tag_set.names_view().len() ==> s.tag_set.names_view()[i]
                != s.tag_set.names_view()[j],
        forall|i: int, j: int|
            0 <= i < j < s.category_set.names_view().len() ==> s.category_set.names_view()[i]
                != s.category_set.names_view()[j],
{
}

/// The catalogue store: the essays table, the two dictionaries and the two
/// association tables.
#[derive(Debug)]
pub struct CatalogueStore {
    pub essays: Vec<EssayRow>,
    pub tag_set: DictTable,
    pub category_set: DictTable,
    pub essay_tag: Vec<Assoc>,
    pub essay_category: Vec<Assoc>,
}

impl CatalogueStore {
    /// Whether the store holds an essay with identifier `e`.
    pub open spec fn spec_contains_eid(self, e: Seq<char>) -> bool {
        rows_contain_eid(self.essays@, e)
    }

    /// The position of essay `e` in the table; meaningful only when the
    /// essay exists (positions are unique under the store invariant).
    pub open spec fn spec_index_of(self, e: Seq<char>) -> int {
        choose|i: int| 0 <= i < self.essays@.len() && self.essays@[i].eid@ == e
    }

    /// The record held for essay `e`; meaningful only when the essay exists.
    pub open spec fn record_of(self, e: Seq<char>) -> RowView {
        self.essays@[self.spec_index_of(e)]@
    }

    /// The tag names associated with essay `e`, in association order.
    pub open spec fn tags_of(self, e: Seq<char>) -> Seq<Seq<char>> {
        names_for(self.essay_tag@, self.tag_set.names_view(), e)
    }

    /// The category names associated with essay `e`, in association order.
    pub open spec fn categories_of(self, e: Seq<char>) -> Seq<Seq<char>> {
        names_for(self.essay_category@, self.category_set.names_view(), e)
    }

    /// The store invariant: essay identifiers unique, dictionary names
    /// unique, and referential integrity of both association tables.
    pub open spec fn inv(self) -> bool {
        &&& forall|i: int, j: int|
            0 <= i < j < self.essays@.len() ==> (#[trigger] self.essays@[i]).eid@ != (
            #[trigger] self.essays@[j]).eid@
        &&& self.tag_set.inv()
        &&& self.category_set.inv()
        &&& assoc_ids_ok(self.essay_tag@, self.tag_set.names_view().len())
        &&& assoc_ids_ok(self.essay_category@, self.category_set.names_view().len())
        &&& assoc_eids_present(self.essay_tag@, self.essays@)
        &&& assoc_eids_present(self.essay_category@, self.essays@)
    }

    /// Under the invariant, the position of an existing essay is the one
    /// and only row carrying its identifier.
    pub proof fn lemma_index_of(self, e: Seq<char>)
        requires
            self.inv(),
            self.spec_contains_eid(e),
        ensures
            0 <= self.spec_index_of(e) < self.essays@.len(),
            self.essays@[self.spec_index_of(e)].eid@ == e,
            forall|i: int|
                0 <= i < self.essays@.len() && (#[trigger] self.essays@[i]).eid@ == e ==> i
                    == self.spec_index_of(e),
    {
        let idx = self.spec_index_of(e);
        assert(0 <= idx < self.essays@.len() && self.essays@[idx].eid@ == e);
    }

    pub fn new() -> (r: Self)
        ensures
            r.inv(),
            r.essays@ == Seq::<EssayRow>::empty(),
            r.tag_set.names_view() == Seq::<Seq<char>>::empty(),
            r.category_set.names_view() == Seq::<Seq<char>>::empty(),
            r.essay_tag@ == Seq::<Assoc>::empty(),
            r.essay_category@ == Seq::<Assoc>::empty(),
    {
        CatalogueStore {
            essays: Vec::new(),
            tag_set: DictTable::new(),
            category_set: DictTable::new(),
            essay_tag: Vec::new(),
            essay_category: Vec::new(),
        }
    }

    /// The row position of the essay with this identifier, if any.
    pub(crate) fn find_eid(&self, eid: &String) -> (r: Option<usize>)
        ensures
            match r {
                Some(i) => i < self.essays@.len() && self.essays@[i as int].eid@ == eid@,
                None => !self.spec_contains_eid(eid@),
            },
    {
        let n = self.essays.len();
        let mut i: usize = 0;
        while i < n
            invariant
                n == self.essays@.len(),
                i <= n,
                forall|k: int| 0 <= k < i ==> (#[trigger] self.essays@[k]).eid@ != eid@,
            decreases n - i,
        {
            if self.essays[i].eid == *eid {
                return Some(i);
            }
            i = i + 1;
        }
        None
    }

    /// Whether the store holds an essay with this identifier.
    pub fn contains_eid(&self, eid: &String) -> (r: bool)
        ensures
            r == self.spec_contains_eid(eid@),
    {
        self.find_eid(eid).is_some()
    }

    /// Create the essay's record, resolve or create its dictionary entries,
    /// and insert its associations. Fails, leaving the store untouched, if
    /// and only if the identifier already exists.
    pub fn insert_essay(&mut self, essay: &Essay, now: i64) -> (r: Result<(), Error>)
        requires
            old(self).inv(),
        ensures
            final(self).inv(),
            r is Err <==> old(self).spec_contains_eid(essay.eid@),
            r is Err ==> *final(self) == *old(self) && r == Err::<(), Error>(
                Error::ConstraintViolation,
            ),
            r is Ok ==> {
                &&& forall|e: Seq<char>|
                    final(self).spec_contains_eid(e) <==> (old(self).spec_contains_eid(e) || e
                        == essay.eid@)
                &&& final(self).record_of(essay.eid@) == row_view_of(*essay, now)
                &&& forall|e: Seq<char>|
                    e != essay.eid@ && old(self).spec_contains_eid(e) ==> final(self).record_of(e)
                        == old(self).record_of(e)
                &&& final(self).tags_of(essay.eid@) == essay.tags.deep_view()
                &&& final(self).categories_of(essay.eid@) == essay.categories.deep_view()
                &&& forall|e: Seq<char>|
                    e != essay.eid@ ==> final(self).tags_of(e) == old(self).tags_of(e)
                        && final(self).categories_of(e) == old(self).categories_of(e)
                &&& old(self).tag_set.names_view().is_prefix_of(final(self).tag_set.names_view())
                &&& old(self).category_set.names_view().is_prefix_of(
                    final(self).category_set.names_view(),
                )
            },
    {
        if self.contains_eid(&essay.eid) {
            return Err(Error::ConstraintViolation);
        }
        let row = EssayRow {
            eid: essay.eid.clone(),
            title: essay.title.clone(),
            date: essay.date.clone(),
            brief: essay.brief.clone(),
            content: essay.content.clone(),
            last_save_time: now,
        };
        self.essays.push(row);
        proof {
            // no association can already belong to an identifier that was absent
            assert forall|k: int| 0 <= k < self.essay_tag@.len() implies (
            #[trigger] self.essay_tag@[k]).eid@ != essay.eid@ by {
                assert(rows_contain_eid(old(self).essays@, self.essay_tag@[k].eid@));
            }
            assert forall|k: int| 0 <= k < self.essay_category@.len() implies (
            #[trigger] self.essay_category@[k]).eid@ != essay.eid@ by {
                assert(rows_contain_eid(old(self).essays@, self.essay_category@[k].eid@));
            }
            lemma_names_for_absent(self.essay_tag@, self.tag_set.names_view(), essay.eid@);
            lemma_names_for_absent(
                self.essay_category@,
                self.category_set.names_view(),
                essay.eid@,
            );
            // every association still points at an existing essay
            assert forall|k: int| 0 <= k < self.essay_tag@.len() implies rows_contain_eid(
                self.essays@,
                (#[trigger] self.essay_tag@[k]).eid@,
            ) by {
                let i = choose|i: int|
                    0 <= i < old(self).essays@.len() && old(self).essays@[i].eid@
                        == self.essay_tag@[k].eid@;
                assert(self.essays@[i].eid@ == self.essay_tag@[k].eid@);
            }
            assert forall|k: int| 0 <= k < self.essay_category@.len() implies rows_contain_eid(
                self.essays@,
                (#[trigger] self.essay_category@[k]).eid@,
            ) by {
                let i = choose|i: int|
                    0 <= i < old(self).essays@.len() && old(self).essays@[i].eid@
                        == self.essay_category@[k].eid@;
                assert(self.essays@[i].eid@ == self.essay_category@[k].eid@);
            }
            assert(self.essays@.take(old(self).essays@.len() as int) =~= old(self).essays@);
            assert(self.inv());
        }
        let ghost mid = *self;
        push_assocs(&mut self.essay_tag, &mut self.tag_set, &essay.eid, &essay.tags);
        push_assocs(&mut self.essay_category, &mut self.category_set, &essay.eid, &essay.categories);
        proof {
            let n = old(self).essays@.len() as int;
            assert forall|k: int| 0 <= k < self.essay_tag@.len() implies rows_contain_eid(
                self.essays@,
                (#[trigger] self.essay_tag@[k]).eid@,
            ) by {
                if k < mid.essay_tag@.len() {
                    assert(self.essay_tag@.take(mid.essay_tag@.len() as int)[k]
                        == self.essay_tag@[k]);
                    assert(self.essay_tag@[k] == mid.essay_tag@[k]);
                } else {
                    assert(self.essay_tag@[k].eid@ == essay.eid@);
                    assert(self.essays@[n].eid@ == essay.eid@);
                }
            }
            assert forall|k: int| 0 <= k < self.essay_category@.len() implies rows_contain_eid(
                self.essays@,
                (#[trigger] self.essay_category@[k]).eid@,
            ) by {
                if k < mid.essay_category@.len() {
                    assert(self.essay_category@.take(mid.essay_category@.len() as int)[k]
                        == self.essay_category@[k]);
                    assert(self.essay_category@[k] == mid.essay_category@[k]);
                } else {
                    assert(self.essay_category@[k].eid@ == essay.eid@);
                    assert(self.essays@[n].eid@ == essay.eid@);
                }
            }
            assert(self.inv());
            self.lemma_insert_post(*old(self), mid, *essay, now);
        }
        Ok(())
    }

    /// Remove every association of essay `eid` from both association
    /// tables, leaving the record table and the dictionaries untouched and
    /// every other essay's associations unchanged.
    fn drop_assocs_of(&mut self, eid: &String)
        requires
            old(self).inv(),
        ensures
            final(self).inv(),
            final(self).essays == old(self).essays,
            final(self).tag_set == old(self).tag_set,
            final(self).category_set == old(self).category_set,
            final(self).tags_of(eid@) == Seq::<Seq<char>>::empty(),
            final(self).categories_of(eid@) == Seq::<Seq<char>>::empty(),
            forall|e: Seq<char>|
                e != eid@ ==> final(self).tags_of(e) == old(self).tags_of(e) && final(self).categories_of(e) == old(self).categories_of(e),
            forall|k: int|
                0 <= k < final(self).essay_tag@.len() ==> (#[trigger] final(self).essay_tag@[k]).eid@ != eid@,
            forall|k: int|
                0 <= k < final(self).essay_category@.len() ==> (#[trigger] final(self).essay_category@[k]).eid@ != eid@,
    {
        let nt = assocs_without(&self.essay_tag, eid);
        self.essay_tag = nt;
        let nc = assocs_without(&self.essay_category, eid);
        self.essay_category = nc;
        proof {
            lemma_without_eid_elems(old(self).essay_tag@, eid@);
            lemma_without_eid_elems(old(self).essay_category@, eid@);
            assert forall|k: int| 0 <= k < self.essay_tag@.len() implies (
            #[trigger] self.essay_tag@[k]).id < self.tag_set.names_view().len()
                && rows_contain_eid(self.essays@, self.essay_tag@[k].eid@) by {
                assert(old(self).essay_tag@.contains(self.essay_tag@[k]));
                let j = choose|j: int|
                    0 <= j < old(self).essay_tag@.len() && old(self).essay_tag@[j]
                        == self.essay_tag@[k];
                assert(old(self).essay_tag@[j].id < self.tag_set.names_view().len());
            }
            assert forall|k: int| 0 <= k < self.essay_category@.len() implies (
            #[trigger] self.essay_category@[k]).id < self.category_set.names_view().len()
                && rows_contain_eid(self.essays@, self.essay_category@[k].eid@) by {
                assert(old(self).essay_category@.contains(self.essay_category@[k]));
                let j = choose|j: int|
                    0 <= j < old(self).essay_category@.len() && old(self).essay_category@[j]
                        == self.essay_category@[k];
                assert(old(self).essay_category@[j].id < self.category_set.names_view().len());
            }
            lemma_names_for_absent(self.essay_tag@, self.tag_set.names_view(), eid@);
            lemma_names_for_absent(self.essay_category@, self.category_set.names_view(), eid@);
            assert forall|e: Seq<char>| e != eid@ implies self.tags_of(e) == old(self).tags_of(e)
                && self.categories_of(e) == old(self).categories_of(e) by {
                lemma_names_for_without(
                    old(self).essay_tag@,
                    self.tag_set.names_view(),
                    eid@,
                    e,
                );
                lemma_names_for_without(
                    old(self).essay_category@,
                    self.category_set.names_view(),
                    eid@,
                    e,
                );
            }
            assert(self.inv());
        }
    }

    /// Replace the essay's record fields and wholly replace its
    /// associations: every old association of the essay is deleted and its
    /// current source-declared tag and category sets are re-inserted. Fails,
    /// leaving the store untouched, if and only if the identifier is absent.
    pub fn update_essay(&mut self, essay: &Essay, now: i64) -> (r: Result<(), Error>)
        requires
            old(self).inv(),
        ensures
            final(self).inv(),
            r is Err <==> !old(self).spec_contains_eid(essay.eid@),
            r is Err ==> *final(self) == *old(self) && r == Err::<(), Error>(Error::NotFound),
            r is Ok ==> {
                &&& forall|e: Seq<char>|
                    final(self).spec_contains_eid(e) <==> old(self).spec_contains_eid(e)
                &&& final(self).record_of(essay.eid@) == row_view_of(*essay, now)
                &&& forall|e: Seq<char>|
                    e != essay.eid@ && old(self).spec_contains_eid(e) ==> final(self).record_of(e)
                        == old(self).record_of(e)
                &&& final(self).tags_of(essay.eid@) == essay.tags.deep_view()
                &&& final(self).categories_of(essay.eid@) == essay.categories.deep_view()
                &&& forall|e: Seq<char>|
                    e != essay.eid@ ==> final(self).tags_of(e) == old(self).tags_of(e)
                        && final(self).categories_of(e) == old(self).categories_of(e)
                &&& old(self).tag_set.names_view().is_prefix_of(final(self).tag_set.names_view())
                &&& old(self).category_set.names_view().is_prefix_of(
                    final(self).category_set.names_view(),
                )
            },
    {
        let idx = match self.find_eid(&essay.eid) {
            Some(i) => i,
            None => {
                return Err(Error::NotFound);
            },
        };
        self.drop_assocs_of(&essay.eid);
        self.essays[idx] = EssayRow {
            eid: essay.eid.clone(),
            title: essay.title.clone(),
            date: essay.date.clone(),
            brief: essay.brief.clone(),
            content: essay.content.clone(),
            last_save_time: now,
        };
        proof {
            assert(self.essays@[idx as int].eid@ == essay.eid@);
            assert forall|k: int| 0 <= k < self.essay_tag@.len() implies rows_contain_eid(
                self.essays@,
                (#[trigger] self.essay_tag@[k]).eid@,
            ) by {
                let i = choose|i: int|
                    0 <= i < old(self).essays@.len() && old(self).essays@[i].eid@
                        == self.essay_tag@[k].eid@;
                assert(self.essays@[i].eid@ == self.essay_tag@[k].eid@);
            }
            assert forall|k: int| 0 <= k < self.essay_category@.len() implies rows_contain_eid(
                self.essays@,
                (#[trigger] self.essay_category@[k]).eid@,
            ) by {
                let i = choose|i: int|
                    0 <= i < old(self).essays@.len() && old(self).essays@[i].eid@
                        == self.essay_category@[k].eid@;
                assert(self.essays@[i].eid@ == self.essay_category@[k].eid@);
            }
            assert(self.inv());
        }
        let ghost mid = *self;
        push_assocs(&mut self.essay_tag, &mut self.tag_set, &essay.eid, &essay.tags);
        push_assocs(&mut self.essay_category, &mut self.category_set, &essay.eid, &essay.categories);
        proof {
            assert forall|k: int| 0 <= k < self.essay_tag@.len() implies rows_contain_eid(
                self.essays@,
                (#[trigger] self.essay_tag@[k]).eid@,
            ) by {
                if k < mid.essay_tag@.len() {
                    assert(self.essay_tag@.take(mid.essay_tag@.len() as int)[k]
                        == self.essay_tag@[k]);
                    assert(self.essay_tag@[k] == mid.essay_tag@[k]);
                } else {
                    assert(self.essay_tag@[k].eid@ == essay.eid@);
                    assert(self.essays@[idx as int].eid@ == essay.eid@);
                }
            }
            assert forall|k: int| 0 <= k < self.essay_category@.len() implies rows_contain_eid(
                self.essays@,
                (#[trigger] self.essay_category@[k]).eid@,
            ) by {
                if k < mid.essay_category@.len() {
                    assert(self.essay_category@.take(mid.essay_category@.len() as int)[k]
                        == self.essay_category@[k]);
                    assert(self.essay_category@[k] == mid.essay_category@[k]);
                } else {
                    assert(self.essay_category@[k].eid@ == essay.eid@);
                    assert(self.essays@[idx as int].eid@ == essay.eid@);
                }
            }
            assert(self.inv());
            self.lemma_update_post(*old(self), mid, *essay, now, idx as int);
        }
        Ok(())
    }

    /// The reassembly of `update_essay`'s postcondition from the effects of
    /// the association drop, the record replacement (`mid` is the store
    /// just after it) and the two association pushes.
    proof fn lemma_update_post(self, pre: Self, mid: Self, essay: Essay, now: i64, idx: int)
        requires
            pre.inv(),
            0 <= idx < pre.essays@.len(),
            pre.essays@[idx].eid@ == essay.eid@,
            mid.essays@.len() == pre.essays@.len(),
            mid.essays@[idx]@ == row_view_of(essay, now),
            forall|i: int|
                0 <= i < pre.essays@.len() && i != idx ==> mid.essays@[i] == pre.essays@[i],
            mid.tags_of(essay.eid@) == Seq::<Seq<char>>::empty(),
            mid.categories_of(essay.eid@) == Seq::<Seq<char>>::empty(),
            forall|e: Seq<char>|
                e != essay.eid@ ==> mid.tags_of(e) == pre.tags_of(e) && mid.categories_of(e)
                    == pre.categories_of(e),
            self.essays@ == mid.essays@,
            self.inv(),
            self.tags_of(essay.eid@) == mid.tags_of(essay.eid@) + essay.tags.deep_view(),
            self.categories_of(essay.eid@) == mid.categories_of(essay.eid@)
                + essay.categories.deep_view(),
            forall|e: Seq<char>|
                e != essay.eid@ ==> self.tags_of(e) == mid.tags_of(e) && self.categories_of(e)
                    == mid.categories_of(e),
        ensures
            forall|e: Seq<char>|
                self.spec_contains_eid(e) <==> pre.spec_contains_eid(e),
            self.record_of(essay.eid@) == row_view_of(essay, now),
            forall|e: Seq<char>|
                e != essay.eid@ && pre.spec_contains_eid(e) ==> self.record_of(e) == pre.record_of(
                    e,
                ),
            self.tags_of(essay.eid@) == essay.tags.deep_view(),
            self.categories_of(essay.eid@) == essay.categories.deep_view(),
            forall|e: Seq<char>|
                e != essay.eid@ ==> self.tags_of(e) == pre.tags_of(e) && self.categories_of(e)
                    == pre.categories_of(e),
    {
        assert forall|e: Seq<char>|
            self.spec_contains_eid(e) <==> pre.spec_contains_eid(e) by {
            if self.spec_contains_eid(e) {
                let i = choose|i: int|
                    0 <= i < self.essays@.len() && self.essays@[i].eid@ == e;
                assert(pre.essays@[i].eid@ == e);
            }
            if pre.spec_contains_eid(e) {
                let i = choose|i: int| 0 <= i < pre.essays@.len() && pre.essays@[i].eid@ == e;
                assert(self.essays@[i].eid@ == e);
            }
        }
        self.lemma_index_of(essay.eid@);
        assert(self.essays@[idx].eid@ == essay.eid@);
        assert(self.record_of(essay.eid@) == row_view_of(essay, now));
        assert forall|e: Seq<char>|
            e != essay.eid@ && pre.spec_contains_eid(e) implies self.record_of(e)
            == pre.record_of(e) by {
            pre.lemma_index_of(e);
            self.lemma_index_of(e);
            let i = pre.spec_index_of(e);
            assert(i != idx);
            assert(self.essays@[i].eid@ == e);
            assert(self.spec_index_of(e) == i);
        }
        assert(self.tags_of(essay.eid@) =~= essay.tags.deep_view());
        assert(self.categories_of(essay.eid@) =~= essay.categories.deep_view());
    }

    /// Remove the essay's associations first, then its record, so
    /// referential integrity is never broken. Deleting an absent identifier
    /// is a no-op, which keeps a retried run safe.
    pub fn delete_essay(&mut self, eid: &String)
        requires
            old(self).inv(),
        ensures
            final(self).inv(),
            forall|e: Seq<char>|
                final(self).spec_contains_eid(e) <==> (old(self).spec_contains_eid(e) && e
                    != eid@),
            forall|e: Seq<char>|
                e != eid@ && old(self).spec_contains_eid(e) ==> final(self).record_of(e) == old(self).record_of(e),
            final(self).tags_of(eid@) == Seq::<Seq<char>>::empty(),
            final(self).categories_of(eid@) == Seq::<Seq<char>>::empty(),
            forall|e: Seq<char>|
                e != eid@ ==> final(self).tags_of(e) == old(self).tags_of(e) && final(self).categories_of(e) == old(self).categories_of(e),
            final(self).tag_set == old(self).tag_set,
            final(self).category_set == old(self).category_set,
    {
        self.drop_assocs_of(eid);
        let ghost mid = *self;
        match self.find_eid(eid) {
            None => {
            },
            Some(idx) => {
                self.essays.remove(idx);
                proof {
                    let n = mid.essays@.len();
                    assert forall|e: Seq<char>|
                        self.spec_contains_eid(e) <==> (old(self).spec_contains_eid(e) && e
                            != eid@) by {
                        if self.spec_contains_eid(e) {
                            let i = choose|i: int|
                                0 <= i < self.essays@.len() && self.essays@[i].eid@ == e;
                            if i < idx {
                                assert(mid.essays@[i].eid@ == e);
                            } else {
                                assert(mid.essays@[i + 1].eid@ == e);
                            }
                            assert(e != eid@);
                        }
                        if old(self).spec_contains_eid(e) && e != eid@ {
                            mid.lemma_index_of(e);
                            let i = mid.spec_index_of(e);
                            assert(i != idx);
                            if i < idx {
                                assert(self.essays@[i].eid@ == e);
                            } else {
                                assert(self.essays@[i - 1].eid@ == e);
                            }
                        }
                    }
                    assert forall|i: int, j: int|
                        0 <= i < j < self.essays@.len() implies (
                    #[trigger] self.essays@[i]).eid@ != (#[trigger] self.essays@[j]).eid@ by {
                        let i0 = if i < idx {
                            i
                        } else {
                            i + 1
                        };
                        let j0 = if j < idx {
                            j
                        } else {
                            j + 1
                        };
                        assert(self.essays@[i] == mid.essays@[i0]);
                        assert(self.essays@[j] == mid.essays@[j0]);
                    }
                    assert forall|k: int| 0 <= k < self.essay_tag@.len() implies rows_contain_eid(
                        self.essays@,
                        (#[trigger] self.essay_tag@[k]).eid@,
                    ) by {
                        let i = choose|i: int|
                            0 <= i < mid.essays@.len() && mid.essays@[i].eid@
                                == self.essay_tag@[k].eid@;
                        assert(i != idx);
                        if i < idx {
                            assert(self.essays@[i].eid@ == self.essay_tag@[k].eid@);
                        } else {
                            assert(self.essays@[i - 1].eid@ == self.essay_tag@[k].eid@);
                        }
                    }
                    assert forall|k: int|
                        0 <= k < self.essay_category@.len() implies rows_contain_eid(
                        self.essays@,
                        (#[trigger] self.essay_category@[k]).eid@,
                    ) by {
                        let i = choose|i: int|
                            0 <= i < mid.essays@.len() && mid.essays@[i].eid@
                                == self.essay_category@[k].eid@;
                        assert(i != idx);
                        if i < idx {
                            assert(self.essays@[i].eid@ == self.essay_category@[k].eid@);
                        } else {
                            assert(self.essays@[i - 1].eid@ == self.essay_category@[k].eid@);
                        }
                    }
                    assert(self.inv());
                    assert forall|e: Seq<char>|
                        e != eid@ && old(self).spec_contains_eid(e) implies self.record_of(e)
                        == old(self).record_of(e) by {
                        mid.lemma_index_of(e);
                        self.lemma_index_of(e);
                        let i = mid.spec_index_of(e);
                        if i < idx {
                            assert(self.essays@[i].eid@ == e);
                            assert(self.spec_index_of(e) == i);
                            assert(self.essays@[i] == mid.essays@[i]);
                        } else {
                            assert(i != idx);
                            assert(self.essays@[i - 1].eid@ == e);
                            assert(self.spec_index_of(e) == i - 1);
                            assert(self.essays@[i - 1] == mid.essays@[i]);
                        }
                    }
                }
            },
        }
    }

    /// The reassembly of `insert_essay`'s postcondition from the effects of
    /// the row push (`mid` is the store just after it) and the two
    /// association pushes.
    proof fn lemma_insert_post(self, pre: Self, mid: Self, essay: Essay, now: i64)
        requires
            pre.inv(),
            !pre.spec_contains_eid(essay.eid@),
            mid.tag_set == pre.tag_set,
            mid.category_set == pre.category_set,
            mid.essay_tag@ == pre.essay_tag@,
            mid.essay_category@ == pre.essay_category@,
            mid.essays@.len() == pre.essays@.len() + 1,
            mid.essays@.take(pre.essays@.len() as int) == pre.essays@,
            mid.essays@.last()@ == row_view_of(essay, now),
            mid.inv(),
            mid.tags_of(essay.eid@) == Seq::<Seq<char>>::empty(),
            mid.categories_of(essay.eid@) == Seq::<Seq<char>>::empty(),
            self.essays@ == mid.essays@,
            self.inv(),
            self.tags_of(essay.eid@) == mid.tags_of(essay.eid@) + essay.tags.deep_view(),
            self.categories_of(essay.eid@) == mid.categories_of(essay.eid@)
                + essay.categories.deep_view(),
            forall|e: Seq<char>|
                e != essay.eid@ ==> self.tags_of(e) == mid.tags_of(e) && self.categories_of(e)
                    == mid.categories_of(e),
            pre.tag_set.names_view().is_prefix_of(self.tag_set.names_view()),
            pre.category_set.names_view().is_prefix_of(self.category_set.names_view()),
        ensures
            forall|e: Seq<char>|
                self.spec_contains_eid(e) <==> (pre.spec_contains_eid(e) || e == essay.eid@),
            self.record_of(essay.eid@) == row_view_of(essay, now),
            forall|e: Seq<char>|
                e != essay.eid@ && pre.spec_contains_eid(e) ==> self.record_of(e) == pre.record_of(
                    e,
                ),
            self.tags_of(essay.eid@) == essay.tags.deep_view(),
            self.categories_of(essay.eid@) == essay.categories.deep_view(),
            forall|e: Seq<char>|
                e != essay.eid@ ==> self.tags_of(e) == pre.tags_of(e) && self.categories_of(e)
                    == pre.categories_of(e),
    {
        let n = pre.essays@.len() as int;
        assert forall|e: Seq<char>|
            self.spec_contains_eid(e) <==> (pre.spec_contains_eid(e) || e == essay.eid@) by {
            if self.spec_contains_eid(e) {
                let i = choose|i: int|
                    0 <= i < self.essays@.len() && self.essays@[i].eid@ == e;
                if i < n {
                    assert(pre.essays@[i].eid@ == e);
                } else {
                    assert(e == essay.eid@);
                }
            }
            if pre.spec_contains_eid(e) {
                let i = choose|i: int| 0 <= i < pre.essays@.len() && pre.essays@[i].eid@ == e;
                assert(self.essays@[i].eid@ == e);
            }
            if e == essay.eid@ {
                assert(self.essays@[n].eid@ == e);
            }
        }
        self.lemma_index_of(essay.eid@);
        assert(self.essays@[n].eid@ == essay.eid@);
        assert(self.record_of(essay.eid@) == row_view_of(essay, now));
        assert forall|e: Seq<char>|
            e != essay.eid@ && pre.spec_contains_eid(e) implies self.record_of(e)
            == pre.record_of(e) by {
            pre.lemma_index_of(e);
            self.lemma_index_of(e);
            let i = pre.spec_index_of(e);
            assert(self.essays@[i].eid@ == e);
            assert(self.spec_index_of(e) == i);
        }
        assert(self.tags_of(essay.eid@) =~= essay.tags.deep_view());
        assert(self.categories_of(essay.eid@) =~= essay.categories.deep_view());
    }

    /// Every known essay identifier with its last recorded mutation
    /// instant, in table order: one single consistent read.
    pub fn query_essays_last_save_time(&self) -> (r: Vec<(String, i64)>)
        ensures
            r@.len() == self.essays@.len(),
            forall|k: int|
                0 <= k < r@.len() ==> (#[trigger] r@[k]).0@ == self.essays@[k].eid@ && r@[k].1
                    == self.essays@[k].last_save_time,
    {
        let mut r: Vec<(String, i64)> = Vec::new();
        let n = self.essays.len();
        let mut i: usize = 0;
        while i < n
            invariant
                n == self.essays@.len(),
                i <= n,
                r@.len() == i,
                forall|k: int|
                    0 <= k < i ==> (#[trigger] r@[k]).0@ == self.essays@[k].eid@ && r@[k].1
                        == self.essays@[k].last_save_time,
            decreases n - i,
        {
            r.push((self.essays[i].eid.clone(), self.essays[i].last_save_time));
            i = i + 1;
        }
        r
    }

    /// The stored rendered content of the essay, or nothing when the
    /// identifier is unknown.
    pub fn query_essay_content(&self, eid: &String) -> (r: Option<String>)
        requires
            self.inv(),
        ensures
            match r {
                Some(c) => self.spec_contains_eid(eid@) && c@ == self.record_of(eid@).content,
                None => !self.spec_contains_eid(eid@),
            },
    {
        match self.find_eid(eid) {
            Some(i) => {
                proof {
                    self.lemma_index_of(eid@);
                }
                Some(self.essays[i].content.clone())
            },
            None => None,
        }
    }

    /// The tag names of the essay, in association order (empty when the
    /// identifier is unknown).
    pub fn query_essay_tags(&self, eid: &String) -> (r: Vec<String>)
        requires
            self.inv(),
        ensures
            r.deep_view() == self.tags_of(eid@),
    {
        let mut r: Vec<String> = Vec::new();
        let n = self.essay_tag.len();
        let mut i: usize = 0;
        while i < n
            invariant
                self.inv(),
                n == self.essay_tag@.len(),
                i <= n,
                r.deep_view() == names_for(
                    self.essay_tag@.take(i as int),
                    self.tag_set.names_view(),
                    eid@,
                ),
            decreases n - i,
        {
            let a = &self.essay_tag[i];
            if a.eid == *eid {
                let ghost before = r.deep_view();
                r.push(self.tag_set.names[a.id].clone());
                proof {
                    assert(r.deep_view() =~= before.push(self.tag_set.names_view()[a.id as int]));
                }
            }
            proof {
                assert(self.essay_tag@.take(i + 1 as int).drop_last() =~= self.essay_tag@.take(
                    i as int,
                ));
                assert(self.essay_tag@.take(i + 1 as int).last() == self.essay_tag@[i as int]);
            }
            i = i + 1;
        }
        proof {
            assert(self.essay_tag@.take(n as int) =~= self.essay_tag@);
        }
        r
    }

    /// The category names of the essay, in association order (empty when
    /// the identifier is unknown).
    pub fn query_essay_categories(&self, eid: &String) -> (r: Vec<String>)
        requires
            self.inv(),
        ensures
            r.deep_view() == self.categories_of(eid@),
    {
        let mut r: Vec<String> = Vec::new();
        let n = self.essay_category.len();
        let mut i: usize = 0;
        while i < n
            invariant
                self.inv(),
                n == self.essay_category@.len(),
                i <= n,
                r.deep_view() == names_for(
                    self.essay_category@.take(i as int),
                    self.category_set.names_view(),
                    eid@,
                ),
            decreases n - i,
        {
            let a = &self.essay_category[i];
            if a.eid == *eid {
                let ghost before = r.deep_view();
                r.push(self.category_set.names[a.id].clone());
                proof {
                    assert(r.deep_view() =~= before.push(
                        self.category_set.names_view()[a.id as int],
                    ));
                }
            }
            proof {
                assert(self.essay_category@.take(i + 1 as int).drop_last()
                    =~= self.essay_category@.take(i as int));
                assert(self.essay_category@.take(i + 1 as int).last()
                    == self.essay_category@[i as int]);
            }
            i = i + 1;
        }
        proof {
            assert(self.essay_category@.take(n as int) =~= self.essay_category@);
        }
        r
    }

    /// The summary of the essay at table position `i`: its metadata fields
    /// with its tag and category names.
    fn info_at(&self, i: usize) -> (info: EssayInfo)
        requires
            self.inv(),
            i < self.essays@.len(),
        ensures
            info.eid@ == self.essays@[i as int].eid@,
            info.title@ == self.essays@[i as int].title@,
            info.date@ == self.essays@[i as int].date@,
            info.brief@ == self.essays@[i as int].brief@,
            info.tags.deep_view() == self.tags_of(self.essays@[i as int].eid@),
            info.categories.deep_view() == self.categories_of(self.essays@[i as int].eid@),
    {
        let row = &self.essays[i];
        let categories = self.query_essay_categories(&row.eid);
        let tags = self.query_essay_tags(&row.eid);
        EssayInfo::new(
            row.eid.clone(),
            row.title.clone(),
            row.date.clone(),
            categories,
            tags,
            row.brief.clone(),
        )
    }

    /// Every essay's summary (identifier, display fields, tag and category
    /// names), in table order.
    pub fn query_essay_info(&self) -> (r: Vec<EssayInfo>)
        requires
            self.inv(),
        ensures
            r@.len() == self.essays@.len(),
            forall|k: int|
                0 <= k < r@.len() ==> {
                    &&& (#[trigger] r@[k]).eid@ == self.essays@[k].eid@
                    &&& r@[k].title@ == self.essays@[k].title@
                    &&& r@[k].date@ == self.essays@[k].date@
                    &&& r@[k].brief@ == self.essays@[k].brief@
                    &&& r@[k].tags.deep_view() == self.tags_of(self.essays@[k].eid@)
                    &&& r@[k].categories.deep_view() == self.categories_of(self.essays@[k].eid@)
                },
    {
        let mut r: Vec<EssayInfo> = Vec::new();
        let n = self.essays.len();
        let mut i: usize = 0;
        while i < n
            invariant
                self.inv(),
                n == self.essays@.len(),
                i <= n,
                r@.len() == i,
                forall|k: int|
                    0 <= k < i ==> {
                        &&& (#[trigger] r@[k]).eid@ == self.essays@[k].eid@
                        &&& r@[k].title@ == self.essays@[k].title@
                        &&& r@[k].date@ == self.essays@[k].date@
                        &&& r@[k].brief@ == self.essays@[k].brief@
                        &&& r@[k].tags.deep_view() == self.tags_of(self.essays@[k].eid@)
                        &&& r@[k].categories.deep_view() == self.categories_of(
                            self.essays@[k].eid@,
                        )
                    },
            decreases n - i,
        {
            let info = self.info_at(i);
            r.push(info);
            i = i + 1;
        }
        r
    }

    /// The dictionary identifier of this tag name; `NotFound` if and only
    /// if no dictionary row holds it.
    pub fn get_tag_id_from_name(&self, tag_name: &String) -> (r: Result<usize, Error>)
        ensures
            match r {
                Ok(id) => id < self.tag_set.names_view().len()
                    && self.tag_set.names_view()[id as int] == tag_name@,
                Err(e) => e == Error::NotFound && !self.tag_set.spec_contains_name(tag_name@),
            },
    {
        match self.tag_set.lookup(tag_name) {
            Some(id) => Ok(id),
            None => Err(Error::NotFound),
        }
    }

    /// The dictionary identifier of this category name; `NotFound` if and
    /// only if no dictionary row holds it.
    pub fn get_category_id_from_name(&self, category_name: &String) -> (r: Result<usize, Error>)
        ensures
            match r {
                Ok(id) => id < self.category_set.names_view().len()
                    && self.category_set.names_view()[id as int] == category_name@,
                Err(e) => e == Error::NotFound && !self.category_set.spec_contains_name(
                    category_name@,
                ),
            },
    {
        match self.category_set.lookup(category_name) {
            Some(id) => Ok(id),
            None => Err(Error::NotFound),
        }
    }

    /// The identifiers of the essays carrying this tag, in association
    /// order; `NotFound` if and only if the tag name is unknown.
    fn query_eids_from_tag(&self, tag: &String) -> (r: Result<Vec<String>, Error>)
        requires
            self.inv(),
        ensures
            match r {
                Ok(v) => self.tag_set.spec_contains_name(tag@) && v.deep_view() == eids_for(
                    self.essay_tag@,
                    self.tag_set.names_view(),
                    tag@,
                ),
                Err(e) => e == Error::NotFound && !self.tag_set.spec_contains_name(tag@),
            },
    {
        let id = match self.get_tag_id_from_name(tag) {
            Ok(i) => i,
            Err(e) => {
                return Err(e);
            },
        };
        let mut v: Vec<String> = Vec::new();
        let n = self.essay_tag.len();
        let mut i: usize = 0;
        while i < n
            invariant
                self.inv(),
                n == self.essay_tag@.len(),
                i <= n,
                id < self.tag_set.names_view().len(),
                self.tag_set.names_view()[id as int] == tag@,
                v.deep_view() == eids_for(
                    self.essay_tag@.take(i as int),
                    self.tag_set.names_view(),
                    tag@,
                ),
            decreases n - i,
        {
            let a = &self.essay_tag[i];
            if a.id == id {
                let ghost before = v.deep_view();
                v.push(a.eid.clone());
                proof {
                    assert(v.deep_view() =~= before.push(a.eid@));
                }
            }
            proof {
                assert(self.essay_tag@.take(i + 1 as int).drop_last() =~= self.essay_tag@.take(
                    i as int,
                ));
                assert(self.essay_tag@.take(i + 1 as int).last() == self.essay_tag@[i as int]);
                let aid = self.essay_tag@[i as int].id as int;
                if aid != id {
                    if aid < id {
                        assert(self.tag_set.names_view()[aid] != self.tag_set.names_view()[
                        id as int]);
                    } else {
                        assert(self.tag_set.names_view()[id as int] != self.tag_set.names_view()[
                        aid]);
                    }
                }
            }
            i = i + 1;
        }
        proof {
            assert(self.essay_tag@.take(n as int) =~= self.essay_tag@);
        }
        Ok(v)
    }

    /// The identifiers of the essays in this category, in association
    /// order; `NotFound` if and only if the category name is unknown.
    fn query_eids_from_category(&self, category: &String) -> (r: Result<Vec<String>, Error>)
        requires
            self.inv(),
        ensures
            match r {
                Ok(v) => self.category_set.spec_contains_name(category@) && v.deep_view()
                    == eids_for(self.essay_category@, self.category_set.names_view(), category@),
                Err(e) => e == Error::NotFound && !self.category_set.spec_contains_name(category@),
            },
    {
        let id = match self.get_category_id_from_name(category) {
            Ok(i) => i,
            Err(e) => {
                return Err(e);
            },
        };
        let mut v: Vec<String> = Vec::new();
        let n = self.essay_category.len();
        let mut i: usize = 0;
        while i < n
            invariant
                self.inv(),
                n == self.essay_category@.len(),
                i <= n,
                id < self.category_set.names_view().len(),
                self.category_set.names_view()[id as int] == category@,
                v.deep_view() == eids_for(
                    self.essay_category@.take(i as int),
                    self.category_set.names_view(),
                    category@,
                ),
            decreases n - i,
        {
            let a = &self.essay_category[i];
            if a.id == id {
                let ghost before = v.deep_view();
                v.push(a.eid.clone());
                proof {
                    assert(v.deep_view() =~= before.push(a.eid@));
                }
            }
            proof {
                assert(self.essay_category@.take(i + 1 as int).drop_last()
                    =~= self.essay_category@.take(i as int));
                assert(self.essay_category@.take(i + 1 as int).last()
                    == self.essay_category@[i as int]);
                let aid = self.essay_category@[i as int].id as int;
                if aid != id {
                    if aid < id {
                        assert(self.category_set.names_view()[aid]
                            != self.category_set.names_view()[id as int]);
                    } else {
                        assert(self.category_set.names_view()[id as int]
                            != self.category_set.names_view()[aid]);
                    }
                }
            }
            i = i + 1;
        }
        proof {
            assert(self.essay_category@.take(n as int) =~= self.essay_category@);
        }
        Ok(v)
    }

    /// The summaries of the essays carrying this tag, in association order;
    /// `NotFound` if and only if the tag name is unknown.
    pub fn query_essays_info_from_tag(&self, tag: &String) -> (r: Result<Vec<EssayInfo>, Error>)
        requires
            self.inv(),
        ensures
            match r {
                Ok(v) => {
                    let eids = eids_for(self.essay_tag@, self.tag_set.names_view(), tag@);
                    &&& self.tag_set.spec_contains_name(tag@)
                    &&& v@.len() == eids.len()
                    &&& forall|k: int|
                        0 <= k < v@.len() ==> {
                            &&& (#[trigger] v@[k]).eid@ == eids[k]
                            &&& v@[k].title@ == self.record_of(eids[k]).title
                            &&& v@[k].date@ == self.record_of(eids[k]).date
                            &&& v@[k].brief@ == self.record_of(eids[k]).brief
                            &&& v@[k].tags.deep_view() == self.tags_of(eids[k])
                            &&& v@[k].categories.deep_view() == self.categories_of(eids[k])
                        }
                },
                Err(e) => e == Error::NotFound && !self.tag_set.spec_contains_name(tag@),
            },
    {
        let eids = match self.query_eids_from_tag(tag) {
            Ok(v) => v,
            Err(e) => {
                return Err(e);
            },
        };
        let ghost geids = eids_for(self.essay_tag@, self.tag_set.names_view(), tag@);
        proof {
            lemma_eids_for_elems(self.essay_tag@, self.tag_set.names_view(), tag@);
            assert forall|k: int| 0 <= k < geids.len() implies self.spec_contains_eid(
                #[trigger] geids[k],
            ) by {
                let j = choose|j: int|
                    0 <= j < self.essay_tag@.len() && self.essay_tag@[j].eid@ == geids[k];
                assert(rows_contain_eid(self.essays@, self.essay_tag@[j].eid@));
            }
        }
        let mut out: Vec<EssayInfo> = Vec::new();
        let m = eids.len();
        let mut i: usize = 0;
        while i < m
            invariant
                self.inv(),
                m == eids@.len(),
                eids.deep_view() == geids,
                geids == eids_for(self.essay_tag@, self.tag_set.names_view(), tag@),
                forall|k: int|
                    0 <= k < geids.len() ==> self.spec_contains_eid(#[trigger] geids[k]),
                i <= m,
                out@.len() == i,
                forall|k: int|
                    0 <= k < i ==> {
                        &&& (#[trigger] out@[k]).eid@ == geids[k]
                        &&& out@[k].title@ == self.record_of(geids[k]).title
                        &&& out@[k].date@ == self.record_of(geids[k]).date
                        &&& out@[k].brief@ == self.record_of(geids[k]).brief
                        &&& out@[k].tags.deep_view() == self.tags_of(geids[k])
                        &&& out@[k].categories.deep_view() == self.categories_of(geids[k])
                    },
            decreases m - i,
        {
            match self.query_essay_info_from_eid(&eids[i]) {
                Some(info) => {
                    out.push(info);
                },
                None => {
                    proof {
                        assert(eids.deep_view()[i as int] == eids@[i as int]@);
                        assert(self.spec_contains_eid(geids[i as int]));
                        assert(false);
                    }
                },
            }
            i = i + 1;
        }
        Ok(out)
    }

    /// The summaries of the essays in this category, in association order;
    /// `NotFound` if and only if the category name is unknown.
    pub fn query_essays_from_category(&self, category: &String) -> (r: Result<
        Vec<EssayInfo>,
        Error,
    >)
        requires
            self.inv(),
        ensures
            match r {
                Ok(v) => {
                    let eids = eids_for(
                        self.essay_category@,
                        self.category_set.names_view(),
                        category@,
                    );
                    &&& self.category_set.spec_contains_name(category@)
                    &&& v@.len() == eids.len()
                    &&& forall|k: int|
                        0 <= k < v@.len() ==> {
                            &&& (#[trigger] v@[k]).eid@ == eids[k]
                            &&& v@[k].title@ == self.record_of(eids[k]).title
                            &&& v@[k].date@ == self.record_of(eids[k]).date
                            &&& v@[k].brief@ == self.record_of(eids[k]).brief
                            &&& v@[k].tags.deep_view() == self.tags_of(eids[k])
                            &&& v@[k].categories.deep_view() == self.categories_of(eids[k])
                        }
                },
                Err(e) => e == Error::NotFound && !self.category_set.spec_contains_name(category@),
            },
    {
        let eids = match self.query_eids_from_category(category) {
            Ok(v) => v,
            Err(e) => {
                return Err(e);
            },
        };
        let ghost geids = eids_for(self.essay_category@, self.category_set.names_view(), category@);
        proof {
            lemma_eids_for_elems(self.essay_category@, self.category_set.names_view(), category@);
            assert forall|k: int| 0 <= k < geids.len() implies self.spec_contains_eid(
                #[trigger] geids[k],
            ) by {
                let j = choose|j: int|
                    0 <= j < self.essay_category@.len() && self.essay_category@[j].eid@
                        == geids[k];
                assert(rows_contain_eid(self.essays@, self.essay_category@[j].eid@));
            }
        }
        let mut out: Vec<EssayInfo> = Vec::new();
        let m = eids.len();
        let mut i: usize = 0;
        while i < m
            invariant
                self.inv(),
                m == eids@.len(),
                eids.deep_view() == geids,
                geids == eids_for(self.essay_category@, self.category_set.names_view(), category@),
                forall|k: int|
                    0 <= k < geids.len() ==> self.spec_contains_eid(#[trigger] geids[k]),
                i <= m,
                out@.len() == i,
                forall|k: int|
                    0 <= k < i ==> {
                        &&& (#[trigger] out@[k]).eid@ == geids[k]
                        &&& out@[k].title@ == self.record_of(geids[k]).title
                        &&& out@[k].date@ == self.record_of(geids[k]).date
                        &&& out@[k].brief@ == self.record_of(geids[k]).brief
                        &&& out@[k].tags.deep_view() == self.tags_of(geids[k])
                        &&& out@[k].categories.deep_view() == self.categories_of(geids[k])
                    },
            decreases m - i,
        {
            match self.query_essay_info_from_eid(&eids[i]) {
                Some(info) => {
                    out.push(info);
                },
                None => {
                    proof {
                        assert(eids.deep_view()[i as int] == eids@[i as int]@);
                        assert(self.spec_contains_eid(geids[i as int]));
                        assert(false);
                    }
                },
            }
            i = i + 1;
        }
        Ok(out)
    }

    /// The summary of one essay, or nothing when the identifier is unknown.
    pub fn query_essay_info_from_eid(&self, eid: &String) -> (r: Option<EssayInfo>)
        requires
            self.inv(),
        ensures
            match r {
                Some(info) => {
                    &&& self.spec_contains_eid(eid@)
                    &&& info.eid@ == eid@
                    &&& info.title@ == self.record_of(eid@).title
                    &&& info.date@ == self.record_of(eid@).date
                    &&& info.brief@ == self.record_of(eid@).brief
                    &&& info.tags.deep_view() == self.tags_of(eid@)
                    &&& info.categories.deep_view() == self.categories_of(eid@)
                },
                None => !self.spec_contains_eid(eid@),
            },
    {
        match self.find_eid(eid) {
            Some(i) => {
                proof {
                    self.lemma_index_of(eid@);
                }
                Some(self.info_at(i))
            },
            None => None,
        }
    }
}

} // verus!
