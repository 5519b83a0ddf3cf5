//! The reconciler: the three-way diff between the document source and the
//! catalogue store, and the driver of the resulting mutations.
//!
//! A persisted essay whose identifier has left the source set is deleted; a
//! source document whose identifier is new is inserted; one whose source
//! modification instant strictly exceeds the persisted save time is
//! updated; equal or older instants leave the essay untouched, which makes
//! repeated runs over unchanged sources no-ops.

use vstd::prelude::*;

use crate::data_struct::Essay;
use crate::error::Error;
use crate::store::CatalogueStore;
use crate::store::EssayRow;
use crate::store::row_view_of;
use crate::store::rows_contain_eid;

verus! {

/// One source document ready for reconciliation: the parsed essay and its
/// filesystem modification instant.
#[derive(Debug)]
pub struct SourceDoc {
    pub essay: Essay,
    pub modified: i64,
}

/// The outcome of one reconciliation run: which essays were inserted,
/// updated and deleted, and which documents failed to parse, each with its
/// path and the error.
#[derive(Debug)]
pub struct SyncReport {
    pub inserted: Vec<String>,
    pub updated: Vec<String>,
    pub deleted: Vec<String>,
    pub failed: Vec<(String, Error)>,
}

/// Whether some document in the set carries the identifier `e`.
pub open spec fn docs_contain_eid(docs: Seq<SourceDoc>, e: Seq<char>) -> bool {
    exists|i: int| 0 <= i < docs.len() && (#[trigger] docs[i]).essay.eid@ == e
}

/// No two documents of one source scan may share an identifier; a
/// duplicate is a fatal input error for the run.
pub open spec fn docs_unique(docs: Seq<SourceDoc>) -> bool {
    forall|i: int, j: int|
        0 <= i < j < docs.len() ==> (#[trigger] docs[i]).essay.eid@ != (
        #[trigger] docs[j]).essay.eid@
}

/// The identifiers of the documents absent from the store, in document
/// order: the insert set of the run against the pre-state `pre`.
pub open spec fn inserted_eids(docs: Seq<SourceDoc>, pre: CatalogueStore) -> Seq<Seq<char>>
    decreases docs.len(),
{
    if docs.len() == 0 {
        Seq::empty()
    } else {
        let rest = inserted_eids(docs.drop_last(), pre);
        if !pre.spec_contains_eid(docs.last().essay.eid@) {
            rest.push(docs.last().essay.eid@)
        } else {
            rest
        }
    }
}

/// The identifiers of the documents persisted with an older save time than
/// their source modification instant, in document order: the update set of
/// the run against the pre-state `pre`. The comparison is strictly greater:
/// an equal instant means untouched.
pub open spec fn updated_eids(docs: Seq<SourceDoc>, pre: CatalogueStore) -> Seq<Seq<char>>
    decreases docs.len(),
{
    if docs.len() == 0 {
        Seq::empty()
    } else {
        let rest = updated_eids(docs.drop_last(), pre);
        let e = docs.last().essay.eid@;
        if pre.spec_contains_eid(e) && docs.last().modified > pre.record_of(e).last_save_time {
            rest.push(e)
        } else {
            rest
        }
    }
}

/// The identifiers persisted in `essays` but absent from the source set,
/// in table order: the delete set of the run.
pub open spec fn deleted_eids(essays: Seq<EssayRow>, docs: Seq<SourceDoc>) -> Seq<Seq<char>>
    decreases essays.len(),
{
    if essays.len() == 0 {
        Seq::empty()
    } else {
        let rest = deleted_eids(essays.drop_last(), docs);
        if !docs_contain_eid(docs, essays.last().eid@) {
            rest.push(essays.last().eid@)
        } else {
            rest
        }
    }
}

/// Every identifier in the delete set is a persisted row's and belongs to
/// no source document.
proof fn lemma_deleted_eids_elems(essays: Seq<EssayRow>, docs: Seq<SourceDoc>)
    ensures
        forall|k: int|
            0 <= k < deleted_eids(essays, docs).len() ==> rows_contain_eid(
                essays,
                #[trigger] deleted_eids(essays, docs)[k],
            ) && !docs_contain_eid(docs, deleted_eids(essays, docs)[k]),
    decreases essays.len(),
{
    if essays.len() > 0 {
        lemma_deleted_eids_elems(essays.drop_last(), docs);
        let s = deleted_eids(essays, docs);
        let rest = deleted_eids(essays.drop_last(), docs);
        assert forall|k: int| 0 <= k < s.len() implies rows_contain_eid(
            essays,
            #[trigger] s[k],
        ) && !docs_contain_eid(docs, s[k]) by {
            if k < rest.len() {
                let i = choose|i: int|
                    0 <= i < essays.drop_last().len() && essays.drop_last()[i].eid@ == rest[k];
                assert(essays[i].eid@ == s[k]);
            } else {
                assert(essays[essays.len() - 1].eid@ == s[k]);
            }
        }
    }
}

/// Every persisted identifier absent from the source set is in the delete
/// set.
proof fn lemma_deleted_eids_complete(essays: Seq<EssayRow>, docs: Seq<SourceDoc>, e: Seq<char>)
    requires
        rows_contain_eid(essays, e),
        !docs_contain_eid(docs, e),
    ensures
        deleted_eids(essays, docs).contains(e),
    decreases essays.len(),
{
    if essays.len() > 0 {
        let s = deleted_eids(essays, docs);
        let rest = deleted_eids(essays.drop_last(), docs);
        if essays.last().eid@ == e {
            assert(s[s.len() - 1] == e);
        } else {
            let i = choose|i: int| 0 <= i < essays.len() && essays[i].eid@ == e;
            assert(i < essays.len() - 1);
            assert(essays.drop_last()[i].eid@ == e);
            lemma_deleted_eids_complete(essays.drop_last(), docs, e);
            let k = choose|k: int| 0 <= k < rest.len() && rest[k] == e;
            assert(s[k] == e);
        }
    }
}

/// Under row uniqueness the delete set repeats no identifier.
proof fn lemma_deleted_eids_distinct(essays: Seq<EssayRow>, docs: Seq<SourceDoc>)
    requires
        forall|i: int, j: int|
            0 <= i < j < essays.len() ==> (#[trigger] essays[i]).eid@ != (
            #[trigger] essays[j]).eid@,
    ensures
        forall|k1: int, k2: int|
            0 <= k1 < k2 < deleted_eids(essays, docs).len() ==> deleted_eids(essays, docs)[k1]
                != deleted_eids(essays, docs)[k2],
    decreases essays.len(),
{
    if essays.len() > 0 {
        assert(forall|i: int, j: int|
            0 <= i < j < essays.drop_last().len() ==> (#[trigger] essays.drop_last()[i]).eid@ != (
            #[trigger] essays.drop_last()[j]).eid@);
        lemma_deleted_eids_distinct(essays.drop_last(), docs);
        lemma_deleted_eids_elems(essays.drop_last(), docs);
        let s = deleted_eids(essays, docs);
        let rest = deleted_eids(essays.drop_last(), docs);
        assert forall|k1: int, k2: int| 0 <= k1 < k2 < s.len() implies s[k1] != s[k2] by {
            if k2 < rest.len() {
                assert(rest[k1] != rest[k2]);
            } else {
                // k2 names the pushed last row, which no earlier row repeats
                assert(s[k2] == essays.last().eid@);
                assert(rows_contain_eid(essays.drop_last(), rest[k1]));
                let i = choose|i: int|
                    0 <= i < essays.drop_last().len() && essays.drop_last()[i].eid@ == rest[k1];
                assert(essays[i].eid@ == rest[k1]);
                assert(essays[i].eid@ != essays[essays.len() - 1].eid@);
            }
        }
    }
}

/// Whether the identifier is still in the source set, decided by a scan.
fn docs_have_eid(docs: &Vec<SourceDoc>, eid: &String) -> (r: bool)
    ensures
        r == docs_contain_eid(docs@, eid@),
{
    let n = docs.len();
    let mut i: usize = 0;
    while i < n
        invariant
            n == docs@.len(),
            i <= n,
            forall|k: int| 0 <= k < i ==> (#[trigger] docs@[k]).essay.eid@ != eid@,
        decreases n - i,
    {
        if docs[i].essay.eid == *eid {
            return true;
        }
        i = i + 1;
    }
    false
}

/// Whether no two documents share an identifier.
fn docs_are_unique(docs: &Vec<SourceDoc>) -> (r: bool)
    ensures
        r == docs_unique(docs@),
{
    let n = docs.len();
    let mut i: usize = 0;
    while i < n
        invariant
            n == docs@.len(),
            i <= n,
            forall|a: int, b: int|
                0 <= a < b < docs@.len() && a < i ==> (#[trigger] docs@[a]).essay.eid@ != (
                #[trigger] docs@[b]).essay.eid@,
        decreases n - i,
    {
        let mut j: usize = i + 1;
        while j < n
            invariant
                n == docs@.len(),
                i < j || i + 1 == j,
                i < n,
                j <= n,
                i + 1 <= j,
                forall|b: int|
                    i < b < j ==> (#[trigger] docs@[b]).essay.eid@ != docs@[i as int].essay.eid@,
            decreases n - j,
        {
            if docs[i].essay.eid == docs[j].essay.eid {
                return false;
            }
            j = j + 1;
        }
        i = i + 1;
    }
    true
}

/// The delete set of a run: every persisted identifier that has left the
/// source set, in table order.
fn collect_deletes(store: &CatalogueStore, docs: &Vec<SourceDoc>) -> (del: Vec<String>)
    ensures
        del.deep_view() == deleted_eids(store.essays@, docs@),
{
    let mut del: Vec<String> = Vec::new();
    let n = store.essays.len();
    let mut i: usize = 0;
    while i < n
        invariant
            n == store.essays@.len(),
            i <= n,
            del.deep_view() == deleted_eids(store.essays@.take(i as int), docs@),
        decreases n - i,
    {
        if !docs_have_eid(docs, &store.essays[i].eid) {
            let ghost before = del.deep_view();
            del.push(store.essays[i].eid.clone());
            proof {
                assert(del.deep_view() =~= before.push(store.essays@[i as int].eid@));
            }
        }
        proof {
            assert(store.essays@.take(i + 1 as int).drop_last() =~= store.essays@.take(i as int));
            assert(store.essays@.take(i + 1 as int).last() == store.essays@[i as int]);
        }
        i = i + 1;
    }
    proof {
        assert(store.essays@.take(n as int) =~= store.essays@);
    }
    del
}

/// What one reconciliation run owes for one source document: a new or
/// freshly modified document is written wholly (record, tags, categories),
/// and one at or behind the persisted save time is left untouched.
pub open spec fn doc_outcome(
    pre: CatalogueStore,
    post: CatalogueStore,
    d: SourceDoc,
    now: i64,
) -> bool {
    let e = d.essay.eid@;
    if !pre.spec_contains_eid(e) || d.modified > pre.record_of(e).last_save_time {
        &&& post.record_of(e) == row_view_of(d.essay, now)
        &&& post.tags_of(e) == d.essay.tags.deep_view()
        &&& post.categories_of(e) == d.essay.categories.deep_view()
    } else {
        &&& post.record_of(e) == pre.record_of(e)
        &&& post.tags_of(e) == pre.tags_of(e)
        &&& post.categories_of(e) == pre.categories_of(e)
    }
}

/// Everything a successful reconciliation run guarantees: the persisted
/// identifier set converges to the source set, each document gets its owed
/// outcome, the report lists the three mutation sets exactly, and the
/// dictionaries only grow.
pub open spec fn reconcile_ok_post(
    pre: CatalogueStore,
    post: CatalogueStore,
    docs: Seq<SourceDoc>,
    now: i64,
    inserted: Seq<Seq<char>>,
    updated: Seq<Seq<char>>,
    deleted: Seq<Seq<char>>,
) -> bool {
    &&& post.inv()
    &&& forall|e: Seq<char>| post.spec_contains_eid(e) <==> docs_contain_eid(docs, e)
    &&& forall|k: int| 0 <= k < docs.len() ==> doc_outcome(pre, post, #[trigger] docs[k], now)
    &&& inserted == inserted_eids(docs, pre)
    &&& updated == updated_eids(docs, pre)
    &&& deleted == deleted_eids(pre.essays@, docs)
    &&& pre.tag_set.names_view().is_prefix_of(post.tag_set.names_view())
    &&& pre.category_set.names_view().is_prefix_of(post.category_set.names_view())
}

/// One reconciliation run over already parsed documents: delete what left
/// the source set, insert what is new, update what was modified after its
/// persisted save time, and report each set. A duplicated identifier in
/// the source set is a fatal input error: nothing is mutated and the run
/// fails with `ConstraintViolation`.
pub fn reconcile(store: &mut CatalogueStore, docs: &Vec<SourceDoc>, now: i64) -> (r: Result<
    SyncReport,
    Error,
>)
    requires
        old(store).inv(),
    ensures
        final(store).inv(),
        r is Ok <==> docs_unique(docs@),
        match r {
            Ok(report) => reconcile_ok_post(
                *old(store),
                *final(store),
                docs@,
                now,
                report.inserted.deep_view(),
                report.updated.deep_view(),
                report.deleted.deep_view(),
            ) && report.failed@.len() == 0,
            Err(e) => e == Error::ConstraintViolation && *final(store) == *old(store),
        },
{
    if !docs_are_unique(docs) {
        return Err(Error::ConstraintViolation);
    }
    let ghost pre = *old(store);

    // delete pass: drop every persisted essay whose identifier left the set
    let del = collect_deletes(store, docs);
    proof {
        lemma_deleted_eids_elems(pre.essays@, docs@);
        lemma_deleted_eids_distinct(pre.essays@, docs@);
        assert(del.deep_view().take(0) =~= Seq::<Seq<char>>::empty());
    }
    let dn = del.len();
    let mut u: usize = 0;
    while u < dn
        invariant
            store.inv(),
            pre.inv(),
            dn == del@.len(),
            u <= dn,
            del.deep_view() == deleted_eids(pre.essays@, docs@),
            forall|k: int|
                0 <= k < del.deep_view().len() ==> rows_contain_eid(
                    pre.essays@,
                    #[trigger] del.deep_view()[k],
                ) && !docs_contain_eid(docs@, del.deep_view()[k]),
            forall|k1: int, k2: int|
                0 <= k1 < k2 < del.deep_view().len() ==> del.deep_view()[k1]
                    != del.deep_view()[k2],
            forall|e: Seq<char>| #![trigger store.spec_contains_eid(e)]
                store.spec_contains_eid(e) <==> (pre.spec_contains_eid(e) && !del.deep_view().take(
                    u as int,
                ).contains(e)),
            forall|e: Seq<char>|
                docs_contain_eid(docs@, e) && pre.spec_contains_eid(e) ==> store.record_of(e)
                    == pre.record_of(e) && store.tags_of(e) == pre.tags_of(e)
                    && store.categories_of(e) == pre.categories_of(e),
            store.tag_set == pre.tag_set,
            store.category_set == pre.category_set,
        decreases dn - u,
    {
        let ghost sbefore = *store;
        let ghost dv = del.deep_view();
        let ghost e0 = dv[u as int];
        store.delete_essay(&del[u]);
        proof {
            assert(del@[u as int]@ == e0);
            assert(dv.take(u + 1 as int) =~= dv.take(u as int).push(e0));
            assert forall|e: Seq<char>| #![trigger store.spec_contains_eid(e)]
                store.spec_contains_eid(e) <==> (pre.spec_contains_eid(e) && !dv.take(
                    u + 1 as int,
                ).contains(e)) by {
                let tk0 = dv.take(u as int);
                let tk1 = dv.take(u + 1 as int);
                assert(sbefore.spec_contains_eid(e) <==> (pre.spec_contains_eid(e)
                    && !tk0.contains(e)));
                assert(store.spec_contains_eid(e) <==> (sbefore.spec_contains_eid(e) && e != e0));
                if e == e0 {
                    assert(tk1[u as int] == e0);
                    assert(tk1.contains(e0));
                } else {
                    if tk0.contains(e) {
                        let k = choose|k: int| 0 <= k < tk0.len() && tk0[k] == e;
                        assert(tk1[k] == e);
                    }
                    if tk1.contains(e) {
                        let k = choose|k: int| 0 <= k < tk1.len() && tk1[k] == e;
                        assert(k < u);
                        assert(tk0[k] == e);
                    }
                }
            }
            assert forall|e: Seq<char>|
                docs_contain_eid(docs@, e) && pre.spec_contains_eid(e) implies store.record_of(e)
                == pre.record_of(e) && store.tags_of(e) == pre.tags_of(e) && store.categories_of(
                e,
            ) == pre.categories_of(e) by {
                assert(!docs_contain_eid(docs@, e0));
                assert(e != e0);
            }
        }
        u = u + 1;
    }
    proof {
        assert(del.deep_view().take(dn as int) =~= del.deep_view());
        assert forall|e: Seq<char>|
            store.spec_contains_eid(e) <==> (pre.spec_contains_eid(e) && docs_contain_eid(
                docs@,
                e,
            )) by {
            if pre.spec_contains_eid(e) && !docs_contain_eid(docs@, e) {
                lemma_deleted_eids_complete(pre.essays@, docs@, e);
            }
            if del.deep_view().contains(e) {
                let k = choose|k: int|
                    0 <= k < del.deep_view().len() && del.deep_view()[k] == e;
                assert(!docs_contain_eid(docs@, del.deep_view()[k]));
            }
        }
    }

    // insert and update pass, in document order
    let mut inserted: Vec<String> = Vec::new();
    let mut updated: Vec<String> = Vec::new();
    let n = docs.len();
    let mut t: usize = 0;
    proof {
        assert(inserted.deep_view() =~= inserted_eids(docs@.take(0), pre));
        assert(updated.deep_view() =~= updated_eids(docs@.take(0), pre));
    }
    while t < n
        invariant
            store.inv(),
            pre.inv(),
            n == docs@.len(),
            t <= n,
            docs_unique(docs@),
            forall|e: Seq<char>| #![trigger store.spec_contains_eid(e)]
                store.spec_contains_eid(e) <==> ((pre.spec_contains_eid(e) && docs_contain_eid(
                    docs@,
                    e,
                )) || exists|k: int| 0 <= k < t && (#[trigger] docs@[k]).essay.eid@ == e),
            forall|k: int| 0 <= k < t ==> doc_outcome(pre, *store, #[trigger] docs@[k], now),
            forall|k: int|
                t <= k < n && pre.spec_contains_eid((#[trigger] docs@[k]).essay.eid@)
                    ==> store.record_of(docs@[k].essay.eid@) == pre.record_of(docs@[k].essay.eid@)
                    && store.tags_of(docs@[k].essay.eid@) == pre.tags_of(docs@[k].essay.eid@)
                    && store.categories_of(docs@[k].essay.eid@) == pre.categories_of(
                    docs@[k].essay.eid@,
                ),
            inserted.deep_view() == inserted_eids(docs@.take(t as int), pre),
            updated.deep_view() == updated_eids(docs@.take(t as int), pre),
            pre.tag_set.names_view().is_prefix_of(store.tag_set.names_view()),
            pre.category_set.names_view().is_prefix_of(store.category_set.names_view()),
        decreases n - t,
    {
        let d = &docs[t];
        let ghost e = d.essay.eid@;
        let ghost sbefore = *store;
        proof {
            assert(docs@[t as int].essay.eid@ == e);
            assert(docs_contain_eid(docs@, e));
            // no earlier document shares this identifier, so the store's
            // current view of it is still the pre-state's
            assert(!(exists|k: int| 0 <= k < t && (#[trigger] docs@[k]).essay.eid@ == e));
            assert(store.spec_contains_eid(e) <==> pre.spec_contains_eid(e));
            assert(docs@.take(t + 1 as int).drop_last() =~= docs@.take(t as int));
            assert(docs@.take(t + 1 as int).last() == docs@[t as int]);
        }
        match store.find_eid(&d.essay.eid) {
            None => {
                let res = store.insert_essay(&d.essay, now);
                match res {
                    Ok(_) => {},
                    Err(_) => {
                        proof {
                            assert(false);
                        }
                    },
                }
                let ghost before = inserted.deep_view();
                inserted.push(d.essay.eid.clone());
                proof {
                    assert(inserted.deep_view() =~= before.push(e));
                    assert(inserted.deep_view() == inserted_eids(docs@.take(t + 1 as int), pre));
                    assert(updated.deep_view() == updated_eids(docs@.take(t + 1 as int), pre));
                    lemma_pass_step(pre, sbefore, *store, docs@, t as int, now);
                }
            },
            Some(idx) => {
                proof {
                    store.lemma_index_of(e);
                    assert(store.spec_index_of(e) == idx as int);
                    assert(store.record_of(e) == pre.record_of(e));
                }
                let last = store.essays[idx].last_save_time;
                if d.modified > last {
                    let res = store.update_essay(&d.essay, now);
                    match res {
                        Ok(_) => {},
                        Err(_) => {
                            proof {
                                assert(false);
                            }
                        },
                    }
                    let ghost before = updated.deep_view();
                    updated.push(d.essay.eid.clone());
                    proof {
                        assert(updated.deep_view() =~= before.push(e));
                        assert(updated.deep_view() == updated_eids(docs@.take(t + 1 as int), pre));
                        assert(inserted.deep_view() == inserted_eids(
                            docs@.take(t + 1 as int),
                            pre,
                        ));
                        lemma_pass_step(pre, sbefore, *store, docs@, t as int, now);
                    }
                } else {
                    proof {
                        assert(inserted.deep_view() == inserted_eids(
                            docs@.take(t + 1 as int),
                            pre,
                        ));
                        assert(updated.deep_view() == updated_eids(docs@.take(t + 1 as int), pre));
                        assert(doc_outcome(pre, *store, docs@[t as int], now));
                        assert forall|e2: Seq<char>|
                            store.spec_contains_eid(e2) <==> ((pre.spec_contains_eid(e2)
                                && docs_contain_eid(docs@, e2)) || exists|k: int|
                                0 <= k < t + 1 && (#[trigger] docs@[k]).essay.eid@ == e2) by {
                            if exists|k: int| 0 <= k < t + 1 && (#[trigger] docs@[k]).essay.eid@
                                == e2 {
                                let k = choose|k: int|
                                    0 <= k < t + 1 && (#[trigger] docs@[k]).essay.eid@ == e2;
                                if k == t {
                                    assert(store.spec_contains_eid(e));
                                }
                            }
                        }
                    }
                }
            },
        }
        t = t + 1;
    }
    proof {
        assert(docs@.take(n as int) =~= docs@);
        assert forall|e: Seq<char>|
            store.spec_contains_eid(e) <==> docs_contain_eid(docs@, e) by {
            if docs_contain_eid(docs@, e) {
                let k = choose|k: int|
                    0 <= k < docs@.len() && (#[trigger] docs@[k]).essay.eid@ == e;
                assert(0 <= k < n && docs@[k].essay.eid@ == e);
            }
            if store.spec_contains_eid(e) && (exists|k: int|
                0 <= k < t && (#[trigger] docs@[k]).essay.eid@ == e) {
                let k = choose|k: int| 0 <= k < t && (#[trigger] docs@[k]).essay.eid@ == e;
                assert(docs@[k].essay.eid@ == e);
                assert(docs_contain_eid(docs@, e));
            }
        }
    }
    Ok(SyncReport { inserted, updated, deleted: del, failed: Vec::new() })
}

/// One insert-or-update step of the document pass keeps the pass
/// invariant: earlier documents' outcomes survive because identifiers are
/// unique, later persisted documents stay untouched, and the freshly
/// written document has its owed outcome.
proof fn lemma_pass_step(
    pre: CatalogueStore,
    sbefore: CatalogueStore,
    post: CatalogueStore,
    docs: Seq<SourceDoc>,
    t: int,
    now: i64,
)
    requires
        0 <= t < docs.len(),
        docs_unique(docs),
        pre.inv(),
        sbefore.inv(),
        post.inv(),
        forall|e: Seq<char>|
            sbefore.spec_contains_eid(e) <==> ((pre.spec_contains_eid(e) && docs_contain_eid(
                docs,
                e,
            )) || exists|k: int| 0 <= k < t && (#[trigger] docs[k]).essay.eid@ == e),
        forall|k: int| 0 <= k < t ==> doc_outcome(pre, sbefore, #[trigger] docs[k], now),
        forall|k: int|
            t <= k < docs.len() && pre.spec_contains_eid((#[trigger] docs[k]).essay.eid@)
                ==> sbefore.record_of(docs[k].essay.eid@) == pre.record_of(docs[k].essay.eid@)
                && sbefore.tags_of(docs[k].essay.eid@) == pre.tags_of(docs[k].essay.eid@)
                && sbefore.categories_of(docs[k].essay.eid@) == pre.categories_of(
                docs[k].essay.eid@,
            ),
        // the step wrote document t wholly
        forall|e: Seq<char>|
            post.spec_contains_eid(e) <==> (sbefore.spec_contains_eid(e) || e
                == docs[t].essay.eid@),
        post.record_of(docs[t].essay.eid@) == row_view_of(docs[t].essay, now),
        post.tags_of(docs[t].essay.eid@) == docs[t].essay.tags.deep_view(),
        post.categories_of(docs[t].essay.eid@) == docs[t].essay.categories.deep_view(),
        forall|e: Seq<char>|
            e != docs[t].essay.eid@ && sbefore.spec_contains_eid(e) ==> post.record_of(e)
                == sbefore.record_of(e),
        forall|e: Seq<char>|
            e != docs[t].essay.eid@ ==> post.tags_of(e) == sbefore.tags_of(e)
                && post.categories_of(e) == sbefore.categories_of(e),
        !pre.spec_contains_eid(docs[t].essay.eid@) || docs[t].modified > pre.record_of(
            docs[t].essay.eid@,
        ).last_save_time,
    ensures
        forall|e: Seq<char>|
            post.spec_contains_eid(e) <==> ((pre.spec_contains_eid(e) && docs_contain_eid(docs, e))
                || exists|k: int| 0 <= k < t + 1 && (#[trigger] docs[k]).essay.eid@ == e),
        forall|k: int| 0 <= k < t + 1 ==> doc_outcome(pre, post, #[trigger] docs[k], now),
        forall|k: int|
            t + 1 <= k < docs.len() && pre.spec_contains_eid((#[trigger] docs[k]).essay.eid@)
                ==> post.record_of(docs[k].essay.eid@) == pre.record_of(docs[k].essay.eid@)
                && post.tags_of(docs[k].essay.eid@) == pre.tags_of(docs[k].essay.eid@)
                && post.categories_of(docs[k].essay.eid@) == pre.categories_of(
                docs[k].essay.eid@,
            ),
{
    let e0 = docs[t].essay.eid@;
    assert forall|e: Seq<char>|
        post.spec_contains_eid(e) <==> ((pre.spec_contains_eid(e) && docs_contain_eid(docs, e))
            || exists|k: int| 0 <= k < t + 1 && (#[trigger] docs[k]).essay.eid@ == e) by {
        if e == e0 {
            assert(docs[t].essay.eid@ == e);
        } else {
            if exists|k: int| 0 <= k < t + 1 && (#[trigger] docs[k]).essay.eid@ == e {
                let k = choose|k: int| 0 <= k < t + 1 && (#[trigger] docs[k]).essay.eid@ == e;
                assert(k != t);
                assert(0 <= k < t && docs[k].essay.eid@ == e);
            }
        }
    }
    assert forall|k: int| 0 <= k < t + 1 implies doc_outcome(
        pre,
        post,
        #[trigger] docs[k],
        now,
    ) by {
        if k < t {
            assert(docs[k].essay.eid@ != e0);
            assert(0 <= k < t && (#[trigger] docs[k]).essay.eid@ == docs[k].essay.eid@);
            assert(sbefore.spec_contains_eid(docs[k].essay.eid@));
            assert(post.record_of(docs[k].essay.eid@) == sbefore.record_of(docs[k].essay.eid@));
            assert(post.tags_of(docs[k].essay.eid@) == sbefore.tags_of(docs[k].essay.eid@));
            assert(post.categories_of(docs[k].essay.eid@) == sbefore.categories_of(
                docs[k].essay.eid@,
            ));
        }
    }
    assert forall|k: int|
        t + 1 <= k < docs.len() && pre.spec_contains_eid(
            (#[trigger] docs[k]).essay.eid@,
        ) implies post.record_of(docs[k].essay.eid@) == pre.record_of(docs[k].essay.eid@)
        && post.tags_of(docs[k].essay.eid@) == pre.tags_of(docs[k].essay.eid@)
        && post.categories_of(docs[k].essay.eid@) == pre.categories_of(docs[k].essay.eid@) by {
        assert(docs[k].essay.eid@ != e0);
        assert(docs_contain_eid(docs, docs[k].essay.eid@));
        assert(sbefore.spec_contains_eid(docs[k].essay.eid@));
    }
}

/// One document as the directory walk handed it over: its path, and
/// either the parsed document or the error its parsing produced.
#[derive(Debug)]
pub struct LoadedDoc {
    pub path: String,
    pub parsed: Result<SourceDoc, Error>,
}

/// The documents that parsed, in load order.
pub open spec fn parsed_docs(loaded: Seq<LoadedDoc>) -> Seq<SourceDoc>
    decreases loaded.len(),
{
    if loaded.len() == 0 {
        Seq::empty()
    } else {
        let rest = parsed_docs(loaded.drop_last());
        match loaded.last().parsed {
            Ok(d) => rest.push(d),
            Err(_) => rest,
        }
    }
}

/// The documents that failed to parse, each with its path and error, in
/// load order.
pub open spec fn failed_list(loaded: Seq<LoadedDoc>) -> Seq<(Seq<char>, Error)>
    decreases loaded.len(),
{
    if loaded.len() == 0 {
        Seq::empty()
    } else {
        let rest = failed_list(loaded.drop_last());
        match loaded.last().parsed {
            Ok(_) => rest,
            Err(er) => rest.push((loaded.last().path@, er)),
        }
    }
}

/// The failure pairs of a report at the view level.
pub open spec fn failed_view(v: Seq<(String, Error)>) -> Seq<(Seq<char>, Error)> {
    Seq::new(v.len(), |k: int| (v[k].0@, v[k].1))
}

/// One full reconciliation run: split what was loaded into parsed
/// documents and parse failures, reconcile the parsed set against the
/// store, and report the failures alongside the three mutation sets. A
/// malformed document is fatal for that document only: every other
/// document is still reconciled.
pub fn sync_run(store: &mut CatalogueStore, loaded: Vec<LoadedDoc>, now: i64) -> (r: Result<
    SyncReport,
    Error,
>)
    requires
        old(store).inv(),
    ensures
        final(store).inv(),
        r is Ok <==> docs_unique(parsed_docs(loaded@)),
        match r {
            Ok(report) => reconcile_ok_post(
                *old(store),
                *final(store),
                parsed_docs(loaded@),
                now,
                report.inserted.deep_view(),
                report.updated.deep_view(),
                report.deleted.deep_view(),
            ) && failed_view(report.failed@) == failed_list(loaded@),
            Err(e) => e == Error::ConstraintViolation && *final(store) == *old(store),
        },
{
    let ghost given = loaded@;
    let ghost total = given.len() as int;
    let mut loaded = loaded;
    let mut docs: Vec<SourceDoc> = Vec::new();
    let mut failed: Vec<(String, Error)> = Vec::new();
    let ghost mut i: int = 0;
    proof {
        assert(given.take(0) =~= Seq::<LoadedDoc>::empty());
        assert(docs@ =~= parsed_docs(given.take(0)));
        assert(failed_view(failed@) =~= failed_list(given.take(0)));
        assert(loaded@ =~= given.skip(0));
    }
    while loaded.len() > 0
        invariant
            0 <= i <= total,
            total == given.len(),
            loaded@ == given.skip(i),
            docs@ == parsed_docs(given.take(i)),
            failed_view(failed@) == failed_list(given.take(i)),
        decreases loaded@.len(),
    {
        let ld = loaded.remove(0);
        proof {
            assert(ld == given.skip(i)[0]);
            assert(ld == given[i]);
            assert(given.take(i + 1).drop_last() =~= given.take(i));
            assert(given.take(i + 1).last() == given[i]);
        }
        match ld.parsed {
            Ok(doc) => {
                docs.push(doc);
                proof {
                    assert(failed_view(failed@) =~= failed_list(given.take(i + 1)));
                }
            },
            Err(er) => {
                failed.push((ld.path, er));
                proof {
                    assert(failed_view(failed@) =~= failed_list(given.take(i + 1)));
                }
            },
        }
        proof {
            i = i + 1;
            assert(loaded@ =~= given.skip(i));
        }
    }
    proof {
        assert(i == total);
        assert(given.take(total) =~= given);
    }
    match reconcile(store, &docs, now) {
        Ok(rep) => Ok(
            SyncReport {
                inserted: rep.inserted,
                updated: rep.updated,
                deleted: rep.deleted,
                failed,
            },
        ),
        Err(e) => Err(e),
    }
}

/// Nothing is inserted when every document's essay is already persisted.
proof fn lemma_inserted_eids_all_present(docs: Seq<SourceDoc>, s: CatalogueStore)
    requires
        forall|k: int|
            0 <= k < docs.len() ==> s.spec_contains_eid((#[trigger] docs[k]).essay.eid@),
    ensures
        inserted_eids(docs, s) == Seq::<Seq<char>>::empty(),
    decreases docs.len(),
{
    if docs.len() > 0 {
        assert(docs.last() == docs[docs.len() - 1]);
        lemma_inserted_eids_all_present(docs.drop_last(), s);
    }
}

/// Nothing is updated when no document is newer than its persisted save
/// time.
proof fn lemma_updated_eids_none_newer(docs: Seq<SourceDoc>, s: CatalogueStore)
    requires
        forall|k: int|
            0 <= k < docs.len() ==> !(s.spec_contains_eid((#[trigger] docs[k]).essay.eid@)
                && docs[k].modified > s.record_of(docs[k].essay.eid@).last_save_time),
    ensures
        updated_eids(docs, s) == Seq::<Seq<char>>::empty(),
    decreases docs.len(),
{
    if docs.len() > 0 {
        assert(docs.last() == docs[docs.len() - 1]);
        lemma_updated_eids_none_newer(docs.drop_last(), s);
    }
}

/// Nothing is deleted when every persisted identifier is still in the
/// source set.
proof fn lemma_deleted_eids_all_in_docs(essays: Seq<EssayRow>, docs: Seq<SourceDoc>)
    requires
        forall|i: int|
            0 <= i < essays.len() ==> docs_contain_eid(docs, (#[trigger] essays[i]).eid@),
    ensures
        deleted_eids(essays, docs) == Seq::<Seq<char>>::empty(),
    decreases essays.len(),
{
    if essays.len() > 0 {
        assert(essays.last() == essays[essays.len() - 1]);
        lemma_deleted_eids_all_in_docs(essays.drop_last(), docs);
    }
}

/// Convergence: whatever the persisted set held before, after a
/// successful reconciliation the persisted identifier set equals the
/// source set's identifiers exactly.
pub proof fn lemma_reconcile_convergence(
    pre: CatalogueStore,
    post: CatalogueStore,
    docs: Seq<SourceDoc>,
    now: i64,
    ins: Seq<Seq<char>>,
    upd: Seq<Seq<char>>,
    del: Seq<Seq<char>>,
)
    requires
        reconcile_ok_post(pre, post, docs, now, ins, upd, del),
    ensures
        forall|e: Seq<char>| post.spec_contains_eid(e) <==> docs_contain_eid(docs, e),
{
}

/// The monotonic update gate: an essay whose source modification instant
/// is at or before its persisted save time is never mutated — record,
/// save time and associations all stay; one strictly newer is always
/// mutated, to exactly its source-declared state.
pub proof fn lemma_monotonic_update_gate(
    pre: CatalogueStore,
    post: CatalogueStore,
    docs: Seq<SourceDoc>,
    now: i64,
    ins: Seq<Seq<char>>,
    upd: Seq<Seq<char>>,
    del: Seq<Seq<char>>,
    k: int,
)
    requires
        reconcile_ok_post(pre, post, docs, now, ins, upd, del),
        0 <= k < docs.len(),
        pre.spec_contains_eid(docs[k].essay.eid@),
    ensures
        docs[k].modified <= pre.record_of(docs[k].essay.eid@).last_save_time ==> {
            &&& post.record_of(docs[k].essay.eid@) == pre.record_of(docs[k].essay.eid@)
            &&& post.tags_of(docs[k].essay.eid@) == pre.tags_of(docs[k].essay.eid@)
            &&& post.categories_of(docs[k].essay.eid@) == pre.categories_of(docs[k].essay.eid@)
        },
        docs[k].modified > pre.record_of(docs[k].essay.eid@).last_save_time ==> {
            &&& post.record_of(docs[k].essay.eid@) == row_view_of(docs[k].essay, now)
            &&& post.tags_of(docs[k].essay.eid@) == docs[k].essay.tags.deep_view()
            &&& post.categories_of(docs[k].essay.eid@) == docs[k].essay.categories.deep_view()
        },
{
    assert(doc_outcome(pre, post, docs[k], now));
}

/// Idempotence of reconciliation: a second run over the same source set,
/// with no source changes, performs no mutation. Its insert, update and
/// delete sets are all empty, and every essay's record and associations
/// are exactly what the first run left. The source instants must not lie
/// in the future of the first run's instant, as a file saved "later than
/// now" would legitimately be picked up again.
pub proof fn lemma_reconcile_idempotent(
    pre: CatalogueStore,
    s1: CatalogueStore,
    s2: CatalogueStore,
    docs: Seq<SourceDoc>,
    now1: i64,
    now2: i64,
    ins1: Seq<Seq<char>>,
    upd1: Seq<Seq<char>>,
    del1: Seq<Seq<char>>,
    ins2: Seq<Seq<char>>,
    upd2: Seq<Seq<char>>,
    del2: Seq<Seq<char>>,
)
    requires
        docs_unique(docs),
        forall|k: int| 0 <= k < docs.len() ==> (#[trigger] docs[k]).modified <= now1,
        reconcile_ok_post(pre, s1, docs, now1, ins1, upd1, del1),
        reconcile_ok_post(s1, s2, docs, now2, ins2, upd2, del2),
    ensures
        ins2 == Seq::<Seq<char>>::empty(),
        upd2 == Seq::<Seq<char>>::empty(),
        del2 == Seq::<Seq<char>>::empty(),
        forall|e: Seq<char>| s2.spec_contains_eid(e) <==> s1.spec_contains_eid(e),
        forall|k: int|
            0 <= k < docs.len() ==> s2.record_of((#[trigger] docs[k]).essay.eid@) == s1.record_of(
                docs[k].essay.eid@,
            ) && s2.tags_of(docs[k].essay.eid@) == s1.tags_of(docs[k].essay.eid@)
                && s2.categories_of(docs[k].essay.eid@) == s1.categories_of(docs[k].essay.eid@),
{
    // after the first run every document's essay is persisted
    assert forall|k: int| 0 <= k < docs.len() implies s1.spec_contains_eid(
        (#[trigger] docs[k]).essay.eid@,
    ) by {
        assert(0 <= k < docs.len() && docs[k].essay.eid@ == docs[k].essay.eid@);
        assert(docs_contain_eid(docs, docs[k].essay.eid@));
    }
    lemma_inserted_eids_all_present(docs, s1);
    // and none of them is newer than its persisted save time
    assert forall|k: int| 0 <= k < docs.len() implies !(s1.spec_contains_eid(
        (#[trigger] docs[k]).essay.eid@,
    ) && docs[k].modified > s1.record_of(docs[k].essay.eid@).last_save_time) by {
        let e = docs[k].essay.eid@;
        assert(doc_outcome(pre, s1, docs[k], now1));
        if !pre.spec_contains_eid(e) || docs[k].modified > pre.record_of(e).last_save_time {
            assert(s1.record_of(e).last_save_time == now1 as int);
        } else {
            assert(s1.record_of(e) == pre.record_of(e));
        }
    }
    lemma_updated_eids_none_newer(docs, s1);
    // and every persisted identifier is still in the source set
    assert forall|i: int| 0 <= i < s1.essays@.len() implies docs_contain_eid(
        docs,
        (#[trigger] s1.essays@[i]).eid@,
    ) by {
        assert(rows_contain_eid(s1.essays@, s1.essays@[i].eid@));
        assert(s1.spec_contains_eid(s1.essays@[i].eid@));
    }
    lemma_deleted_eids_all_in_docs(s1.essays@, docs);
    // so the second run leaves every document in the untouched branch
    assert forall|k: int| 0 <= k < docs.len() implies s2.record_of(
        (#[trigger] docs[k]).essay.eid@,
    ) == s1.record_of(docs[k].essay.eid@) && s2.tags_of(docs[k].essay.eid@) == s1.tags_of(
        docs[k].essay.eid@,
    ) && s2.categories_of(docs[k].essay.eid@) == s1.categories_of(docs[k].essay.eid@) by {
        let e = docs[k].essay.eid@;
        assert(doc_outcome(s1, s2, docs[k], now2));
        assert(s1.spec_contains_eid(e));
        assert(!(docs[k].modified > s1.record_of(e).last_save_time));
    }
}

} // verus!
