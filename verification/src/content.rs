//! The read-side content types: one rendered essay with its metadata, and
//! the collection that keeps essays ordered by their date's instant.

use vstd::prelude::*;

use crate::render::MarkdownRenderer;
use crate::render::html_of;

verus! {

/// The metadata block of a published essay: display fields, the declared
/// category and tag names, and a priority for the front page.
#[derive(Debug, Clone)]
pub struct EssayAmb {
    pub title: String,
    pub date: String,
    pub categories: Vec<String>,
    pub tags: Vec<String>,
    pub excerpt: String,
    pub priority: u32,
}

/// A rendered essay body.
#[derive(Debug, Clone)]
pub struct EssayContent {
    pub content: String,
}

impl EssayContent {
    /// Render one markdown body into its HTML content.
    pub fn from(content: &str) -> (r: Self)
        ensures
            r.content@ == html_of(content@),
    {
        EssayContent { content: MarkdownRenderer::new().render(content) }
    }
}

/// One published essay: its metadata and its rendered body.
#[derive(Debug, Clone)]
pub struct Essay {
    pub amb: EssayAmb,
    pub content: EssayContent,
}

/// The instant a date names, as seconds since the epoch, or nothing when
/// the text is not a date of the catalogue's format. The date is taken in
/// the fixed +08:00 offset the catalogue's dates are written in.
pub uninterp spec fn unix_instant_of(s: Seq<char>) -> Option<i64>;

/// The offset suffix appended to a date before it is parsed.
pub open spec fn zone_suffix() -> Seq<char> {
    (" +0800")@
}

/// A date field's instant: the date with the catalogue's fixed offset.
pub open spec fn date_instant(date: Seq<char>) -> Option<i64> {
    unix_instant_of(date + zone_suffix())
}

/// Relies on chrono's `DateTime::parse_from_str` with the
/// `"%Y-%m-%d %H:%M:%S %z"` format, and on `DateTime::timestamp`: both are
/// pure functions of the input characters alone.
#[verifier::external_body]
fn parse_zoned_unix(s: &str) -> (r: Option<i64>)
    ensures
        r == unix_instant_of(s@),
{
    match chrono::DateTime::parse_from_str(s, "%Y-%m-%d %H:%M:%S %z") {
        Ok(d) => Some(d.timestamp()),
        Err(_) => None,
    }
}

impl Essay {
    /// An essay from its already parsed metadata and its raw body, which
    /// is rendered here.
    pub fn from(amb: EssayAmb, content: &str) -> (r: Self)
        ensures
            r.amb == amb,
            r.content.content@ == html_of(content@),
    {
        Essay { amb, content: EssayContent::from(content) }
    }

    /// The essay's date as seconds since the epoch. The date must be one
    /// the catalogue's format accepts; `try_get_unix` decides that first.
    pub fn get_unix(&self) -> (r: i64)
        requires
            date_instant(self.amb.date@) is Some,
        ensures
            Some(r) == date_instant(self.amb.date@),
    {
        let zoned = self.amb.date.clone().concat(" +0800");
        proof {
            assert(zoned@ =~= self.amb.date@ + zone_suffix());
        }
        match parse_zoned_unix(zoned.as_str()) {
            Some(t) => t,
            None => unreached(),
        }
    }

    /// The essay's date as seconds since the epoch, or nothing when the
    /// date is not of the catalogue's format.
    pub fn try_get_unix(&self) -> (r: Option<i64>)
        ensures
            r == date_instant(self.amb.date@),
    {
        let zoned = self.amb.date.clone().concat(" +0800");
        proof {
            assert(zoned@ =~= self.amb.date@ + zone_suffix());
        }
        match parse_zoned_unix(zoned.as_str()) {
            Some(_) => Some(self.get_unix()),
            None => None,
        }
    }
}

/// Essays keyed and ordered by their date's instant: the collection the
/// published pages are generated from, oldest first.
#[derive(Debug)]
pub struct Essays {
    pub essays: Vec<(i64, Essay)>,
}

impl Essays {
    /// Keys strictly increase, so each instant holds at most one essay.
    pub open spec fn inv(self) -> bool {
        forall|i: int, j: int|
            0 <= i < j < self.essays@.len() ==> (#[trigger] self.essays@[i]).0 < (
            #[trigger] self.essays@[j]).0
    }

    /// Whether some essay is stored at this instant.
    pub open spec fn spec_contains_key(self, k: int) -> bool {
        exists|i: int| 0 <= i < self.essays@.len() && (#[trigger] self.essays@[i]).0 == k
    }

    /// The position of the essay at this instant; meaningful only when
    /// one exists (positions are unique under the invariant).
    pub open spec fn spec_key_index(self, k: int) -> int {
        choose|i: int| 0 <= i < self.essays@.len() && (#[trigger] self.essays@[i]).0 == k
    }

    /// The essay stored at this instant; meaningful only when one exists.
    pub open spec fn spec_get(self, k: int) -> Essay {
        self.essays@[self.spec_key_index(k)].1
    }

    /// Under the invariant, the position of a stored instant is the one
    /// and only entry carrying it.
    pub proof fn lemma_key_index(self, k: int)
        requires
            self.inv(),
            self.spec_contains_key(k),
        ensures
            0 <= self.spec_key_index(k) < self.essays@.len(),
            self.essays@[self.spec_key_index(k)].0 == k,
            forall|i: int|
                0 <= i < self.essays@.len() && (#[trigger] self.essays@[i]).0 == k ==> i
                    == self.spec_key_index(k),
    {
        let idx = self.spec_key_index(k);
        assert(0 <= idx < self.essays@.len() && self.essays@[idx].0 == k);
    }

    pub fn new() -> (r: Self)
        ensures
            r.inv(),
            r.essays@ == Seq::<(i64, Essay)>::empty(),
    {
        Essays { essays: Vec::new() }
    }

    /// Store the essay at its date's instant, replacing whatever essay
    /// that instant already held. The essay's date must be one the
    /// catalogue's format accepts.
    pub fn add_essay(&mut self, essay: Essay)
        requires
            old(self).inv(),
            date_instant(essay.amb.date@) is Some,
        ensures
            final(self).inv(),
            forall|k: int|
                final(self).spec_contains_key(k) <==> (old(self).spec_contains_key(k) || k
                    == date_instant(essay.amb.date@).unwrap() as int),
            final(self).spec_get(date_instant(essay.amb.date@).unwrap() as int) == essay,
            forall|k: int|
                k != date_instant(essay.amb.date@).unwrap() as int && old(
                    self,
                ).spec_contains_key(k) ==> final(self).spec_get(k) == old(self).spec_get(k),
    {
        let key = essay.get_unix();
        let n = self.essays.len();
        let mut p: usize = 0;
        while p < n && self.essays[p].0 < key
            invariant
                n == self.essays@.len(),
                p <= n,
                forall|i: int| 0 <= i < p ==> (#[trigger] self.essays@[i]).0 < key,
            decreases n - p,
        {
            p = p + 1;
        }
        let ghost pre = *self;
        if p < n && self.essays[p].0 == key {
            self.essays[p] = (key, essay);
            proof {
                self.lemma_add_replace_post(pre, essay, key as int, p as int);
            }
        } else {
            self.essays.insert(p, (key, essay));
            proof {
                self.lemma_add_insert_post(pre, essay, key as int, p as int);
            }
        }
    }

    /// The effect of replacing the entry that already carried the key.
    proof fn lemma_add_replace_post(self, pre: Self, essay: Essay, key: int, p: int)
        requires
            pre.inv(),
            0 <= p < pre.essays@.len(),
            pre.essays@[p].0 == key,
            self.essays@ == pre.essays@.update(p, ((key as i64), essay)),
            key as i64 as int == key,
        ensures
            self.inv(),
            forall|k: int|
                self.spec_contains_key(k) <==> (pre.spec_contains_key(k) || k == key),
            self.spec_get(key) == essay,
            forall|k: int|
                k != key && pre.spec_contains_key(k) ==> self.spec_get(k) == pre.spec_get(k),
    {
        assert forall|k: int|
            self.spec_contains_key(k) <==> (pre.spec_contains_key(k) || k == key) by {
            if self.spec_contains_key(k) {
                let i = choose|i: int|
                    0 <= i < self.essays@.len() && (#[trigger] self.essays@[i]).0 == k;
                if i != p {
                    assert(pre.essays@[i].0 == k);
                }
            }
            if pre.spec_contains_key(k) {
                let i = choose|i: int|
                    0 <= i < pre.essays@.len() && (#[trigger] pre.essays@[i]).0 == k;
                if i != p {
                    assert(self.essays@[i].0 == k);
                } else {
                    assert(self.essays@[p].0 == k);
                }
            }
            if k == key {
                assert(self.essays@[p].0 == k);
            }
        }
        self.lemma_key_index(key);
        assert(self.essays@[p].0 == key);
        assert(self.spec_key_index(key) == p);
        assert forall|k: int|
            k != key && pre.spec_contains_key(k) implies self.spec_get(k) == pre.spec_get(k) by {
            pre.lemma_key_index(k);
            self.lemma_key_index(k);
            let i = pre.spec_key_index(k);
            assert(i != p);
            assert(self.essays@[i].0 == k);
            assert(self.spec_key_index(k) == i);
        }
    }

    /// The effect of inserting a fresh entry at its sorted position.
    proof fn lemma_add_insert_post(self, pre: Self, essay: Essay, key: int, p: int)
        requires
            pre.inv(),
            0 <= p <= pre.essays@.len(),
            forall|i: int| 0 <= i < p ==> (#[trigger] pre.essays@[i]).0 < key,
            p < pre.essays@.len() ==> pre.essays@[p].0 > key,
            self.essays@ == pre.essays@.insert(p, ((key as i64), essay)),
            key as i64 as int == key,
        ensures
            self.inv(),
            forall|k: int|
                self.spec_contains_key(k) <==> (pre.spec_contains_key(k) || k == key),
            self.spec_get(key) == essay,
            forall|k: int|
                k != key && pre.spec_contains_key(k) ==> self.spec_get(k) == pre.spec_get(k),
    {
        assert(self.essays@.len() == pre.essays@.len() + 1);
        assert forall|i: int, j: int|
            0 <= i < j < self.essays@.len() implies (#[trigger] self.essays@[i]).0 < (
        #[trigger] self.essays@[j]).0 by {
            if i < p {
                assert(self.essays@[i] == pre.essays@[i]);
                assert(pre.essays@[i].0 < key);
            }
            if i == p {
                assert(self.essays@[i].0 == key);
            }
            if i > p {
                assert(self.essays@[i] == pre.essays@[i - 1]);
            }
            if j < p {
                assert(self.essays@[j] == pre.essays@[j]);
            }
            if j == p {
                assert(self.essays@[j].0 == key);
            }
            if j > p {
                assert(self.essays@[j] == pre.essays@[j - 1]);
                // the entry after the insertion point is at or past p
                if j - 1 > p {
                    assert(pre.essays@[p].0 < pre.essays@[j - 1].0);
                }
            }
        }
        assert(self.inv());
        assert forall|k: int|
            self.spec_contains_key(k) <==> (pre.spec_contains_key(k) || k == key) by {
            if self.spec_contains_key(k) {
                let i = choose|i: int|
                    0 <= i < self.essays@.len() && (#[trigger] self.essays@[i]).0 == k;
                if i < p {
                    assert(pre.essays@[i].0 == k);
                } else if i > p {
                    assert(pre.essays@[i - 1].0 == k);
                }
            }
            if pre.spec_contains_key(k) {
                let i = choose|i: int|
                    0 <= i < pre.essays@.len() && (#[trigger] pre.essays@[i]).0 == k;
                if i < p {
                    assert(self.essays@[i].0 == k);
                } else {
                    assert(self.essays@[i + 1].0 == k);
                }
            }
            if k == key {
                assert(self.essays@[p].0 == k);
            }
        }
        self.lemma_key_index(key);
        assert(self.essays@[p].0 == key);
        assert(self.spec_key_index(key) == p);
        assert forall|k: int|
            k != key && pre.spec_contains_key(k) implies self.spec_get(k) == pre.spec_get(k) by {
            pre.lemma_key_index(k);
            self.lemma_key_index(k);
            let i = pre.spec_key_index(k);
            if i < p {
                assert(self.essays@[i].0 == k);
                assert(self.spec_key_index(k) == i);
            } else {
                assert(self.essays@[i + 1].0 == k);
                assert(self.spec_key_index(k) == i + 1);
            }
        }
    }

    /// Remove the essay at this instant; absent instants are left alone.
    pub fn del_essay(&mut self, key: i64)
        requires
            old(self).inv(),
        ensures
            final(self).inv(),
            forall|k: int|
                final(self).spec_contains_key(k) <==> (old(self).spec_contains_key(k) && k
                    != key as int),
            forall|k: int|
                k != key as int && old(self).spec_contains_key(k) ==> final(self).spec_get(k)
                    == old(self).spec_get(k),
    {
        let n = self.essays.len();
        let mut p: usize = 0;
        while p < n && self.essays[p].0 != key
            invariant
                n == self.essays@.len(),
                p <= n,
                forall|i: int| 0 <= i < p ==> (#[trigger] self.essays@[i]).0 != key,
            decreases n - p,
        {
            p = p + 1;
        }
        if p < n {
            let ghost pre = *self;
            self.essays.remove(p);
            proof {
                assert forall|k: int|
                    self.spec_contains_key(k) <==> (pre.spec_contains_key(k) && k
                        != key as int) by {
                    if self.spec_contains_key(k) {
                        let i = choose|i: int|
                            0 <= i < self.essays@.len() && (#[trigger] self.essays@[i]).0 == k;
                        if i < p {
                            assert(pre.essays@[i].0 == k);
                        } else {
                            assert(pre.essays@[i + 1].0 == k);
                        }
                        assert(k != key as int);
                    }
                    if pre.spec_contains_key(k) && k != key as int {
                        let i = choose|i: int|
                            0 <= i < pre.essays@.len() && (#[trigger] pre.essays@[i]).0 == k;
                        if i < p {
                            assert(self.essays@[i].0 == k);
                        } else {
                            assert(i != p);
                            assert(self.essays@[i - 1].0 == k);
                        }
                    }
                }
                assert forall|i: int, j: int|
                    0 <= i < j < self.essays@.len() implies (#[trigger] self.essays@[i]).0 < (
                #[trigger] self.essays@[j]).0 by {
                    let i0 = if i < p {
                        i
                    } else {
                        i + 1
                    };
                    let j0 = if j < p {
                        j
                    } else {
                        j + 1
                    };
                    assert(self.essays@[i] == pre.essays@[i0]);
                    assert(self.essays@[j] == pre.essays@[j0]);
                }
                assert forall|k: int|
                    k != key as int && pre.spec_contains_key(k) implies self.spec_get(k)
                    == pre.spec_get(k) by {
                    pre.lemma_key_index(k);
                    self.lemma_key_index(k);
                    let i = pre.spec_key_index(k);
                    if i < p {
                        assert(self.essays@[i].0 == k);
                        assert(self.spec_key_index(k) == i);
                    } else {
                        assert(i != p);
                        assert(self.essays@[i - 1].0 == k);
                        assert(self.spec_key_index(k) == i - 1);
                    }
                }
            }
        }
    }

    /// The entries in key order, oldest instant first.
    pub fn iter(&self) -> (r: &Vec<(i64, Essay)>)
        ensures
            r@ == self.essays@,
    {
        &self.essays
    }
}

} // verus!
