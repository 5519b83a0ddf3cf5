//! The source-document data types: the metadata block of a document and the
//! full essay carried to the store.

use vstd::prelude::*;

verus! {

/// The structured metadata embedded at the head of a source document:
/// the stable essay identifier, the display fields, and the declared
/// category and tag names, in their source order.
#[derive(Debug, Clone)]
pub struct EssayInfo {
    pub eid: String,
    pub title: String,
    pub date: String,
    pub categories: Vec<String>,
    pub tags: Vec<String>,
    pub brief: String,
}

impl EssayInfo {
    pub fn new(
        eid: String,
        title: String,
        date: String,
        categories: Vec<String>,
        tags: Vec<String>,
        brief: String,
    ) -> (r: Self)
        ensures
            r.eid == eid,
            r.title == title,
            r.date == date,
            r.categories == categories,
            r.tags == tags,
            r.brief == brief,
    {
        Self { eid, title, date, categories, tags, brief }
    }
}

/// One essay as the store holds it: the metadata fields together with the
/// rendered body.
#[derive(Debug, Clone)]
pub struct Essay {
    pub eid: String,
    pub title: String,
    pub date: String,
    pub categories: Vec<String>,
    pub tags: Vec<String>,
    pub brief: String,
    pub content: String,
}

impl Essay {
    pub fn new(
        eid: String,
        title: String,
        date: String,
        categories: Vec<String>,
        tags: Vec<String>,
        brief: String,
        content: String,
    ) -> (r: Self)
        ensures
            r.eid == eid,
            r.title == title,
            r.date == date,
            r.categories == categories,
            r.tags == tags,
            r.brief == brief,
            r.content == content,
    {
        Self { eid, title, date, categories, tags, brief, content }
    }
}

impl Essay {
    /// An essay whose metadata is the given block and whose rendered body is
    /// still empty.
    pub fn from(essay_info: EssayInfo) -> (r: Self)
        ensures
            r.eid == essay_info.eid,
            r.title == essay_info.title,
            r.date == essay_info.date,
            r.categories == essay_info.categories,
            r.tags == essay_info.tags,
            r.brief == essay_info.brief,
            r.content@ == Seq::<char>::empty(),
    {
        Self {
            eid: essay_info.eid,
            title: essay_info.title,
            date: essay_info.date,
            categories: essay_info.categories,
            tags: essay_info.tags,
            brief: essay_info.brief,
            content: String::new(),
        }
    }
}

} // verus!
