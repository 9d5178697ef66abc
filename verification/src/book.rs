//! The catalog data model: the book record kept in the shared store, and the
//! derivation of a split request from a record.

use vstd::prelude::*;
use crate::text::tail_after_last;
use crate::text::tail_after_last_char;

verus! {

/// A catalog entry describing one source document. The splitting pipeline
/// reads only `source_url` and `start_count`; the other fields are carried
/// for the external ingestion process that owns the records.
pub struct Book {
    pub id: Option<i32>,
    pub uuid: String,
    pub name: String,
    pub avatar: Option<String>,
    pub author: Option<String>,
    pub keywords: Option<Vec<String>>,
    pub scores: i32,
    pub chapter_count: Option<i32>,
    pub summary: Option<String>,
    pub online: bool,
    pub is_complete: bool,
    pub is_new: bool,
    pub is_recommend: bool,
    pub category_name: Option<String>,
    pub words_count: Option<i64>,
    pub chapter_price: Option<i32>,
    pub currency: Option<String>,
    pub display_book_name: Option<String>,
    pub categories: Option<Vec<u32>>,
    pub pop_count: i32,
    pub created_at: i64,
    pub updated_at: i64,
    pub deleted_at: i64,
    pub category_id: i32,
    pub source_url: Option<String>,
    pub start_count: Option<i32>,
    pub is_fav: bool,
    pub chapter: Option<Chapter>,
}

/// The chapter listing a record may carry.
pub struct Chapter {
    pub id: String,
    pub book_id: i32,
    pub book_name: Option<String>,
    pub chapter_list: Vec<ChapterItem>,
}

/// One entry of a chapter listing.
pub struct ChapterItem {
    pub id: String,
    pub chapter_id: i32,
    pub chapter_name: String,
    pub content: Option<String>,
    pub require_vip: bool,
    pub price: i32,
}

/// Default for record flags that start out set.
pub fn default_true() -> (r: bool)
    ensures
        r,
{
    true
}

/// What one split invocation needs from a catalog record: the bare source
/// filename and the chapter-count ceiling.
pub struct SplitRequest {
    pub file_name: String,
    pub stop: i32,
}

/// The chapter-count ceiling of a record: its `start_count`, defaulting to 0.
pub open spec fn ceiling_of(book: &Book) -> int {
    match book.start_count {
        Some(s) => s as int,
        None => 0,
    }
}

/// A record asks for a split iff it has a source locator. The bare filename
/// is the locator's last path segment; the ceiling defaults to 0.
pub fn split_request_of(book: &Book) -> (r: Option<SplitRequest>)
    ensures
        match r {
            Some(req) => {
                &&& book.source_url is Some
                &&& req.file_name@ == tail_after_last(book.source_url->Some_0@, '/')
                &&& req.stop == ceiling_of(book)
            },
            None => book.source_url is None,
        },
{
    match &book.source_url {
        Some(url) => {
            let file_name = tail_after_last_char(url.as_str(), '/');
            let stop = match book.start_count {
                Some(s) => s,
                None => 0,
            };
            Some(SplitRequest { file_name, stop })
        },
        None => None,
    }
}

} // verus!
