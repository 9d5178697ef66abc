//! Keys and replies of the shared store. The store is a keyed blob, set and
//! pub/sub substrate; this module builds and reads its key strings and checks
//! the frame around fetched documents, so that the unverified store round
//! trips carry only plain strings in and out.

use vstd::prelude::*;
use crate::text::dec_str;
use crate::text::dec_val;
use crate::text::has_substring;
use crate::text::is_dec_i32;
use crate::text::contains_substr;
use crate::text::parse_i32;
use crate::text::render_i32;
use crate::text::lemma_render_parse_round_trip;

verus! {

/// Catalog key for a book id: `book:<id>`.
pub open spec fn book_key_spec(id: int) -> Seq<char> {
    "book:"@ + dec_str(id)
}

/// Secondary-index key mapping a uuid to an id: `book:uuid:<uuid>`.
pub open spec fn uuid_key_spec(uuid: Seq<char>) -> Seq<char> {
    "book:uuid:"@ + uuid
}

/// Secondary-index key mapping a source filename to an id:
/// `book:source:<filename>`.
pub open spec fn source_key_spec(name: Seq<char>) -> Seq<char> {
    "book:source:"@ + name
}

/// Catalog key for a book id.
pub fn book_key(id: i32) -> (r: String)
    ensures
        r@ == book_key_spec(id as int),
{
    let mut out = String::from_str("book:");
    let digits = render_i32(id);
    out.append(digits.as_str());
    out
}

/// Secondary-index key for a uuid.
pub fn uuid_key(uuid: &str) -> (r: String)
    ensures
        r@ == uuid_key_spec(uuid@),
{
    let mut out = String::from_str("book:uuid:");
    out.append(uuid);
    out
}

/// Secondary-index key for a source filename.
pub fn source_key(name: &str) -> (r: String)
    ensures
        r@ == source_key_spec(name@),
{
    let mut out = String::from_str("book:source:");
    out.append(name);
    out
}

/// Key of the deduplicating set of pending source filenames.
pub fn queue_key() -> (r: &'static str)
    ensures
        r@ == "queue:book:cdn"@,
{
    "queue:book:cdn"
}

/// Name of the pub/sub channel that delivers split requests.
pub fn trigger_channel() -> (r: &'static str)
    ensures
        r@ == "channel:psb:book:task"@,
{
    "channel:psb:book:task"
}

/// The id of a catalog key of the form `book:<id>`: the part after the
/// prefix read as a nonnegative decimal. Keys of the secondary indexes
/// (`book:uuid:...`, `book:source:...`) have no such id.
pub open spec fn book_key_id(key: Seq<char>) -> Option<int> {
    let p = "book:"@;
    if p.len() <= key.len() && key.subrange(0, p.len() as int) == p {
        let rest = key.subrange(p.len() as int, key.len() as int);
        if is_dec_i32(rest) && dec_val(rest) >= 0 {
            Some(dec_val(rest))
        } else {
            None
        }
    } else {
        None
    }
}

/// Reads the numeric id off a catalog key, skipping keys that carry none.
pub fn parse_book_key(key: &str) -> (r: Option<i32>)
    ensures
        match r {
            Some(id) => book_key_id(key@) == Some(id as int),
            None => book_key_id(key@) is None,
        },
{
    let prefix = "book:";
    let plen = prefix.unicode_len();
    let klen = key.unicode_len();
    if plen > klen {
        return None;
    }
    let head = key.substring_char(0, plen);
    if !crate::text::str_eq(head, prefix) {
        return None;
    }
    let rest = key.substring_char(plen, klen);
    match parse_i32(rest) {
        Some(id) => if id >= 0 {
            Some(id)
        } else {
            None
        },
        None => None,
    }
}

/// A key built from a nonnegative id resolves back to that id.
pub proof fn lemma_book_key_round_trip(id: i32)
    requires
        id >= 0,
    ensures
        book_key_id(book_key_spec(id as int)) == Some(id as int),
{
    reveal_strlit("book:");
    lemma_render_parse_round_trip(id);
    let p = "book:"@;
    let key = book_key_spec(id as int);
    assert(key.subrange(0, p.len() as int) =~= p);
    assert(key.subrange(p.len() as int, key.len() as int) =~= dec_str(id as int));
}

/// A source name with the default extension appended when it is absent.
pub open spec fn normalized_name(name: Seq<char>) -> Seq<char> {
    if has_substring(name, ".txt"@) {
        name
    } else {
        name + ".txt"@
    }
}

/// Normalizes a bare source name before a catalog lookup: the stored mapping
/// keys carry the file extension, so one is appended when absent.
pub fn normalize_source_name(name: &str) -> (r: String)
    ensures
        r@ == normalized_name(name@),
{
    if contains_substr(name, ".txt") {
        String::from_str(name)
    } else {
        String::from_str(name).concat(".txt")
    }
}

/// A stored document that cannot be read, as distinct from one that is
/// absent.
#[derive(PartialEq, Eq, Structural, Clone, Copy, Debug)]
pub enum DocError {
    Malformed,
}

/// The reply frame around a fetched document: the store answers a document
/// fetch with a one-element array `[ <document> ]`, or an empty array `[]`
/// when the key holds none.
pub open spec fn framed(s: Seq<char>) -> bool {
    s.len() >= 2 && s[0] == '[' && s[s.len() - 1] == ']'
}

/// The document inside a reply frame.
pub open spec fn frame_inner(s: Seq<char>) -> Seq<char> {
    s.subrange(1, s.len() - 1)
}

/// Reads one document out of a store reply. An absent reply or an empty
/// frame is "not found"; a reply without the frame is malformed, which is
/// reported as an error distinct from "not found".
pub fn doc_of_reply(reply: Option<&str>) -> (r: Result<Option<String>, DocError>)
    ensures
        match reply {
            None => r == Ok::<Option<String>, DocError>(None),
            Some(s) => {
                if framed(s@) {
                    if frame_inner(s@).len() > 0 {
                        &&& r is Ok
                        &&& r->Ok_0 is Some
                        &&& r->Ok_0->Some_0@ == frame_inner(s@)
                    } else {
                        r == Ok::<Option<String>, DocError>(None)
                    }
                } else {
                    r == Err::<Option<String>, DocError>(DocError::Malformed)
                }
            },
        },
{
    match reply {
        None => Ok(None),
        Some(s) => {
            let len = s.unicode_len();
            if len >= 2 && s.get_char(0) == '[' && s.get_char(len - 1) == ']' {
                if len == 2 {
                    Ok(None)
                } else {
                    Ok(Some(String::from_str(s.substring_char(1, len - 1))))
                }
            } else {
                Err(DocError::Malformed)
            }
        },
    }
}

} // verus!
