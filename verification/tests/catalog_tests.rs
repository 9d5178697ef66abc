use book_splitter::catalog::book_key;
use book_splitter::catalog::doc_of_reply;
use book_splitter::catalog::normalize_source_name;
use book_splitter::catalog::parse_book_key;
use book_splitter::catalog::queue_key;
use book_splitter::catalog::source_key;
use book_splitter::catalog::trigger_channel;
use book_splitter::catalog::uuid_key;
use book_splitter::catalog::DocError;

#[test]
fn keys_follow_the_store_namespace() {
    assert_eq!(book_key(42), "book:42");
    assert_eq!(book_key(0), "book:0");
    assert_eq!(uuid_key("abc-def"), "book:uuid:abc-def");
    assert_eq!(source_key("42.txt"), "book:source:42.txt");
    assert_eq!(queue_key(), "queue:book:cdn");
    assert_eq!(trigger_channel(), "channel:psb:book:task");
}

#[test]
fn parse_book_key_reads_the_id() {
    assert_eq!(parse_book_key("book:12"), Some(12));
    assert_eq!(parse_book_key("book:0"), Some(0));
    assert_eq!(parse_book_key("book:uuid:7"), None);
    assert_eq!(parse_book_key("book:source:42.txt"), None);
    assert_eq!(parse_book_key("queue:book:cdn"), None);
    assert_eq!(parse_book_key("book:"), None);
    assert_eq!(parse_book_key("book:-3"), None);
    assert_eq!(parse_book_key("12"), None);
}

#[test]
fn book_key_round_trips_through_parse() {
    for id in [0, 1, 7, 120, i32::MAX] {
        assert_eq!(parse_book_key(book_key(id).as_str()), Some(id));
    }
}

#[test]
fn scenario_bare_name_resolves_like_stored_mapping() {
    // A lookup of `42` must reach the mapping stored under `42.txt`.
    assert_eq!(normalize_source_name("42"), "42.txt");
    assert_eq!(source_key(normalize_source_name("42").as_str()), "book:source:42.txt");
}

#[test]
fn normalize_keeps_names_with_the_extension() {
    assert_eq!(normalize_source_name("42.txt"), "42.txt");
    assert_eq!(normalize_source_name("x.txt.bak"), "x.txt.bak");
    assert_eq!(normalize_source_name(""), ".txt");
}

#[test]
fn doc_of_reply_reads_the_frame() {
    assert_eq!(doc_of_reply(None), Ok(None));
    assert_eq!(doc_of_reply(Some("[]")), Ok(None));
    assert_eq!(
        doc_of_reply(Some("[{\"id\":1}]")),
        Ok(Some("{\"id\":1}".to_string()))
    );
}

#[test]
fn doc_without_frame_is_malformed_not_absent() {
    assert_eq!(doc_of_reply(Some("{\"id\":1}")), Err(DocError::Malformed));
    assert_eq!(doc_of_reply(Some("")), Err(DocError::Malformed));
    assert_eq!(doc_of_reply(Some("abc")), Err(DocError::Malformed));
}
