use book_splitter::book::default_true;
use book_splitter::book::split_request_of;
use book_splitter::book::Book;
use book_splitter::config::FileProcessConfig;
use book_splitter::drain::drain_cycle;
use book_splitter::drain::drain_entry_action;
use book_splitter::drain::DrainAction;
use book_splitter::inflight::InflightSet;
use book_splitter::reconcile::pending_file_names;
use book_splitter::reconcile::reconcile_action;
use book_splitter::reconcile::ReconcileAction;
use book_splitter::retry::retry_decision;
use book_splitter::retry::RetryStep;

fn make_book(source_url: Option<&str>, start_count: Option<i32>) -> Book {
    Book {
        id: Some(1),
        uuid: "u-1".to_string(),
        name: "a book".to_string(),
        avatar: None,
        author: None,
        keywords: None,
        scores: 0,
        chapter_count: None,
        summary: None,
        online: false,
        is_complete: false,
        is_new: default_true(),
        is_recommend: false,
        category_name: None,
        words_count: None,
        chapter_price: None,
        currency: None,
        display_book_name: None,
        categories: None,
        pop_count: 0,
        created_at: 0,
        updated_at: 0,
        deleted_at: 0,
        category_id: 0,
        source_url: source_url.map(|s| s.to_string()),
        start_count,
        is_fav: false,
        chapter: None,
    }
}

#[test]
fn split_request_takes_last_segment_and_ceiling() {
    let book = make_book(Some("https://cdn/books/100.txt"), Some(3));
    let req = split_request_of(&book).unwrap();
    assert_eq!(req.file_name, "100.txt");
    assert_eq!(req.stop, 3);
}

#[test]
fn split_request_defaults_the_ceiling_to_zero() {
    let book = make_book(Some("100.txt"), None);
    let req = split_request_of(&book).unwrap();
    assert_eq!(req.file_name, "100.txt");
    assert_eq!(req.stop, 0);
}

#[test]
fn no_source_locator_no_split_request() {
    let book = make_book(None, Some(3));
    assert!(split_request_of(&book).is_none());
}

#[test]
fn reconcile_skips_absent_and_sourceless_records() {
    assert!(matches!(reconcile_action(None), ReconcileAction::SkipRecord));
    let sourceless = make_book(None, None);
    assert!(matches!(reconcile_action(Some(&sourceless)), ReconcileAction::SkipRecord));
    let book = make_book(Some("dir/7.txt"), Some(2));
    match reconcile_action(Some(&book)) {
        ReconcileAction::RunSplit(req) => {
            assert_eq!(req.file_name, "7.txt");
            assert_eq!(req.stop, 2);
        },
        _ => panic!("expected a split request"),
    }
}

#[test]
fn drain_splits_only_known_names_with_files() {
    assert_eq!(drain_entry_action(None, true), DrainAction::SkipUnknown);
    let book = make_book(Some("42.txt"), Some(1));
    assert_eq!(drain_entry_action(Some(&book), false), DrainAction::SkipMissing);
    assert_eq!(drain_entry_action(Some(&book), true), DrainAction::RunSplit { stop: 1 });
}

#[test]
fn queue_entries_leave_only_on_success() {
    let entries = vec!["a.txt".to_string(), "b.txt".to_string(), "c.txt".to_string()];
    let succeeded = vec![true, false, true];
    assert_eq!(drain_cycle(&entries, &succeeded), vec!["b.txt".to_string()]);
}

#[test]
fn failing_entry_stays_across_cycles_without_blocking_others() {
    let entries = vec!["bad.txt".to_string(), "good.txt".to_string()];
    // First cycle: `bad.txt` fails, `good.txt` succeeds and is removed.
    let after_first = drain_cycle(&entries, &vec![false, true]);
    assert_eq!(after_first, vec!["bad.txt".to_string()]);
    // Second cycle: it fails again and is still queued.
    let after_second = drain_cycle(&after_first, &vec![false]);
    assert_eq!(after_second, vec!["bad.txt".to_string()]);
}

#[test]
fn retry_decisions() {
    assert_eq!(retry_decision(true, 0, 3), RetryStep::Done);
    assert_eq!(retry_decision(true, 3, 3), RetryStep::Done);
    assert_eq!(retry_decision(false, 1, 3), RetryStep::RetryAfterDelay);
    assert_eq!(retry_decision(false, 3, 3), RetryStep::RetryAfterDelay);
    assert_eq!(retry_decision(false, 4, 3), RetryStep::GiveUp);
    assert_eq!(retry_decision(false, 1, 0), RetryStep::GiveUp);
}

#[test]
fn pending_names_keep_files_only() {
    let entries = vec![
        (true, "a.txt".to_string()),
        (false, "subdir".to_string()),
        (true, "b.txt".to_string()),
    ];
    assert_eq!(
        pending_file_names(&entries),
        vec!["a.txt".to_string(), "b.txt".to_string()]
    );
}

#[test]
fn inflight_tracking_bounds_and_dedups() {
    let mut inflight = InflightSet::new(2);
    assert_eq!(inflight.len(), 0);
    assert!(inflight.try_begin(1));
    // The same book cannot start a second split while one is in flight.
    assert!(!inflight.try_begin(1));
    assert!(inflight.try_begin(2));
    // The ceiling is reached: a third book must wait.
    assert!(!inflight.try_begin(3));
    inflight.finish(1);
    assert!(inflight.try_begin(3));
    assert_eq!(inflight.len(), 2);
    inflight.finish(9);
    assert_eq!(inflight.len(), 2);
}

#[test]
fn configured_paths_resolve_against_the_working_directory() {
    let config = FileProcessConfig {
        input_dir: "data/in".to_string(),
        output_dir: "/var/out".to_string(),
        supported_ext: vec!["txt".to_string()],
    };
    assert_eq!(config.input_path("/srv/app"), "/srv/app/data/in");
    assert_eq!(config.output_path("/srv/app"), "/var/out");
}
