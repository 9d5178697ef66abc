use book_splitter::splitter::artifact_name;
use book_splitter::splitter::plan_split;
use book_splitter::splitter::plan_writes;
use book_splitter::splitter::split_base_ext;
use book_splitter::splitter::split_chapters;
use book_splitter::splitter::SplitError;
use book_splitter::splitter::SplitOutcome;

fn lines(xs: &[&str]) -> Vec<String> {
    xs.iter().map(|s| s.to_string()).collect()
}

#[test]
fn scenario_book_100_with_ceiling_one() {
    // Source `100.txt` holds four chapters separated by delimiter lines;
    // with ceiling 1 exactly `1000.txt` and `1001.txt` are written.
    let src = lines(&[
        "intro text", "###", "chap one text", "###", "chap two text", "###", "chap three text",
    ]);
    let r = plan_split(true, &src, "100.txt", "###", 1, &Vec::new()).unwrap();
    match r {
        SplitOutcome::Ready { dir, writes } => {
            assert_eq!(dir, "100");
            assert_eq!(writes.len(), 2);
            assert_eq!(writes[0].name, "1000.txt");
            assert_eq!(writes[0].content, "intro text");
            assert_eq!(writes[1].name, "1001.txt");
            assert_eq!(writes[1].content, "chap one text");
        },
        _ => panic!("expected a ready plan"),
    }
}

#[test]
fn split_count_is_min_of_segments_and_ceiling() {
    let src = lines(&["a", "###", "b", "###", "c", "###"]);
    // Three delimiter-bounded segments.
    assert_eq!(split_chapters(&src, "###", 5).len(), 3);
    assert_eq!(split_chapters(&src, "###", 2).len(), 3);
    assert_eq!(split_chapters(&src, "###", 1).len(), 2);
    assert_eq!(split_chapters(&src, "###", 0).len(), 1);
    assert_eq!(split_chapters(&src, "###", -1).len(), 0);
}

#[test]
fn split_skips_empty_segments_and_trailing_text() {
    // Consecutive delimiters bound an empty segment: no file for it.
    let src = lines(&["###", "###", "one", "###", "tail with no delimiter after it"]);
    let segs = split_chapters(&src, "###", 9);
    assert_eq!(segs, vec!["one".to_string()]);
}

#[test]
fn split_joins_lines_of_a_segment() {
    let src = lines(&["first line", "second line", "###"]);
    let segs = split_chapters(&src, "###", 9);
    assert_eq!(segs, vec!["first line\nsecond line".to_string()]);
}

#[test]
fn split_requires_exact_delimiter_line() {
    let src = lines(&["a", "### trailing words", "b", "###"]);
    let segs = split_chapters(&src, "###", 9);
    assert_eq!(segs, vec!["a\n### trailing words\nb".to_string()]);
}

#[test]
fn second_run_writes_nothing() {
    let src = lines(&["a", "###", "b", "###"]);
    let segs = split_chapters(&src, "###", 9);
    let first = plan_writes(&segs, "100", "txt", &Vec::new());
    assert_eq!(first.len(), 2);
    let present: Vec<String> = first.iter().map(|w| w.name.clone()).collect();
    let second = plan_writes(&segs, "100", "txt", &present);
    assert_eq!(second.len(), 0);
}

#[test]
fn present_names_are_never_overwritten() {
    let src = lines(&["a", "###", "b", "###"]);
    let segs = split_chapters(&src, "###", 9);
    let present = vec!["1000.txt".to_string()];
    let writes = plan_writes(&segs, "100", "txt", &present);
    assert_eq!(writes.len(), 1);
    assert_eq!(writes[0].name, "1001.txt");
    assert_eq!(writes[0].content, "b");
}

#[test]
fn missing_source_is_skipped_not_an_error() {
    let r = plan_split(false, &Vec::new(), "100.txt", "###", 3, &Vec::new());
    assert!(matches!(r, Ok(SplitOutcome::SkippedMissing)));
}

#[test]
fn name_without_extension_is_an_error() {
    let src = lines(&["a", "###"]);
    let r = plan_split(true, &src, "noext", "###", 3, &Vec::new());
    assert!(matches!(r, Err(SplitError::InvalidName)));
}

#[test]
fn base_and_extension_come_from_the_first_dots() {
    assert_eq!(split_base_ext("100.txt"), Some(("100".to_string(), "txt".to_string())));
    assert_eq!(split_base_ext("a.b.c"), Some(("a".to_string(), "b".to_string())));
    assert_eq!(split_base_ext("noext"), None);
    assert_eq!(split_base_ext(".hidden"), Some(("".to_string(), "hidden".to_string())));
}

#[test]
fn artifact_names_carry_base_index_extension() {
    assert_eq!(artifact_name("100", 0, "txt"), "1000.txt");
    assert_eq!(artifact_name("100", 12, "txt"), "10012.txt");
    assert_eq!(artifact_name("b", 3, "md"), "b3.md");
}
