use bodhilibrs::splitter::{ConfigError, RecursiveCharacterTextSplitter};

fn splitter(
    separators: Vec<&str>,
    keep_separator: bool,
    is_separator_regex: bool,
    chunk_size: usize,
    chunk_overlap: usize,
    strip_whitespace: bool,
) -> RecursiveCharacterTextSplitter {
    RecursiveCharacterTextSplitter {
        separators: separators.into_iter().map(|s| s.to_string()).collect(),
        keep_separator,
        is_separator_regex,
        _strip_whitespace: strip_whitespace,
        _chunk_size: chunk_size,
        _chunk_overlap: chunk_overlap,
    }
}

#[test]
fn scenario_character_window() {
    let s = splitter(vec![""], true, false, 3, 1, false);
    let chunks = s.split_text("abcdef", s.separators.clone());
    assert_eq!(chunks, vec!["abc", "cde", "ef"]);
}

#[test]
fn scenario_word_hierarchy() {
    let s = splitter(vec!["\n\n", "\n", " ", ""], true, false, 5, 0, true);
    let chunks = s.split_text("ab cd ef", s.separators.clone());
    assert_eq!(chunks, vec!["ab cd", "ef"]);
}

#[test]
fn scenario_batch() {
    let s = splitter(vec![""], true, false, 3, 1, false);
    let docs = vec![
        ("d1".to_string(), "abcdef".to_string()),
        ("d2".to_string(), "xyz".to_string()),
    ];
    let out = s.split_many(docs).expect("valid config");
    assert_eq!(out.len(), 2);
    let d1 = out.iter().find(|(id, _)| id == "d1").expect("d1 present");
    let d2 = out.iter().find(|(id, _)| id == "d2").expect("d2 present");
    assert_eq!(d1.1, vec!["abc", "cde", "ef"]);
    assert_eq!(d2.1, vec!["xyz"]);
}

#[test]
fn repeated_calls_agree() {
    let s = splitter(vec![" ", ""], true, false, 5, 2, false);
    let a = s.split_text("one two three four", s.separators.clone());
    let b = s.split_text("one two three four", s.separators.clone());
    assert_eq!(a, b);
}

#[test]
fn default_separator_hierarchy() {
    let s = RecursiveCharacterTextSplitter::new(None, true, false, 10, 0, false);
    assert_eq!(s.separators, vec!["\n\n", "\n", " ", ""]);
    assert_eq!(s._chunk_size, 10);
    assert_eq!(s._chunk_overlap, 0);
    assert!(s.keep_separator);
    assert!(!s.is_separator_regex);
    assert!(!s._strip_whitespace);
}

#[test]
fn explicit_separators_kept() {
    let s = RecursiveCharacterTextSplitter::new(
        Some(vec!["|".to_string(), "".to_string()]),
        false,
        false,
        4,
        0,
        false,
    );
    assert_eq!(s.separators, vec!["|", ""]);
}

#[test]
fn empty_separator_list_is_rejected() {
    let s = splitter(vec![], true, false, 3, 1, false);
    assert_eq!(s.split("abc"), Err(ConfigError::EmptySeparators));
}

#[test]
fn invalid_regex_is_rejected_with_its_position() {
    let s = splitter(vec!["[0-9]+", "(", ""], true, true, 3, 1, false);
    assert_eq!(s.split("abc"), Err(ConfigError::InvalidRegex(1)));
}

#[test]
fn batch_shares_the_config_error() {
    let s = splitter(vec![], true, false, 3, 1, false);
    let docs = vec![("d".to_string(), "abc".to_string())];
    assert_eq!(s.split_many(docs), Err(ConfigError::EmptySeparators));
}

#[test]
fn regex_separators_split_on_matches() {
    let s = splitter(vec!["[0-9]+", ""], false, true, 2, 0, false);
    let chunks = s.split("ab12cd").expect("valid config");
    assert_eq!(chunks, vec!["ab", "cd"]);
}

#[test]
fn literal_dot_is_not_a_wildcard() {
    let s = splitter(vec![".", ""], false, false, 10, 0, false);
    let chunks = s.split("a.b").expect("valid config");
    assert_eq!(chunks, vec!["a.b"]);
}

#[test]
fn separator_kept_when_asked() {
    let s = splitter(vec![" ", ""], true, false, 7, 0, false);
    let chunks = s.split("hello world foo").expect("valid config");
    assert_eq!(chunks, vec!["hello ", "world ", "foo"]);
    assert_eq!(chunks.concat(), "hello world foo");
}

#[test]
fn separator_dropped_and_rejoined_otherwise() {
    let s = splitter(vec![" ", ""], false, false, 1, 0, false);
    let chunks = s.split("a b c").expect("valid config");
    assert_eq!(chunks, vec!["a", "b", "c"]);
}

#[test]
fn whitespace_stripped_from_chunks() {
    let s = splitter(vec![""], true, false, 10, 0, true);
    let chunks = s.split("  a  ").expect("valid config");
    assert_eq!(chunks, vec!["a"]);
}

#[test]
fn lengths_count_characters_not_bytes() {
    let s = splitter(vec![""], true, false, 2, 0, false);
    let chunks = s.split("h\u{e9}\u{e9}").expect("valid config");
    assert_eq!(chunks, vec!["h\u{e9}", "\u{e9}"]);
}

#[test]
fn empty_text_yields_no_chunks() {
    let s = splitter(vec![" ", ""], true, false, 5, 0, false);
    let chunks = s.split("").expect("valid config");
    assert_eq!(chunks, Vec::<String>::new());
}

#[test]
fn empty_batch_yields_no_results() {
    let s = splitter(vec![""], true, false, 3, 0, false);
    let out = s.split_many(vec![]).expect("valid config");
    assert_eq!(out.len(), 0);
}

#[test]
fn unsplittable_segment_passes_through_oversize() {
    // no trailing empty separator: the segment cannot be split further and
    // is emitted whole even though it is longer than the chunk size
    let s = splitter(vec!["x"], true, false, 2, 0, false);
    let chunks = s.split("aaaa").expect("valid config");
    assert_eq!(chunks, vec!["aaaa"]);
}

#[test]
fn overlap_carries_window_characters() {
    let s = splitter(vec![""], true, false, 4, 2, false);
    let chunks = s.split("abcdefgh").expect("valid config");
    assert_eq!(chunks, vec!["abcd", "cdef", "efgh"]);
    for pair in chunks.windows(2) {
        let prev: Vec<char> = pair[0].chars().collect();
        let next: Vec<char> = pair[1].chars().collect();
        // the carried window: the next chunk starts with at most two
        // characters taken from the end of the previous chunk
        assert_eq!(&prev[prev.len() - 2..], &next[..2]);
    }
}

#[test]
fn paragraphs_preferred_over_lines() {
    let s = splitter(vec!["\n\n", "\n", " ", ""], true, false, 100, 0, true);
    let chunks = s.split("first paragraph\n\nsecond paragraph").expect("valid config");
    assert_eq!(chunks, vec!["first paragraph\n\nsecond paragraph"]);
    let small = splitter(vec!["\n\n", "\n", " ", ""], true, false, 16, 0, true);
    let chunks = small.split("first paragraph\n\nsecond paragraph").expect("valid config");
    assert_eq!(chunks, vec!["first paragraph", "second paragraph"]);
}

#[test]
fn regex_mode_keeps_coverage_with_kept_separators() {
    let s = splitter(vec!["\\s+", ""], true, true, 4, 0, false);
    let chunks = s.split("a  b\tc").expect("valid config");
    assert_eq!(chunks.concat(), "a  b\tc");
}

#[test]
fn oversized_literal_separator_is_rejected_not_panicking() {
    // the engine enforces a compiled-size limit, so even an escaped literal
    // can fail to compile; the configuration check must surface that as an
    // error instead of letting the splitter hit it later
    let huge = "a".repeat(16 * 1024 * 1024);
    let s = splitter(vec![huge.as_str(), ""], true, false, 3, 1, false);
    assert_eq!(s.split("abc"), Err(ConfigError::InvalidRegex(0)));
}
