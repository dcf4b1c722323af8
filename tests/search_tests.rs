use fenris::search::{
    fast_line_ranges, perform_fast_search, perform_search, search, MatchRange, SearchError,
    SearchMode, MATCH_CAP,
};

fn ranges(v: &[(usize, usize)]) -> Vec<MatchRange> {
    v.iter().map(|&(start, end)| MatchRange { start, end }).collect()
}

#[test]
fn empty_query_matches_nothing_in_both_modes() {
    let text = "foo\nbar".to_string();
    for query in ["", "   ", "\t\n"] {
        let r = perform_search(text.clone(), query.to_string()).unwrap();
        assert_eq!(r.count, 0);
        assert!(r.matches.is_empty());
        assert_eq!(r.duration_ms, 0);
        let f = perform_fast_search(text.clone(), query.to_string()).unwrap();
        assert_eq!(f.count, 0);
        assert!(f.matches.is_empty());
        assert_eq!(f.duration_ms, 0);
    }
}

#[test]
fn empty_query_on_empty_text() {
    let r = search("", "", SearchMode::Regex).unwrap();
    assert_eq!(r.count, 0);
    assert!(r.matches.is_empty());
}

#[test]
fn fast_search_overlapping_occurrences_count_once() {
    let r = perform_fast_search("aaa".to_string(), "aa".to_string()).unwrap();
    assert_eq!(r.count, 1);
    assert_eq!(r.matches.len(), 1);
    assert_eq!(r.matches[0].line_number, 1);
    assert_eq!(r.matches[0].line, "aaa");
    assert_eq!(r.matches[0].matches, ranges(&[(0, 2)]));
}

#[test]
fn regex_invalid_pattern_is_an_error() {
    for text in ["", "abc", "[\n]"] {
        let r = search(text, "[", SearchMode::Regex);
        assert!(matches!(r, Err(SearchError::InvalidPattern(_))));
        let p = perform_search(text.to_string(), "[".to_string());
        match p {
            Err(m) => assert!(m.starts_with("Invalid regex pattern: ")),
            Ok(_) => panic!("an invalid pattern was accepted"),
        }
    }
}

#[test]
fn invalid_pattern_message_carries_the_diagnostic() {
    let e = SearchError::InvalidPattern("unclosed class".to_string());
    assert_eq!(e.message(), "Invalid regex pattern: unclosed class");
}

#[test]
fn match_cap_stops_the_scan() {
    let mut text = String::new();
    for _ in 0..20000 {
        text.push_str("needle\n");
    }
    text.push_str("sentinel needle\n");
    let f = perform_fast_search(text.clone(), "needle".to_string()).unwrap();
    assert_eq!(f.count, MATCH_CAP + 1);
    assert_eq!(f.matches.len(), MATCH_CAP + 1);
    assert!(f.matches.iter().all(|m| m.line != "sentinel needle"));
    let r = perform_search(text, "needle".to_string()).unwrap();
    assert!(r.count > MATCH_CAP && r.count <= MATCH_CAP + 1);
    assert_eq!(r.matches.len(), r.count);
    assert!(r.matches.iter().all(|m| m.line != "sentinel needle"));
}

#[test]
fn fast_search_cap_counts_inside_a_line() {
    let text = "x".repeat(MATCH_CAP + 50);
    let f = perform_fast_search(text, "x".to_string()).unwrap();
    assert_eq!(f.count, MATCH_CAP + 1);
    assert_eq!(f.matches.len(), 1);
    assert_eq!(f.matches[0].matches.len(), MATCH_CAP + 1);
}

#[test]
fn regex_cap_counts_whole_lines() {
    let mut text = String::new();
    for _ in 0..3 {
        text.push_str(&"y".repeat(6000));
        text.push('\n');
    }
    let r = perform_search(text, "y".to_string()).unwrap();
    assert_eq!(r.count, 12000);
    assert_eq!(r.matches.len(), 2);
}

#[test]
fn multi_line_targeting() {
    let r = perform_fast_search("foo\nbar foo\nbaz".to_string(), "foo".to_string()).unwrap();
    assert_eq!(r.count, 2);
    assert_eq!(r.matches.len(), 2);
    assert_eq!(r.matches[0].line_number, 1);
    assert_eq!(r.matches[0].line, "foo");
    assert_eq!(r.matches[0].matches, ranges(&[(0, 3)]));
    assert_eq!(r.matches[1].line_number, 2);
    assert_eq!(r.matches[1].line, "bar foo");
    assert_eq!(r.matches[1].matches, ranges(&[(4, 7)]));
}

#[test]
fn fast_mode_ignores_case_and_regex_mode_does_not() {
    let f = perform_fast_search("a foo line".to_string(), "FOO".to_string()).unwrap();
    assert_eq!(f.count, 1);
    assert_eq!(f.matches[0].matches, ranges(&[(2, 5)]));
    let r = perform_search("a foo line".to_string(), "FOO".to_string()).unwrap();
    assert_eq!(r.count, 0);
    assert!(r.matches.is_empty());
}

#[test]
fn regex_finds_every_match_per_line() {
    let r = search("a1b22\n\nc333", "[0-9]+", SearchMode::Regex).unwrap();
    assert_eq!(r.count, 3);
    assert_eq!(r.matches.len(), 2);
    assert_eq!(r.matches[0].line_number, 1);
    assert_eq!(r.matches[0].matches, ranges(&[(1, 2), (3, 5)]));
    assert_eq!(r.matches[1].line_number, 3);
    assert_eq!(r.matches[1].line, "c333");
    assert_eq!(r.matches[1].matches, ranges(&[(1, 4)]));
}

#[test]
fn regex_empty_matches_do_not_overlap() {
    let r = search("ab", "x*", SearchMode::Regex).unwrap();
    assert_eq!(r.count, 3);
    assert_eq!(r.matches[0].matches, ranges(&[(0, 0), (1, 1), (2, 2)]));
}

#[test]
fn lines_end_at_crlf_and_final_newline_adds_no_line() {
    let r = search("foo\r\nfoo\n", "foo", SearchMode::FastSubstring).unwrap();
    assert_eq!(r.matches.len(), 2);
    assert_eq!(r.matches[0].line, "foo");
    assert_eq!(r.matches[1].line, "foo");
    let e = search("x\n\nx", "x", SearchMode::FastSubstring).unwrap();
    assert_eq!(e.matches[1].line_number, 3);
}

#[test]
fn offsets_are_bytes_of_the_line() {
    let r = search("é foo", "foo", SearchMode::FastSubstring).unwrap();
    assert_eq!(r.matches[0].matches, ranges(&[(3, 6)]));
    let g = search("é foo", "fo+", SearchMode::Regex).unwrap();
    assert_eq!(g.matches[0].matches, ranges(&[(3, 6)]));
}

#[test]
fn fast_line_ranges_from_lowercase_forms() {
    let v = fast_line_ranges("abcabc", "bc", 2, 10);
    assert_eq!(v, ranges(&[(1, 3), (4, 6)]));
    let limited = fast_line_ranges("abcabc", "bc", 2, 1);
    assert_eq!(limited, ranges(&[(1, 3)]));
    let longer = fast_line_ranges("aXa", "a", 3, 10);
    assert_eq!(longer, ranges(&[(0, 3), (2, 5)]));
    assert!(fast_line_ranges("abc", "", 0, 10).is_empty());
}

#[test]
fn fast_search_lowercases_the_line() {
    let r = search("HELLO World", "world", SearchMode::FastSubstring).unwrap();
    assert_eq!(r.count, 1);
    assert_eq!(r.matches[0].matches, ranges(&[(6, 11)]));
}

#[test]
fn no_match_gives_empty_result() {
    let r = search("abc\ndef", "zzz", SearchMode::FastSubstring).unwrap();
    assert_eq!(r.count, 0);
    assert!(r.matches.is_empty());
}
