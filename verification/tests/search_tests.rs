use minigrep::{search, search_case_insensitive};

#[test]
fn one_result() {
    let query = "duct";
    let contents = "Rust:\nsafe, fast, productive.\nPick three.";
    assert_eq!(search(query, contents), vec!["safe, fast, productive."]);
}

#[test]
fn case_insensitive_two_results() {
    let query = "rUsT";
    let contents = "Rust:\nsafe, fast, productive.\nPick three.\nTrust me.";
    assert_eq!(
        search_case_insensitive(query, contents),
        vec!["Rust:", "Trust me."]
    );
}

#[test]
fn empty_document_matches_nothing() {
    let empty: Vec<&str> = Vec::new();
    assert_eq!(search("x", ""), empty);
    assert_eq!(search_case_insensitive("x", ""), empty);
}

#[test]
fn empty_query_matches_single_line() {
    assert_eq!(search("", "abc"), vec!["abc"]);
    assert_eq!(search_case_insensitive("", "abc"), vec!["abc"]);
}

#[test]
fn empty_query_matches_every_line() {
    let contents = "one\ntwo\nthree";
    assert_eq!(search("", contents), vec!["one", "two", "three"]);
    assert_eq!(
        search_case_insensitive("", contents),
        vec!["one", "two", "three"]
    );
}

#[test]
fn absent_query_yields_empty_result() {
    let empty: Vec<&str> = Vec::new();
    let contents = "Rust:\nsafe, fast, productive.\nPick three.";
    assert_eq!(search("cobol", contents), empty);
    assert_eq!(search_case_insensitive("cobol", contents), empty);
}

#[test]
fn query_longer_than_document_matches_nothing() {
    let empty: Vec<&str> = Vec::new();
    assert_eq!(search("abcdef", "abc"), empty);
}

#[test]
fn results_keep_document_order() {
    let contents = "beta\nalpha\nbeta again\ngamma";
    assert_eq!(search("beta", contents), vec!["beta", "beta again"]);
}

#[test]
fn line_with_repeated_occurrences_appears_once() {
    assert_eq!(search("a", "banana\nfig"), vec!["banana"]);
}

#[test]
fn identical_calls_yield_identical_results() {
    let query = "st";
    let contents = "Rust:\nsafe, fast, productive.\nPick three.";
    assert_eq!(search(query, contents), search(query, contents));
    assert_eq!(
        search_case_insensitive(query, contents),
        search_case_insensitive(query, contents)
    );
}

#[test]
fn sensitive_matches_are_insensitive_matches() {
    let query = "Rust";
    let contents = "Rust:\nrust is lowercase\nTrust me.\nnothing here";
    let sensitive = search(query, contents);
    let insensitive = search_case_insensitive(query, contents);
    for line in &sensitive {
        assert!(insensitive.contains(line));
    }
}

#[test]
fn insensitive_results_keep_original_casing() {
    let contents = "SHOUTED LINE\nquiet line\nMiXeD CaSe";
    assert_eq!(
        search_case_insensitive("line", contents),
        vec!["SHOUTED LINE", "quiet line"]
    );
    assert_eq!(search_case_insensitive("mixed", contents), vec!["MiXeD CaSe"]);
}

#[test]
fn crlf_line_endings_are_stripped() {
    let contents = "foo\r\nbar\r\nbaz";
    assert_eq!(search("foo", contents), vec!["foo"]);
    assert_eq!(search("", contents), vec!["foo", "bar", "baz"]);
}

#[test]
fn trailing_carriage_return_is_stripped_on_last_line() {
    assert_eq!(search("foo", "foo\r"), vec!["foo"]);
}

#[test]
fn trailing_newline_adds_no_empty_line() {
    assert_eq!(search("", "a\nb\n"), vec!["a", "b"]);
    assert_eq!(search("", "\n"), vec![""]);
}

#[test]
fn interior_empty_lines_are_kept() {
    assert_eq!(search("", "a\n\nb"), vec!["a", "", "b"]);
}

#[test]
fn case_folding_is_ascii_only() {
    // Folding maps only 'A'..='Z'; accented characters are compared exactly.
    let empty: Vec<&str> = Vec::new();
    assert_eq!(search_case_insensitive("CAFÉ", "café"), empty);
    assert_eq!(search_case_insensitive("CAFé", "café"), vec!["café"]);
}
