use minigrep::search::search;
use minigrep::search::search_case_insensitive;
use minigrep::search::search_comprehensive;
use minigrep::search::search_for;
use minigrep::search::search_iter;
use minigrep::search::search_mark;

#[test]
fn test_search() {
    let query = "duct";
    let contents = "Rust:\nsafe, fast, productive.\nPick three.\nxixixixixixiixixixiixiixixixixixixixixixixixixixi";

    assert_eq!(vec!["safe, fast, productive."], search(query, contents));
}

#[test]
fn test_search_mark() {
    let query = "duct";
    let contents = "Rust:\nsafe, fast, productive.\nPick three.\nxixixixixixiixixixiixiixixixixixixixixixixixixixi";
    assert_eq!(
        vec!["safe, fast, pro<<<duct>>>ive."],
        search_mark(query, contents)
    );
}

#[test]
fn test_case_insensitive() {
    let query = "rUsT";
    let contents = "Rust:\nsafe, fast, productive.\nPick three.\nTrust me.";
    assert_eq!(
        vec!["Rust:", "Trust me."],
        search_case_insensitive(query, contents)
    );
}

#[test]
fn test_comprehensive_doc_example() {
    let results = search_comprehensive("hello", "Hello\nWorld\nRust", true);
    assert_eq!(vec!["0:<<<Hello>>>"], results);
}

#[test]
fn test_no_match_returns_empty() {
    let results = search("zzz", "abc\ndef");
    assert_eq!(Vec::<String>::new(), results);
}

#[test]
fn test_for_and_iter_agree_with_search() {
    let query = "the";
    let contents = "the quick\nbrown fox\njumps over the\nlazy dog";
    let plain = search(query, contents);
    assert_eq!(plain, search_for(query, contents));
    assert_eq!(plain, search_iter(query, contents));
}

#[test]
fn test_search_repeated_lines_kept() {
    assert_eq!(vec!["a", "a"], search("a", "a\na"));
}

#[test]
fn test_search_query_longer_than_line() {
    assert_eq!(Vec::<String>::new(), search("abcdef", "abc"));
}

#[test]
fn test_search_trailing_newline_opens_no_line() {
    assert_eq!(vec!["a"], search("a", "a\n"));
    assert_eq!(Vec::<String>::new(), search("", ""));
}

#[test]
fn test_empty_query_matches_every_line() {
    assert_eq!(vec!["abc", "def"], search("", "abc\ndef"));
    assert_eq!(vec!["abc", "def"], search_case_insensitive("", "abc\ndef"));
}

#[test]
fn test_empty_query_comprehensive_wraps_empty_span() {
    assert_eq!(
        vec!["<<<>>>0:ab", "<<<>>>1:cd"],
        search_comprehensive("", "ab\ncd", false)
    );
}

#[test]
fn test_mark_empty_query_interleaves_markers() {
    assert_eq!(vec!["<<<>>>a<<<>>>b<<<>>>"], search_mark("", "ab"));
}

#[test]
fn test_mark_replaces_every_occurrence() {
    assert_eq!(vec!["x<<<i>>>x<<<i>>><<<i>>>"], search_mark("i", "xixii"));
}

#[test]
fn test_comprehensive_marks_first_occurrence_only() {
    assert_eq!(vec!["0:he<<<l>>>lo"], search_comprehensive("l", "hello", false));
    assert_eq!(vec!["he<<<l>>><<<l>>>o"], search_mark("l", "hello"));
}

#[test]
fn test_comprehensive_keeps_original_casing_of_match() {
    let results = search_comprehensive("rust", "TRUST me", true);
    assert_eq!(vec!["0:T<<<RUST>>> me"], results);
}

#[test]
fn test_comprehensive_indices_increase() {
    let results = search_comprehensive("i", "hi\nno\nsi", false);
    assert_eq!(vec!["0:h<<<i>>>", "2:s<<<i>>>"], results);
}

#[test]
fn test_comprehensive_indices_reach_two_digits() {
    let mut contents = String::new();
    for _ in 0..10 {
        contents.push_str("x\n");
    }
    contents.push_str("match me");
    let results = search_comprehensive("match", &contents, false);
    assert_eq!(vec!["10:<<<match>>> me"], results);
}

#[test]
fn test_search_functions_idempotent() {
    let query = "st";
    let contents = "Rust:\nsafe, fast, productive.\nPick three.\nTrust me.";
    assert_eq!(search(query, contents), search(query, contents));
    assert_eq!(
        search_case_insensitive(query, contents),
        search_case_insensitive(query, contents)
    );
    assert_eq!(search_mark(query, contents), search_mark(query, contents));
    assert_eq!(
        search_comprehensive(query, contents, true),
        search_comprehensive(query, contents, true)
    );
}
