use minigrep::search;
use minigrep::search_case_insensitive;

#[test]
fn one_result() {
    let query = "duct";
    let contents = "\
Rust:
safe, fast, productive.
Pick three.";

    assert_eq!(vec!["safe, fast, productive."], search(query, contents));
}

#[test]
fn case_sensitive() {
    let query = "duct";
    let contents = "\
Rust:
safe, fast, productive.
Pick three.
Duct tape.";

    assert_eq!(vec!["safe, fast, productive."], search(query, contents));
}

#[test]
fn case_insensitive() {
    let query = "duct";
    let contents = "\
Rust:
safe, fast, productive.
Pick three.
Duct tape.";

    assert_eq!(
        vec!["safe, fast, productive.", "Duct tape."],
        search_case_insensitive(query, contents)
    );
}

#[test]
fn empty_query_returns_every_line() {
    let contents = "Rust:\nsafe, fast, productive.\nPick three.";
    assert_eq!(
        vec!["Rust:", "safe, fast, productive.", "Pick three."],
        search("", contents)
    );
}

#[test]
fn empty_contents_returns_nothing() {
    assert_eq!(Vec::<&str>::new(), search("duct", ""));
    assert_eq!(Vec::<&str>::new(), search("", ""));
    assert_eq!(Vec::<&str>::new(), search_case_insensitive("duct", ""));
}

#[test]
fn duplicates_are_kept_in_order() {
    let contents = "ab\nzz\nab\nab";
    assert_eq!(vec!["ab", "ab", "ab"], search("a", contents));
}

#[test]
fn trailing_newline_adds_no_line() {
    assert_eq!(vec!["one", "two"], search("", "one\ntwo\n"));
    assert_eq!(vec!["one", "", "two"], search("", "one\n\ntwo"));
    assert_eq!(vec![""], search("", "\n"));
}

#[test]
fn query_longer_than_line_matches_nothing() {
    assert_eq!(Vec::<&str>::new(), search("abcdef", "abc\ndef"));
}

#[test]
fn match_at_line_edges() {
    let contents = "prefix rest\nrest suffix\nmiddle";
    assert_eq!(vec!["prefix rest", "rest suffix"], search("rest", contents));
    assert_eq!(vec!["middle"], search("middle", contents));
}

#[test]
fn uppercase_query_still_matches_case_insensitively() {
    let contents = "Rust:\nsafe, fast, productive.\nPick three.\nDuct tape.";
    assert_eq!(
        vec!["safe, fast, productive.", "Duct tape."],
        search_case_insensitive("DUCT", contents)
    );
    assert_eq!(vec!["Rust:"], search_case_insensitive("rUsT", contents));
}

#[test]
fn final_sigma_can_defeat_the_superset() {
    // Full case folding lowers a capital sigma to a final sigma at the end of
    // a word but to a medial sigma inside one, so a case-sensitive match need
    // not survive lowercasing both sides.
    let contents = "\u{391}\u{3a3}\u{392}";
    assert_eq!(vec!["\u{391}\u{3a3}\u{392}"], search("\u{391}\u{3a3}", contents));
    assert_eq!(
        Vec::<&str>::new(),
        search_case_insensitive("\u{391}\u{3a3}", contents)
    );
}

#[test]
fn case_insensitive_superset_of_case_sensitive() {
    let contents = "Duct tape.\nsafe, fast, productive.\nabduction";
    let sensitive = search("duct", contents);
    let insensitive = search_case_insensitive("duct", contents);
    for line in &sensitive {
        assert!(insensitive.contains(line));
    }
    assert_eq!(
        vec!["Duct tape.", "safe, fast, productive.", "abduction"],
        insensitive
    );
}
