use minigrep::search;
use minigrep::search_case_insensitive;

#[test]
fn one_result() {
    let query = "duct";
    let contents = "\
Rust:
safe, fast, productive.
Pick three.";

    assert_eq!(vec!["safe, fast, productive."], search(query, contents));
}

#[test]
fn case_sensitive() {
    let query = "duct";
    let contents = "\
Rust:
safe, fast, productive.
Pick three.
Duct tape.";

    assert_eq!(vec!["safe, fast, productive."], search(query, contents));
}

#[test]
fn case_insensitive() {
    let query = "rUsT";
    let contents = "\
Rust:
safe, fast, productive.
Pick three.
Trust me.";

    assert_eq!(
        vec!["Rust:", "Trust me."],
        search_case_insensitive(query, contents)
    );
}

#[test]
fn empty_contents_yields_empty_result() {
    assert_eq!(Vec::<&str>::new(), search("duct", ""));
    assert_eq!(Vec::<&str>::new(), search_case_insensitive("duct", ""));
}

#[test]
fn no_match_yields_empty_result() {
    let contents = "one\ntwo\nthree";
    assert_eq!(Vec::<&str>::new(), search("zzz", contents));
    assert_eq!(Vec::<&str>::new(), search_case_insensitive("zzz", contents));
}

#[test]
fn empty_query_matches_every_line() {
    let contents = "alpha\nbeta\ngamma";
    assert_eq!(vec!["alpha", "beta", "gamma"], search("", contents));
    assert_eq!(
        vec!["alpha", "beta", "gamma"],
        search_case_insensitive("", contents)
    );
}

#[test]
fn uppercase_query_matches_lowercase_line() {
    assert_eq!(
        vec!["duct tape"],
        search_case_insensitive("DUCT", "duct tape")
    );
}

#[test]
fn repeated_matching_lines_are_kept_in_order() {
    let contents = "ab\ncd\nab\nef";
    assert_eq!(vec!["ab", "ab"], search("ab", contents));
}

#[test]
fn trailing_newline_adds_no_line() {
    assert_eq!(vec!["ab"], search("ab", "ab\n"));
    assert_eq!(Vec::<&str>::new(), search("", ""));
}

#[test]
fn carriage_return_before_line_feed_is_stripped() {
    assert_eq!(vec!["x", "y"], search("", "x\r\ny"));
    assert_eq!(Vec::<&str>::new(), search("x\r", "x\r\ny"));
}

#[test]
fn carriage_return_without_line_feed_stays() {
    assert_eq!(vec!["x\r"], search("", "x\r"));
    assert_eq!(vec!["x\r"], search("x\r", "x\r"));
}

#[test]
fn query_spanning_a_line_break_does_not_match() {
    assert_eq!(Vec::<&str>::new(), search("ab", "a\nb"));
}
