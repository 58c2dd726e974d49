use minigrep::contains_str;
use minigrep::search_with_config;
use minigrep::split_lines;
use minigrep::Config;

fn args_of(words: &[&str]) -> Vec<String> {
    words.iter().map(|w| w.to_string()).collect()
}

#[test]
fn build_rejects_fewer_than_three_arguments() {
    let message = "Args: query, filepath. Not enough arguments.";
    assert_eq!(Err(message), Config::build(&args_of(&[]), false).map(|_| ()));
    assert_eq!(
        Err(message),
        Config::build(&args_of(&["prog"]), false).map(|_| ())
    );
    assert_eq!(
        Err(message),
        Config::build(&args_of(&["prog", "query"]), true).map(|_| ())
    );
}

#[test]
fn build_takes_query_and_filepath_in_order() {
    let config = Config::build(&args_of(&["prog", "needle", "haystack.txt"]), false).unwrap();
    assert_eq!("needle", config.query);
    assert_eq!("haystack.txt", config.filepath);
    assert!(!config.ignore_case);
}

#[test]
fn build_takes_the_case_flag_as_given() {
    let args = args_of(&["prog", "q", "f", "extra"]);
    assert!(Config::build(&args, true).unwrap().ignore_case);
    assert!(!Config::build(&args, false).unwrap().ignore_case);
}

#[test]
fn search_with_config_dispatches_on_the_case_flag() {
    let contents = "Rust:\nTrust me.";
    let sensitive = Config::build(&args_of(&["prog", "rUsT", "f"]), false).unwrap();
    let insensitive = Config::build(&args_of(&["prog", "rUsT", "f"]), true).unwrap();
    assert_eq!(
        Vec::<&str>::new(),
        search_with_config(&sensitive, contents)
    );
    assert_eq!(
        vec!["Rust:", "Trust me."],
        search_with_config(&insensitive, contents)
    );
}

#[test]
fn contains_str_finds_inner_substrings() {
    assert!(contains_str("hello world", "lo wo"));
    assert!(contains_str("hello", "hello"));
    assert!(contains_str("hello", ""));
    assert!(!contains_str("hello", "hello!"));
    assert!(!contains_str("", "a"));
}

#[test]
fn split_lines_returns_views_in_order() {
    assert_eq!(vec!["a", "b", "c"], split_lines("a\nb\nc"));
    assert_eq!(vec!["a", "b"], split_lines("a\nb\n"));
    assert_eq!(vec!["", ""], split_lines("\n\n"));
    assert_eq!(Vec::<&str>::new(), split_lines(""));
}
