use minigrep::search;
use minigrep::search_case_insensitive;
use minigrep::EnvConfig;

#[test]
fn one_result() {
    let query = "duct";
    let contents = "\
Rust:
safe, fast, productive.
Pick three.";

    assert_eq!(vec!["safe, fast, productive."], search(query, contents));
}

#[test]
fn case_insensitive() {
    let query = "rUsT";
    let contents = "\
Rust:
safe, fast, productive.
Pick three.
Trust me.";

    assert_eq!(
        vec!["Rust:", "Trust me."],
        search_case_insensitive(query, contents)
    );
}

#[test]
fn case_sensitive_misses_other_casing() {
    let query = "rUsT";
    let contents = "\
Rust:
Trust me.";

    assert_eq!(Vec::<&str>::new(), search(query, contents));
}

#[test]
fn empty_query_matches_every_line() {
    let contents = "alpha\nbeta\ngamma";
    assert_eq!(vec!["alpha", "beta", "gamma"], search("", contents));
    assert_eq!(
        vec!["alpha", "beta", "gamma"],
        search_case_insensitive("", contents)
    );
}

#[test]
fn trailing_newline_adds_no_line() {
    let contents = "alpha\nbeta\n";
    assert_eq!(vec!["alpha", "beta"], search("", contents));
}

#[test]
fn empty_content_yields_nothing() {
    assert_eq!(Vec::<&str>::new(), search("query", ""));
    assert_eq!(Vec::<&str>::new(), search_case_insensitive("query", ""));
}

#[test]
fn duplicate_lines_are_each_returned() {
    let contents = "echo one\nother\necho one";
    assert_eq!(vec!["echo one", "echo one"], search("echo", contents));
}

#[test]
fn carriage_returns_stay_in_their_line() {
    let contents = "alpha\r\nbeta";
    assert_eq!(vec!["alpha\r"], search("alpha", contents));
    assert_eq!(vec!["beta"], search("beta", contents));
}

#[test]
fn matches_beyond_ascii() {
    let contents = "caf\u{e9} noir\nau lait";
    assert_eq!(vec!["caf\u{e9} noir"], search("caf\u{e9}", contents));
    assert_eq!(
        vec!["caf\u{e9} noir"],
        search_case_insensitive("CAF\u{c9}", contents)
    );
}

#[test]
fn repeated_runs_agree() {
    let query = "st";
    let contents = "Rust:\nsafe, fast, productive.\nPick three.";
    assert_eq!(search(query, contents), search(query, contents));
    assert_eq!(
        search_case_insensitive(query, contents),
        search_case_insensitive(query, contents)
    );
}

#[test]
fn config_needs_two_positional_arguments() {
    let args = vec![String::from("prog"), String::from("query")];
    let built = EnvConfig::build(&args, false);
    assert_eq!(built.err(), Some("not enough arguments"));
}

#[test]
fn config_takes_query_path_and_flag() {
    let args = vec![
        String::from("prog"),
        String::from("needle"),
        String::from("notes.txt"),
    ];
    let cfg = EnvConfig::build(&args, true).unwrap();
    assert_eq!(cfg.query, "needle");
    assert_eq!(cfg.file_path, "notes.txt");
    assert!(cfg.ignore_case);
    let cfg = EnvConfig::build(&args, false).unwrap();
    assert!(!cfg.ignore_case);
}

#[test]
fn run_search_follows_the_flag() {
    let args = vec![
        String::from("prog"),
        String::from("rUsT"),
        String::from("unused.txt"),
    ];
    let contents = "Rust:\nTrust me.";
    let exact = EnvConfig::build(&args, false).unwrap();
    assert_eq!(
        Vec::<&str>::new(),
        minigrep::run_search(&exact, contents)
    );
    let folded = EnvConfig::build(&args, true).unwrap();
    assert_eq!(
        vec!["Rust:", "Trust me."],
        minigrep::run_search(&folded, contents)
    );
}
