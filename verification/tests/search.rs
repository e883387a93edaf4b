use minigrep::scan::{contains, same_text, split_line};
use minigrep::{_search2, run, search, search_case_insensitive, Config};

#[test]
fn one_result() {
    let query = "duct";
    let contents = "\
Rust:
safe, fast, productive.
Pick three.";

    assert_eq!(vec!["safe, fast, productive."], search(query, contents));
}

#[test]
fn case_sensitive() {
    let query = "duct";
    let contents = "\
Rust:
safe, fast, productive.
Pick three.
Duct tape.";

    assert_eq!(vec!["safe, fast, productive."], search(query, contents));
}

#[test]
fn case_insensitive() {
    let query = "rUsT";
    let contents = "\
Rust:
safe, fast, productive.
Pick three.
Trust me.";

    assert_eq!(
        vec!["Rust:", "Trust me."],
        search_case_insensitive(query, contents)
    );
}

#[test]
fn case_insensitive_keeps_the_lines_as_written() {
    let contents = "Rust:\nsafe, fast, productive.\nPick three.\nDuct tape.";
    assert_eq!(vec!["Rust:"], search_case_insensitive("rUsT", contents));
    assert_eq!(
        vec!["safe, fast, productive.", "Duct tape."],
        search_case_insensitive("DUCT", contents)
    );
}

#[test]
fn empty_query_finds_every_line() {
    let contents = "one\ntwo\n\nfour";
    assert_eq!(vec!["one", "two", "", "four"], search("", contents));
    assert_eq!(
        vec!["one", "two", "", "four"],
        search_case_insensitive("", contents)
    );
}

#[test]
fn empty_contents_have_no_lines() {
    assert_eq!(Vec::<&str>::new(), search("", ""));
    assert_eq!(Vec::<&str>::new(), search("a", ""));
    assert_eq!(Vec::<&str>::new(), search_case_insensitive("", ""));
}

#[test]
fn trailing_line_feed_adds_no_line() {
    assert_eq!(vec!["a", "b"], search("", "a\nb\n"));
    assert_eq!(vec!["a", "b", ""], search("", "a\nb\n\n"));
    assert_eq!(vec![""], search("", "\n"));
}

#[test]
fn carriage_return_before_line_feed_ends_the_line() {
    assert_eq!(vec!["a", "b"], search("", "a\r\nb\r\n"));
    assert_eq!(vec!["a\r", "b"], search("", "a\r\r\nb"));
    assert_eq!(vec!["a\rb"], search("", "a\rb"));
    assert_eq!(vec!["a", "b\r"], search("", "a\nb\r"));
    assert_eq!(vec!["", ""], search("", "\r\n\r\n"));
}

#[test]
fn lines_are_split_as_the_standard_library_splits_them() {
    let samples = [
        "",
        "\n",
        "\r",
        "\r\n",
        "a",
        "a\n",
        "a\r\n",
        "a\r",
        "a\n\nb",
        "one\r\ntwo\nthree\r\n\r\nfive",
        "\n\n\n",
        "caf\u{e9}\r\n\u{3b1}\u{3b2}\n\u{1f600}",
        "x\r\r\n\ry\n\r",
    ];
    for contents in samples {
        let expected: Vec<&str> = contents.lines().collect();
        assert_eq!(expected, search("", contents), "{:?}", contents);
    }
}

#[test]
fn found_lines_hold_the_query_and_others_do_not() {
    let contents = "alpha\nbeta\ngamma\ndelta\nalphabet";
    let found = search("alpha", contents);
    assert_eq!(vec!["alpha", "alphabet"], found);
    for line in contents.lines() {
        assert_eq!(line.contains("alpha"), found.contains(&line));
    }
}

#[test]
fn ignoring_case_only_adds_lines() {
    let contents = "Rust:\nsafe, fast, productive.\nTrust me.\nrusty";
    for query in ["rust", "Rust", "RUST", "t", "", "zz"] {
        let plain = search(query, contents);
        let loose = search_case_insensitive(query, contents);
        for line in &plain {
            assert!(loose.contains(line));
        }
    }
    assert_eq!(vec!["Trust me.", "rusty"], search("rust", contents));
    assert_eq!(
        vec!["Rust:", "Trust me.", "rusty"],
        search_case_insensitive("rust", contents)
    );
}

#[test]
fn a_final_sigma_is_folded_by_its_place() {
    let contents = "\u{391}\u{3a3}";
    assert_eq!(vec![contents], search("\u{3a3}", contents));
    assert_eq!(
        Vec::<&str>::new(),
        search_case_insensitive("\u{3a3}", contents)
    );
}

#[test]
fn searching_twice_gives_the_same() {
    let contents = "Rust:\nsafe, fast, productive.\nPick three.\nTrust me.";
    assert_eq!(search("us", contents), search("us", contents));
    assert_eq!(
        search_case_insensitive("US", contents),
        search_case_insensitive("US", contents)
    );
}

#[test]
fn case_is_folded_beyond_ascii() {
    let contents = "\u{c4}RGER\nruhe\n\u{e4}rger";
    assert_eq!(vec!["\u{e4}rger"], search("\u{e4}r", contents));
    assert_eq!(
        vec!["\u{c4}RGER", "\u{e4}rger"],
        search_case_insensitive("\u{e4}r", contents)
    );
    assert_eq!(
        vec!["\u{c4}RGER", "\u{e4}rger"],
        search_case_insensitive("\u{c4}R", contents)
    );
}

#[test]
fn contains_finds_runs_of_characters() {
    assert!(contains("safe, fast, productive.", "duct"));
    assert!(!contains("Duct tape.", "duct"));
    assert!(contains("abc", ""));
    assert!(contains("", ""));
    assert!(!contains("", "a"));
    assert!(!contains("ab", "abc"));
    assert!(contains("abc", "abc"));
    assert!(contains("aab", "ab"));
    assert!(contains("caf\u{e9} au lait", "\u{e9} au"));
    assert!(!contains("caf\u{e9}", "\u{e8}"));
    assert!(contains("\u{1f600}\u{1f601}", "\u{1f601}"));
}

#[test]
fn same_text_tells_texts_apart() {
    assert!(same_text("", ""));
    assert!(same_text("0", "0"));
    assert!(!same_text("0", "00"));
    assert!(!same_text("0", "1"));
    assert!(same_text("caf\u{e9}", "caf\u{e9}"));
    assert!(!same_text("cafe", "caf\u{e9}"));
}

#[test]
fn split_line_takes_the_first_line() {
    assert_eq!(("", ""), split_line(""));
    assert_eq!(("a", ""), split_line("a"));
    assert_eq!(("a", ""), split_line("a\n"));
    assert_eq!(("a", "b\nc"), split_line("a\nb\nc"));
    assert_eq!(("a", "b"), split_line("a\r\nb"));
    assert_eq!(("", "b"), split_line("\nb"));
    assert_eq!(("", ""), split_line("\r\n"));
    assert_eq!(("a\r", ""), split_line("a\r"));
    assert_eq!(("\u{e9}", "\u{e8}"), split_line("\u{e9}\n\u{e8}"));
}

#[test]
fn run_searches_as_the_configuration_asks() {
    let contents = "Rust:\nsafe, fast, productive.\nPick three.\nTrust me.";
    let plain = Config {
        query: String::from("rust"),
        file_path: String::from("poem.txt"),
        ignore_case: false,
    };
    let loose = Config {
        query: String::from("rust"),
        file_path: String::from("poem.txt"),
        ignore_case: true,
    };
    assert_eq!(vec!["Trust me."], run(&plain, contents));
    assert_eq!(vec!["Rust:", "Trust me."], run(&loose, contents));
}

#[test]
fn the_second_search_trims_what_it_finds() {
    let contents = "Rust:\n  safe, fast, productive. \t\nPick three.\n\u{a0}duct\u{3000}\r\nDuct tape.";
    assert_eq!(
        vec!["  safe, fast, productive. \t", "\u{a0}duct\u{3000}"],
        search("duct", contents)
    );
    assert_eq!(
        vec!["safe, fast, productive.", "duct"],
        _search2("duct", contents)
    );
    assert_eq!(vec!["", "x"], _search2(" ", "  \n x \ny"));
    assert_eq!(Vec::<&str>::new(), _search2("duct", ""));
}
