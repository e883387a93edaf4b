use minigrep::Config;

fn args(tokens: &[&str]) -> Vec<String> {
    tokens.iter().map(|token| token.to_string()).collect()
}

#[test]
fn one_positional_is_not_enough() {
    let outcome = Config::from(&args(&["prog", "duct"]), None);
    assert_eq!(Some("not enough arguments"), outcome.err());
}

#[test]
fn two_positionals_resolve() {
    let config = Config::from(&args(&["prog", "duct", "poem.txt"]), None).unwrap();
    assert_eq!("duct", config.query);
    assert_eq!("poem.txt", config.file_path);
    assert!(!config.ignore_case);
}

#[test]
fn short_option_ignores_case() {
    let config = Config::from(&args(&["prog", "duct", "poem.txt", "-i"]), None).unwrap();
    assert_eq!("duct", config.query);
    assert_eq!("poem.txt", config.file_path);
    assert!(config.ignore_case);
}

#[test]
fn long_option_ignores_case_wherever_it_stands() {
    let config = Config::from(&args(&["prog", "--ignore-case", "duct", "poem.txt"]), None).unwrap();
    assert_eq!("duct", config.query);
    assert_eq!("poem.txt", config.file_path);
    assert!(config.ignore_case);
    let config = Config::from(&args(&["prog", "duct", "-i", "poem.txt"]), None).unwrap();
    assert_eq!("poem.txt", config.file_path);
    assert!(config.ignore_case);
}

#[test]
fn other_options_are_passed_over() {
    let config = Config::from(&args(&["prog", "-x", "duct", "--verbose", "poem.txt"]), None).unwrap();
    assert_eq!("duct", config.query);
    assert_eq!("poem.txt", config.file_path);
    assert!(!config.ignore_case);
}

#[test]
fn further_positionals_are_ignored() {
    let config = Config::from(&args(&["prog", "duct", "poem.txt", "more", "-"]), None).unwrap();
    assert_eq!("duct", config.query);
    assert_eq!("poem.txt", config.file_path);
}

#[test]
fn a_lone_dash_is_positional() {
    let config = Config::from(&args(&["prog", "-", "poem.txt"]), None).unwrap();
    assert_eq!("-", config.query);
    assert_eq!("poem.txt", config.file_path);
}

#[test]
fn the_program_name_is_no_argument() {
    assert!(Config::from(&args(&["-i", "duct"]), None).is_err());
    let config = Config::from(&args(&["-i", "duct", "poem.txt"]), None).unwrap();
    assert!(!config.ignore_case);
}

#[test]
fn options_alone_are_not_enough() {
    assert!(Config::from(&args(&[]), None).is_err());
    assert!(Config::from(&args(&["prog"]), None).is_err());
    assert!(Config::from(&args(&["prog", "-i", "--ignore-case"]), None).is_err());
    assert_eq!(
        Some("not enough arguments"),
        Config::from(&args(&["prog", "-i", "duct"]), Some("1")).err()
    );
}

#[test]
fn an_empty_query_or_file_path_is_refused() {
    assert!(Config::from(&args(&["prog", "", "poem.txt"]), None).is_err());
    assert!(Config::from(&args(&["prog", "duct", ""]), None).is_err());
    assert!(Config::from(&args(&["prog", "duct", "", "poem.txt"]), None).is_err());
    assert!(Config::from(&args(&["prog", "duct", "poem.txt", ""]), None).is_ok());
}

#[test]
fn the_environment_switch_ignores_case() {
    let plain = args(&["prog", "duct", "poem.txt"]);
    assert!(!Config::from(&plain, None).unwrap().ignore_case);
    assert!(!Config::from(&plain, Some("0")).unwrap().ignore_case);
    assert!(Config::from(&plain, Some("1")).unwrap().ignore_case);
    assert!(Config::from(&plain, Some("")).unwrap().ignore_case);
    assert!(Config::from(&plain, Some("00")).unwrap().ignore_case);
    assert!(Config::from(&plain, Some("false")).unwrap().ignore_case);
    let flagged = args(&["prog", "duct", "poem.txt", "-i"]);
    assert!(Config::from(&flagged, Some("0")).unwrap().ignore_case);
    assert!(Config::from(&flagged, Some("1")).unwrap().ignore_case);
}

#[test]
fn check_env_reads_the_switch() {
    assert!(!Config::check_env(None));
    assert!(!Config::check_env(Some("0")));
    assert!(Config::check_env(Some("1")));
    assert!(Config::check_env(Some("")));
    assert!(Config::check_env(Some("0 ")));
    assert!(Config::check_env(Some("yes")));
}

#[test]
fn is_option_wants_a_dash_and_more() {
    assert!(Config::is_option("-i"));
    assert!(Config::is_option("--ignore-case"));
    assert!(Config::is_option("--"));
    assert!(Config::is_option("-\u{e9}"));
    assert!(!Config::is_option("-"));
    assert!(!Config::is_option(""));
    assert!(!Config::is_option("i-"));
    assert!(!Config::is_option("duct"));
    assert!(!Config::is_option("\u{e9}"));
}

#[test]
fn check_options_looks_past_the_first_argument() {
    let targets = args(&["-i", "--ignore-case"]);
    assert!(Config::check_options(&args(&["prog", "-i"]), &targets));
    assert!(Config::check_options(&args(&["prog", "a", "b", "--ignore-case"]), &targets));
    assert!(!Config::check_options(&args(&["-i"]), &targets));
    assert!(!Config::check_options(&args(&["prog", "-I", "--ignore_case"]), &targets));
    assert!(!Config::check_options(&args(&[]), &targets));
    assert!(!Config::check_options(&args(&["prog", "-i"]), &args(&[])));
}

#[test]
fn get_query_and_file_path_takes_the_first_two_positionals() {
    let pair = Config::get_query_and_file_path(&args(&["prog", "-i", "duct", "-x", "poem.txt", "z"]));
    assert_eq!((String::from("duct"), String::from("poem.txt")), pair);
    let pair = Config::get_query_and_file_path(&args(&["prog", "duct"]));
    assert_eq!((String::from("duct"), String::new()), pair);
    let pair = Config::get_query_and_file_path(&args(&["prog", "-i"]));
    assert_eq!((String::new(), String::new()), pair);
    let pair = Config::get_query_and_file_path(&args(&[]));
    assert_eq!((String::new(), String::new()), pair);
    let pair = Config::get_query_and_file_path(&args(&["prog", "", "duct"]));
    assert_eq!((String::new(), String::from("duct")), pair);
}
