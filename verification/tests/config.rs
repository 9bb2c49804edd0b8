use grep_cli_tool::config::{CASE_INSENSITIVE_FLAG, NOT_ENOUGH_ARGUMENTS};
use grep_cli_tool::Config;

fn args(words: &[&str]) -> Vec<String> {
    words.iter().map(|word| word.to_string()).collect()
}

fn made(words: &[&str]) -> Config {
    match Config::new(&args(words)) {
        Ok(config) => config,
        Err(message) => panic!("no configuration from {:?}: {}", words, message),
    }
}

#[test]
fn fewer_than_three_arguments_are_not_enough() {
    assert_eq!(Config::new(&args(&[])).err(), Some("Not enough arguments."));
    assert_eq!(Config::new(&args(&["prog"])).err(), Some("Not enough arguments."));
    assert_eq!(Config::new(&args(&["prog", "q"])).err(), Some("Not enough arguments."));
    assert_eq!(NOT_ENOUGH_ARGUMENTS, "Not enough arguments.");
}

#[test]
fn three_arguments_or_more_are_enough_whatever_they_hold() {
    for words in [
        vec!["prog", "q", "f"],
        vec!["", "", ""],
        vec!["prog", "", "f"],
        vec!["prog", "q", ""],
        vec!["prog", "q", "f", "x"],
        vec!["prog", "q", "f", "", "y"],
        vec!["prog", "q", "f", "CASE_INSENSITIVE", "z", "z"],
    ] {
        assert!(Config::new(&args(&words)).is_ok(), "{:?}", words);
    }
}

#[test]
fn query_and_filename_are_the_second_and_third_argument() {
    let config = made(&["prog", "needle", "haystack.txt"]);
    assert_eq!(config.query, "needle");
    assert_eq!(config.filename, "haystack.txt");
    assert!(config.case_sensitive);
}

#[test]
fn the_configuration_owns_its_texts() {
    let list = args(&["prog", "needle", "haystack.txt"]);
    let config = made(&["prog", "needle", "haystack.txt"]);
    let other = Config::new(&list);
    drop(list);
    let other = other.ok().map(|config| (config.query, config.filename));
    assert_eq!(other, Some((config.query, config.filename)));
}

#[test]
fn the_flag_switches_case_off() {
    let config = made(&["prog", "q", "f", "CASE_INSENSITIVE"]);
    assert!(!config.case_sensitive);
    assert_eq!(config.query, "q");
    assert_eq!(config.filename, "f");
    assert_eq!(CASE_INSENSITIVE_FLAG, "CASE_INSENSITIVE");
}

#[test]
fn any_other_fourth_argument_changes_nothing() {
    for fourth in ["OTHER", "", "case_insensitive", "Case_Insensitive", "CASE_INSENSITIVE ", "CASE_INSENSITIV", " CASE_INSENSITIVE", "CASE-INSENSITIVE"] {
        let config = made(&["prog", "q", "f", fourth]);
        assert!(config.case_sensitive, "{:?}", fourth);
    }
}

#[test]
fn the_flag_counts_only_as_fourth_argument() {
    assert!(made(&["prog", "q", "f", "x", "CASE_INSENSITIVE"]).case_sensitive);
    assert!(made(&["prog", "CASE_INSENSITIVE", "f"]).case_sensitive);
    assert!(made(&["CASE_INSENSITIVE", "q", "CASE_INSENSITIVE"]).case_sensitive);
    assert!(!made(&["prog", "q", "f", "CASE_INSENSITIVE", "x"]).case_sensitive);
}

#[test]
fn search_goes_by_the_configuration() {
    let contents = "\nRust:\nsafe, fast, productive.\nHave your cake and eat it too.\nTrust me.";
    let exact = made(&["prog", "rUst", "poem.txt"]);
    assert_eq!(exact.search(contents), Vec::<&str>::new());
    let loose = made(&["prog", "rUst", "poem.txt", "CASE_INSENSITIVE"]);
    assert_eq!(loose.search(contents), vec!["Rust:", "Trust me."]);
    let exact = made(&["prog", "duct", "poem.txt", "OTHER"]);
    assert_eq!(exact.search(contents), vec!["safe, fast, productive."]);
}

#[test]
fn an_empty_query_selects_every_line() {
    let config = made(&["prog", "", "poem.txt"]);
    assert_eq!(config.search("a\nb\r\nc"), vec!["a", "b", "c"]);
}
