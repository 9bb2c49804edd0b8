use grep_cli_tool::{search_case_insensitive, search_case_sensitive};

const POEM: &str = "\nRust:\nsafe, fast, productive.\nHave your cake and eat it too.\nTrust me.";

#[test]
fn case_sensitive() {
    let query = "duct";
    let contents = "\nRust:\nsafe, fast, productive.\nHave your cake and eat it too.";

    assert_eq!(
        vec!["safe, fast, productive."],
        search_case_sensitive(query, contents)
    );
}

#[test]
fn case_insensitive() {
    let query = "rUst";
    let contents =
        "\nRust:\nsafe, fast, productive.\nHave your cake and eat it too.\nTrust me.";

    assert_eq!(
        vec!["Rust:", "Trust me."],
        search_case_insensitive(query, contents)
    );
}

#[test]
fn case_sensitive_search_minds_case() {
    assert_eq!(search_case_sensitive("rUst", POEM), Vec::<&str>::new());
    assert_eq!(search_case_sensitive("rust", POEM), vec!["Trust me."]);
    assert_eq!(search_case_sensitive("Rust", POEM), vec!["Rust:"]);
}

#[test]
fn no_match_is_an_empty_result() {
    assert_eq!(search_case_sensitive("python", POEM), Vec::<&str>::new());
    assert_eq!(search_case_insensitive("python", POEM), Vec::<&str>::new());
    assert_eq!(search_case_sensitive("a", ""), Vec::<&str>::new());
    assert_eq!(search_case_insensitive("a", ""), Vec::<&str>::new());
}

#[test]
fn empty_query_returns_every_line() {
    assert_eq!(
        search_case_sensitive("", POEM),
        vec!["", "Rust:", "safe, fast, productive.", "Have your cake and eat it too.", "Trust me."]
    );
    assert_eq!(search_case_sensitive("", "one\r\n\r\ntwo\n"), vec!["one", "", "two"]);
    assert_eq!(search_case_sensitive("", ""), Vec::<&str>::new());
    assert_eq!(
        search_case_insensitive("", POEM),
        vec!["", "Rust:", "safe, fast, productive.", "Have your cake and eat it too.", "Trust me."]
    );
}

#[test]
fn a_line_that_stands_twice_is_matched_twice() {
    let contents = "echo\nsilence\necho\nECHO\necho";
    assert_eq!(search_case_sensitive("echo", contents), vec!["echo", "echo", "echo"]);
    assert_eq!(
        search_case_insensitive("echo", contents),
        vec!["echo", "echo", "ECHO", "echo"]
    );
}

#[test]
fn matches_are_lines_of_the_contents_in_their_order() {
    let contents = "b1\na1\nb2\r\na2\nb3\n\na3";
    let lines: Vec<&str> = contents.lines().collect();
    for query in ["a", "b", "1", "2", "3", "", "a3", "zz"] {
        for found in [search_case_sensitive(query, contents), search_case_insensitive(query, contents)] {
            let mut from = 0;
            for line in found {
                let at = lines[from..].iter().position(|l| *l == line);
                assert!(at.is_some(), "{:?} is not among the lines left", line);
                from += at.unwrap() + 1;
            }
        }
    }
}

#[test]
fn every_match_holds_the_query() {
    let contents = "Straße\nstrasse\nSTRASSE\nrue\nRUE de la Paix\nΟΔΟΣ\nοδός";
    for query in ["str", "STR", "ss", "ß", "rue", "RUE", "Ο", "ο", "ΟΣ", "ος", ""] {
        for line in search_case_sensitive(query, contents) {
            assert!(line.contains(query));
        }
        for line in search_case_insensitive(query, contents) {
            assert!(line.to_lowercase().contains(&query.to_lowercase()));
        }
    }
}

#[test]
fn every_line_that_holds_the_query_is_matched() {
    let contents = "ab\nba\nAB\n\nabab\r\nb";
    assert_eq!(search_case_sensitive("ab", contents), vec!["ab", "abab"]);
    assert_eq!(search_case_sensitive("b", contents), vec!["ab", "ba", "abab", "b"]);
    assert_eq!(search_case_insensitive("ab", contents), vec!["ab", "AB", "abab"]);
    assert_eq!(search_case_insensitive("B", contents), vec!["ab", "ba", "AB", "abab", "b"]);
}

#[test]
fn case_insensitive_matches_keep_their_spelling() {
    let contents = "GRÜSSE aus Köln\ngrüsse AUS KÖLN\nnothing";
    assert_eq!(
        search_case_insensitive("köln", contents),
        vec!["GRÜSSE aus Köln", "grüsse AUS KÖLN"]
    );
    assert_eq!(
        search_case_insensitive("GRÜSSE AUS", contents),
        vec!["GRÜSSE aus Köln", "grüsse AUS KÖLN"]
    );
    assert_eq!(search_case_sensitive("köln", contents), Vec::<&str>::new());
}

#[test]
fn folding_the_query_again_changes_no_match() {
    let contents = "ΟΔΥΣΣΕΥΣ sails\nὀδυσσεύς returns\nİstanbul\nistanbul\nISTANBUL\nǅungla\nplain";
    for query in ["ΟΔΥΣΣΕΥΣ", "İ", "I", "ǅ", "Σ", "ΣΣ", "PLAIN", "Sails", ""] {
        let once = query.to_lowercase();
        let twice = once.to_lowercase();
        assert_eq!(
            search_case_insensitive(&once, contents),
            search_case_insensitive(query, contents)
        );
        assert_eq!(
            search_case_insensitive(&twice, contents),
            search_case_insensitive(query, contents)
        );
    }
}

#[test]
fn a_query_never_matches_across_a_line_break() {
    assert_eq!(search_case_sensitive("a\nb", "a\nb"), Vec::<&str>::new());
    assert_eq!(search_case_sensitive("ab", "a\nb"), Vec::<&str>::new());
    assert_eq!(search_case_sensitive("a\r", "a\r\nb"), Vec::<&str>::new());
    assert_eq!(search_case_sensitive("a\r", "a\r"), vec!["a\r"]);
}

#[test]
fn matches_are_slices_of_the_contents() {
    let contents = String::from("first\nsecond\nthird");
    let found = search_case_sensitive("d", &contents);
    assert_eq!(found, vec!["second", "third"]);
    let start = contents.as_ptr() as usize;
    assert_eq!(found[0].as_ptr() as usize, start + 6);
    assert_eq!(found[1].as_ptr() as usize, start + 13);
}
