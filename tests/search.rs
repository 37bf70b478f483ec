use refcount::minigrep::{contains_query, find_lines, search, search_case_insensitive, split_lines, Config};

const POEM: &str = "\
I’m nobody! Who are you?
Are you nobody, too?
Then there’s a pair of us — don’t tell!
They’d banish us, you know.

How dreary to be somebody!
How public, like a frog
To tell your name the livelong day
To an admiring bog!
";

#[test]
fn lib_performs_case_sensitive_search() {
    let query = "duct";
    let contents = "\
Rust:
safe, fast, productive.
Pick three.
Duct tape.
";
    assert_eq!(search(query, contents), vec!["safe, fast, productive."])
}

#[test]
fn lib_performs_case_insensitive_search() {
    let query = "rUsT";
    let contents = "\
Rust:
safe, fast, productive.
Pick three.
Trust me.
";
    assert_eq!(
        search_case_insensitive(query, contents),
        vec!["Rust:", "Trust me."]
    )
}

#[test]
fn splits_lines_like_str_lines() {
    for text in [
        "", "\n", "a", "a\n", "a\nb", "a\r\nb\r\n", "a\n\nb\n\n", "\r\n", "x\ry", "é\nñ", "a\r", "\r", "ab\r",
        "a\r\nb\r", "\r\r\n",
    ] {
        let expected: Vec<&str> = text.lines().collect();
        assert_eq!(split_lines(text), expected, "text {:?}", text);
    }
}

#[test]
fn query_containment() {
    assert!(contains_query("productive", "duct"));
    assert!(contains_query("duct", "duct"));
    assert!(contains_query("anything", ""));
    assert!(contains_query("", ""));
    assert!(!contains_query("", "a"));
    assert!(!contains_query("Duct tape.", "duct"));
    assert!(!contains_query("duc", "duct"));
    assert!(contains_query("naïve café", "é"));
}

#[test]
fn integration_tets_performs_case_sensitive_search() {
    let cfg = Config {
        query: String::from("to"),
        path: String::from("poem.txt"),
        case_sensitive: true,
    };
    assert_eq!(
        find_lines(&cfg, POEM),
        vec!["Are you nobody, too?", "How dreary to be somebody!"]
    );
}

#[test]
fn integration_tets_performs_case_insensitive_search() {
    let cfg = Config {
        query: String::from("to"),
        path: String::from("poem.txt"),
        case_sensitive: false,
    };
    assert_eq!(
        find_lines(&cfg, POEM),
        vec![
            "Are you nobody, too?",
            "How dreary to be somebody!",
            "To tell your name the livelong day",
            "To an admiring bog!",
        ]
    );
}

#[test]
fn search_of_empty_text_finds_nothing() {
    assert!(search("a", "").is_empty());
    assert!(search_case_insensitive("A", "").is_empty());
    assert_eq!(search("", "x\ny\n"), vec!["x", "y"]);
}

#[test]
fn bare_carriage_return_stays_in_last_line() {
    assert_eq!(search("\r", "ab\r"), vec!["ab\r"]);
    assert_eq!(search_case_insensitive("a", "ab\r"), vec!["ab\r"]);
    assert_eq!(search("b", "a\r\nb\r"), vec!["b\r"]);
    assert!(search("\r", "a\r\nb").is_empty());
}
