use fdupe::shell::{space_seperation, split_command};

fn words(line: &str) -> Vec<String> {
    let chars: Vec<char> = line.chars().collect();
    space_seperation(&chars).into_iter().map(|word| word.into_iter().collect()).collect()
}

fn open_quote(line: &str) -> bool {
    let chars: Vec<char> = line.chars().collect();
    split_command(&chars).quote_left_open
}

#[test]
fn help_becomes_the_help_option() {
    assert_eq!(words("help"), vec!["--help"]);
    assert_eq!(words("  help\n"), vec!["--help"]);
    assert_eq!(words("help me"), vec!["help", "me"]);
    assert_eq!(words("helps"), vec!["helps"]);
    assert_eq!(words("hel"), vec!["hel"]);
    assert_eq!(words("\"help\""), vec!["help"]);
}

#[test]
fn words_are_split_at_spaces() {
    assert_eq!(words("ls -r -d"), vec!["ls", "-r", "-d"]);
    assert_eq!(words("ls   -r"), vec!["ls", "-r"]);
    assert_eq!(words("cd dir\n"), vec!["cd", "dir"]);
    assert_eq!(words(""), Vec::<String>::new());
    assert_eq!(words("   "), Vec::<String>::new());
}

#[test]
fn whitespace_around_the_line_is_dropped_but_only_spaces_split() {
    assert_eq!(words("\t ls \r\n"), vec!["ls"]);
    assert_eq!(words("\u{3000}ls\u{a0}"), vec!["ls"]);
    assert_eq!(words("a\tb c"), vec!["a\tb", "c"]);
}

#[test]
fn quotes_hold_spaces() {
    assert_eq!(words("cd \"my dir\""), vec!["cd", "my dir"]);
    assert_eq!(words("info \"\""), vec!["info", ""]);
    assert_eq!(words("\"a\"b"), vec!["a", "b"]);
    assert_eq!(words("\"a\"\"b\""), vec!["a", "b"]);
}

#[test]
fn a_quote_inside_a_word_is_a_character() {
    assert_eq!(words("ab\"cd ef"), vec!["ab\"cd", "ef"]);
}

#[test]
fn a_backslash_takes_the_next_character_as_it_stands() {
    assert_eq!(words("cd my\\ dir"), vec!["cd", "my dir"]);
    assert_eq!(words("a\\\\b"), vec!["a\\b"]);
    assert_eq!(words("\"say \\\"hi\\\"\" x"), vec!["say \"hi\"", "x"]);
    assert_eq!(words("a\\bc\\d e"), vec!["abcd", "e"]);
    assert_eq!(words("\"\\a\""), vec!["a"]);
}

#[test]
fn a_backslash_that_begins_a_word_stays() {
    assert_eq!(words("\\a b"), vec!["\\a", "b"]);
    assert_eq!(words("x \\ y"), vec!["x", "\\", "y"]);
}

#[test]
fn a_word_that_ends_in_a_backslash_is_dropped() {
    assert_eq!(words("ls abc\\"), vec!["ls"]);
    assert_eq!(words("\"abc\\"), Vec::<String>::new());
}

#[test]
fn a_quote_left_open_still_gives_its_word() {
    assert_eq!(words("cd \"my dir"), vec!["cd", "my dir"]);
    assert!(open_quote("cd \"my dir"));
    assert!(open_quote("\""));
    assert_eq!(words("\""), vec![""]);
    assert!(!open_quote("cd \"my dir\""));
    assert!(!open_quote("cd my dir"));
    assert!(!open_quote("help"));
    assert!(!open_quote("\"abc\\"));
}
