use file_search::matcher::{line_matches, scan_lines};
use file_search::record::Match;
use file_search::selection::select_match;
use file_search::text::{contains, contains_chars, to_chars};

fn slots(lines: &[&str]) -> Vec<Option<String>> {
    lines.iter().map(|line| Some(line.to_string())).collect()
}

fn hit(path: &str, line_number: usize, content: &str) -> Match {
    Match {
        file_path: path.to_string(),
        line_number,
        line_content: content.to_string(),
    }
}

#[test]
fn term_matches_any_casing_of_the_line() {
    assert!(line_matches("frog", "a frog"));
    assert!(line_matches("frog", "a FROG"));
    assert!(line_matches("frog", "a FrOg"));
    assert!(!line_matches("frog", "a toad"));
    assert!(!line_matches("frog", "f rog"));
}

#[test]
fn line_matches_any_casing_of_the_term() {
    assert!(line_matches("FROG", "a frog"));
    assert!(line_matches("FrOg", "a frog"));
    assert!(line_matches("FROG", "a Frog"));
    assert!(!line_matches("FROGS", "a frog"));
}

#[test]
fn folding_goes_beyond_ascii() {
    assert!(line_matches("äpfel", "Drei ÄPFEL"));
    assert!(line_matches("ÄPFEL", "drei äpfel"));
    assert!(line_matches("σας", "ΣΑΣ"));
    assert!(!line_matches("apfel", "Drei ÄPFEL"));
}

#[test]
fn empty_term_matches_every_line() {
    assert!(line_matches("", "anything"));
    assert!(line_matches("", ""));
    let lines = vec![Some("one".to_string()), None, Some(String::new())];
    let found = scan_lines("f.txt", "", &lines);
    assert_eq!(found, vec![hit("f.txt", 1, "one"), hit("f.txt", 3, "")]);
}

#[test]
fn line_numbers_are_the_positions_of_the_hits() {
    let lines = slots(&["no", "frog", "no", "FROG here", "a Frog", "no"]);
    let found = scan_lines("pond.txt", "frog", &lines);
    assert_eq!(
        found,
        vec![
            hit("pond.txt", 2, "frog"),
            hit("pond.txt", 4, "FROG here"),
            hit("pond.txt", 5, "a Frog"),
        ]
    );
}

#[test]
fn one_record_for_each_hitting_line() {
    let lines = slots(&["frog", "frog frog frog", "toad", "FROG", "newt"]);
    let found = scan_lines("pond.txt", "frog", &lines);
    assert_eq!(found.len(), 3);
    let none = scan_lines("pond.txt", "heron", &lines);
    assert_eq!(none.len(), 0);
}

#[test]
fn undecodable_line_is_skipped_but_counted() {
    let lines = vec![
        Some("frog".to_string()),
        None,
        None,
        Some("a frog".to_string()),
    ];
    let found = scan_lines("mixed.bin", "frog", &lines);
    assert_eq!(found, vec![hit("mixed.bin", 1, "frog"), hit("mixed.bin", 4, "a frog")]);
}

#[test]
fn content_is_kept_as_read() {
    let lines = slots(&["   The FROG\t "]);
    let found = scan_lines("f.txt", "frog", &lines);
    assert_eq!(found, vec![hit("f.txt", 1, "   The FROG\t ")]);
}

#[test]
fn file_without_lines_gives_nothing() {
    let found = scan_lines("empty.txt", "frog", &Vec::new());
    assert_eq!(found, Vec::<Match>::new());
}

#[test]
fn contains_finds_a_part_anywhere() {
    assert!(contains("the quick brown frog", "the"));
    assert!(contains("the quick brown frog", "quick"));
    assert!(contains("the quick brown frog", "frog"));
    assert!(contains("the quick brown frog", "the quick brown frog"));
    assert!(contains("aaab", "aab"));
    assert!(contains("frog", ""));
    assert!(contains("", ""));
}

#[test]
fn contains_rejects_what_is_not_a_part() {
    assert!(!contains("the quick brown frog", "frogs"));
    assert!(!contains("the quick brown frog", "FROG"));
    assert!(!contains("frog", "a frog"));
    assert!(!contains("", "f"));
    assert!(!contains("fro", "frog"));
    assert!(!contains("abab", "aba b"));
}

#[test]
fn contains_works_on_characters() {
    assert!(contains("naïve café", "é"));
    assert!(contains("naïve café", "ïve c"));
    assert!(!contains("naïve café", "ive"));
    let hay: Vec<char> = vec!['a', 'é', 'b'];
    assert!(contains_chars(&hay, &vec!['é', 'b']));
    assert!(!contains_chars(&hay, &vec!['b', 'é']));
}

#[test]
fn to_chars_gives_the_characters_in_order() {
    assert_eq!(to_chars("fröG"), vec!['f', 'r', 'ö', 'G']);
    assert_eq!(to_chars(""), Vec::<char>::new());
}

#[test]
fn selection_is_one_based() {
    let matches = vec![hit("a.txt", 1, "one"), hit("b.txt", 2, "two"), hit("c.txt", 3, "three")];
    assert_eq!(select_match(&matches, 0), None);
    assert_eq!(select_match(&matches, 1), Some(&matches[0]));
    assert_eq!(select_match(&matches, 2), Some(&matches[1]));
    assert_eq!(select_match(&matches, 3), Some(&matches[2]));
    assert_eq!(select_match(&matches, 4), None);
    assert_eq!(select_match(&matches, usize::MAX), None);
    assert_eq!(select_match(&Vec::new(), 1), None);
}
