use crossword::grid::digits_of;
use crossword::grid::parse_answer_string;
use crossword::grid::Word;
use crossword::sanitise_string;

fn chars_to_string(v: &[char]) -> String {
    v.iter().collect()
}

#[test]
fn test_parse_answer_strings() {
    let (word, lengths) = parse_answer_string("TEA-TIME").unwrap();
    assert_eq!(chars_to_string(&word), "TEATIME");
    assert_eq!(chars_to_string(&lengths), "(3-4)");

    let (word, lengths) = parse_answer_string("BILBO BAGGINS").unwrap();
    assert_eq!(chars_to_string(&word), "BILBOBAGGINS");
    assert_eq!(chars_to_string(&lengths), "(5,7)");

    let (word, lengths) = parse_answer_string("tea-time").unwrap();
    assert_eq!(chars_to_string(&word), "TEATIME");
    assert_eq!(chars_to_string(&lengths), "(3-4)");

    let (word, lengths) = parse_answer_string("tea-TIME").unwrap();
    assert_eq!(chars_to_string(&word), "TEATIME");
    assert_eq!(chars_to_string(&lengths), "(3-4)");

    assert!(parse_answer_string("").is_err());
    assert!(parse_answer_string("NO!").is_err());
}

#[test]
fn test_digits_of() {
    assert_eq!(chars_to_string(&digits_of(0)), "0");
    assert_eq!(chars_to_string(&digits_of(7)), "7");
    assert_eq!(chars_to_string(&digits_of(10)), "10");
    assert_eq!(chars_to_string(&digits_of(305)), "305");
}

#[test]
fn test_sanitise_string() {
    let kept = sanitise_string("a-b c!", "abc");
    assert_eq!(chars_to_string(&kept), "abc");
    let kept = sanitise_string("HELLO", "ABCDEFGHIJKLMNOPQRSTUVWXYZ");
    assert_eq!(chars_to_string(&kept), "HELLO");
}

#[test]
fn test_word_basics() {
    let word = Word::new_unplaced("ALPHA", "first letter", None);
    assert!(!word.is_placed());
    assert_eq!(word.len(), 5);
    assert_eq!(word.get_char_at_index(0), 'A');
    assert_eq!(word.get_char_at_index(4), 'A');
    assert!(word.get_required_direction().is_none());
    assert!(word.allowed_in_direction(crossword::grid::Direction::Across));
    assert!(word.allowed_in_direction(crossword::grid::Direction::Down));

    let fixed = Word::new_unplaced("DOWNER", "", Some(crossword::grid::Direction::Down));
    assert!(fixed.allowed_in_direction(crossword::grid::Direction::Down));
    assert!(!fixed.allowed_in_direction(crossword::grid::Direction::Across));
}
