use textbox::wrap::{get_max_line_len, is_space, split_words, wrap_text};

#[test]
fn wrap_regression_boundary() {
    // The flush happens before the word that would exceed the limit:
    // "a"(2), "bb"(5, not yet exceeded), "ccc"(9, exceeded -> flush).
    let lines = wrap_text("a bb ccc", 5);
    assert_eq!(lines, vec!["a bb ".to_string(), "ccc ".to_string()]);
}

#[test]
fn wrap_empty_input() {
    assert!(wrap_text("", 1).is_empty());
    assert!(wrap_text("", 30).is_empty());
    assert!(wrap_text("", 0).is_empty());
}

#[test]
fn wrap_whitespace_only_input() {
    assert!(wrap_text("  \t \n ", 10).is_empty());
}

#[test]
fn wrap_single_word_fits() {
    assert_eq!(wrap_text("hello", 30), vec!["hello ".to_string()]);
}

#[test]
fn wrap_overlong_word_never_split() {
    // The running count exceeds on the very first word, so the (empty)
    // accumulated line is flushed and the word stands alone.
    let lines = wrap_text("abcdef", 3);
    assert_eq!(lines, vec!["".to_string(), "abcdef ".to_string()]);
}

#[test]
fn wrap_multiple_lines() {
    let lines = wrap_text("hi there you", 8);
    assert_eq!(
        lines,
        vec!["hi ".to_string(), "there ".to_string(), "you ".to_string()]
    );
}

#[test]
fn wrap_collapses_whitespace_runs() {
    let lines = wrap_text("  a \t  b  ", 10);
    assert_eq!(lines, vec!["a b ".to_string()]);
}

#[test]
fn wrap_concatenation_preserves_words() {
    let input = "the quick brown fox jumps over the lazy dog";
    let lines = wrap_text(input, 10);
    let rejoined: Vec<String> = lines.concat().split_whitespace().map(|w| w.to_string()).collect();
    let expected: Vec<String> = input.split_whitespace().map(|w| w.to_string()).collect();
    assert_eq!(rejoined, expected);
    for line in &lines {
        // No line exceeds the limit unless it holds one over-long word.
        if line.trim_end().split_whitespace().count() > 1 {
            assert!(line.len() <= 10);
        }
    }
}

#[test]
fn wrap_at_zero_flushes_every_word() {
    // Every word exceeds a zero limit, so each flush happens immediately:
    // first the empty accumulated line, then one line per word.
    let lines = wrap_text("a b", 0);
    assert_eq!(lines, vec!["".to_string(), "a ".to_string(), "b ".to_string()]);
}

#[test]
fn split_words_basic() {
    let words = split_words(" a  bb\tccc ");
    assert_eq!(
        words,
        vec!["a".to_string(), "bb".to_string(), "ccc".to_string()]
    );
}

#[test]
fn split_words_empty() {
    assert!(split_words("").is_empty());
}

#[test]
fn is_space_recognizes_separators() {
    assert!(is_space(' '));
    assert!(is_space('\t'));
    assert!(is_space('\n'));
    assert!(is_space('\r'));
    assert!(!is_space('a'));
    assert!(!is_space('0'));
}

#[test]
fn max_line_len_basic() {
    let lines = vec!["a ".to_string(), "bb ".to_string(), "".to_string()];
    assert_eq!(get_max_line_len(&lines), 3);
}

#[test]
fn max_line_len_empty() {
    let lines: Vec<String> = Vec::new();
    assert_eq!(get_max_line_len(&lines), 0);
}
