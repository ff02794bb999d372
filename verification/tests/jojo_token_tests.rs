use cicada::jojo_token::{split_to_word_vec, try_split_to_word_vec, WordVec, str_word_p, sym_word_p};

#[test]
fn test_split_to_word_vec() {
    assert_eq!(split_to_word_vec(""), WordVec::new());
    assert_eq!(split_to_word_vec("a b c"), vec!["a", "b", "c"]);
    assert_eq!(split_to_word_vec("a, b, c,"), vec!["a", "b", "c"]);
    assert_eq!(split_to_word_vec("(a b c)"), vec!["(", "a", "b", "c", ")"]);
    assert_eq!(split_to_word_vec("(a (b) c)"), vec!["(", "a", "(", "b", ")", "c", ")"]);
    assert_eq!(split_to_word_vec("(\"a\" (b) c)"), vec!["(", "\"a\"", "(", "b", ")", "c", ")"]);
    assert_eq!(split_to_word_vec("(\"a\" (b) c) ;;;; 123"), vec!["(", "\"a\"", "(", "b", ")", "c", ")"]);
    assert_eq!(split_to_word_vec("'(a b c)"), vec!["'", "(", "a", "b", "c", ")"]);
    assert_eq!(split_to_word_vec("~@(a b c)"), vec!["~@", "(", "a", "b", "c", ")"]);
}

#[test]
fn split_keeps_comment_out_and_next_line_in() {
    assert_eq!(split_to_word_vec("a ; comment\nb"), vec!["a", "b"]);
}

#[test]
fn split_tilde_word_stops_at_letters() {
    assert_eq!(split_to_word_vec("~x"), vec!["~", "x"]);
}

#[test]
fn word_predicates() {
    assert!(str_word_p("\"a\""));
    assert!(str_word_p("\"\""));
    assert!(!str_word_p("\""));
    assert!(!str_word_p("a\""));
    assert!(sym_word_p("a"));
    assert!(!sym_word_p(""));
}

#[test]
fn unclosed_doublequote_gives_no_words() {
    assert_eq!(try_split_to_word_vec("(\"a b)"), None);
    assert_eq!(try_split_to_word_vec("\"a\" b"), Some(vec!["\"a\"".to_string(), "b".to_string()]));
}
