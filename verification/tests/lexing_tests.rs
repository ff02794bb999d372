use cicada::error_report::{ErrorInCtx, ErrorMsg, Span};
use cicada::lexing::{token_vec_eq, LexTable, Token};

#[test]
fn test_lexing() -> Result<(), ErrorInCtx> {
    let lex_table = LexTable::new()
        .quotation_mark('"')
        .space('\n').space('\t').space(' ')
        .char(';');
    let input = r#"aa "sss" c;"#;
    let token_vec = lex_table.lex(input)?;
    let mut iter = token_vec.iter();
    assert_eq!(iter.next().unwrap(), &Token::Word { span: Span { lo: 0, hi: 2 }, word: "aa" });
    assert_eq!(iter.next().unwrap(), &Token::Quotation {
        span: Span { lo: 3, hi: 8 },
        quotation_mark: '"',
        string: "sss",
    });
    assert_eq!(iter.next().unwrap(), &Token::Word { span: Span { lo: 9, hi: 10 }, word: "c" });
    assert_eq!(iter.next().unwrap(), &Token::Char { span: Span { lo: 10, hi: 11 }, ch: ';' });
    assert_eq!(iter.next(), None);
    Ok(())
}

#[test]
fn test_lexing_unicode() -> Result<(), ErrorInCtx> {
    let lex_table = LexTable::new()
        .space('\n').space('\t').space(' ')
        .char('「').char('」');
    let input = r#"子游曰「敢問其方」"#;
    let token_vec = lex_table.lex(input)?;
    let mut iter = token_vec.iter();
    assert!(if let Some(Token::Word { word, .. }) = iter.next() { word == &"子游曰" } else { false });
    assert!(if let Some(Token::Char { ch, .. }) = iter.next() { ch == &'「' } else { false });
    assert!(if let Some(Token::Word { word, .. }) = iter.next() { word == &"敢問其方" } else { false });
    assert!(if let Some(Token::Char { ch, .. }) = iter.next() { ch == &'」' } else { false });
    assert_eq!(iter.next(), None);
    Ok(())
}

#[test]
fn test_error() -> Result<(), ErrorInCtx> {
    let lex_table = LexTable::new()
        .quotation_mark('"')
        .space('\n').space('\t').space(' ')
        .char(';');
    let input = r#"aa "sss c;"#;
    assert!(if let Err(error) = lex_table.lex(input) {
        let _error = error.note(ErrorMsg::new().head("no worry").line("this is just a testing error"));
        true
    } else {
        false
    });
    Ok(())
}

#[test]
fn test_escape() -> Result<(), ErrorInCtx> {
    let lex_table = LexTable::new()
        .quotation_mark('"')
        .space('\n').space('\t').space(' ')
        .char(';');
    let input = r#"aa "s\"" c;"#;
    let token_vec = lex_table.lex(input)?;
    let mut iter = token_vec.iter();
    assert_eq!(iter.next().unwrap(), &Token::Word { span: Span { lo: 0, hi: 2 }, word: "aa" });
    assert_eq!(iter.next().unwrap(), &Token::Quotation {
        span: Span { lo: 3, hi: 8 },
        quotation_mark: '"',
        string: r#"s\""#,
    });
    assert_eq!(iter.next().unwrap(), &Token::Word { span: Span { lo: 9, hi: 10 }, word: "c" });
    assert_eq!(iter.next().unwrap(), &Token::Char { span: Span { lo: 10, hi: 11 }, ch: ';' });
    assert_eq!(iter.next(), None);

    let lex_table = LexTable::new()
        .quotation_mark('"')
        .quotation_mark('\'')
        .space('\n').space('\t').space(' ');
    let input = r#"'\''"#;
    let token_vec = lex_table.lex(input)?;
    let mut iter = token_vec.iter();
    assert_eq!(iter.next().unwrap(), &Token::Quotation {
        span: Span { lo: 0, hi: 4 },
        quotation_mark: '\'',
        string: r#"\'"#,
    });
    assert_eq!(iter.next(), None);
    Ok(())
}

#[test]
fn test_equality() -> Result<(), ErrorInCtx> {
    let lex_table = LexTable::new()
        .quotation_mark('"')
        .space('\n').space('\t').space(' ')
        .char(';');
    assert!(token_vec_eq(
        &lex_table.lex(r#"aa    "sss" c;"#)?,
        &lex_table.lex(r#"aa "sss" c;"#)?,
    ));
    Ok(())
}

#[test]
fn unclosed_quotation_error_names_mark_and_span() {
    let lex_table = LexTable::new().quotation_mark('"').space(' ');
    let err = lex_table.lex("ab \"cd").unwrap_err();
    let expected = ErrorInCtx::new()
        .head("quotation-mark-mismatching")
        .line("quotation_mark = '\"'")
        .span(Span { lo: 3, hi: 6 });
    assert_eq!(err, expected);
}

#[test]
fn line_comment_word_drops_rest_of_line() {
    let lex_table = LexTable::new().space(' ').space('\n').line_comment_word("//");
    let tokens = lex_table.lex("a // b c\nd").unwrap();
    assert_eq!(tokens, vec![
        Token::Word { span: Span { lo: 0, hi: 1 }, word: "a" },
        Token::Word { span: Span { lo: 9, hi: 10 }, word: "d" },
    ]);
}
