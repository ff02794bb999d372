use cicada::error_report::{ErrorCtx, ErrorInCtx, ErrorMsg, Span};

const EXAMPLE_INPUT: &'static str = "\
list-t : type-tt
list-t = union (null-t cons-t) {
  t : type-tt
}

null-t : type-tt
null-t = data {
  t : type-tt
}

cons-t : type-tt
cons-t = data {
  t : type-tt
  car : t
  cdr : list-t (t)
}
";

#[test]
fn test_report() {
    let input = EXAMPLE_INPUT;
    let error = ErrorInCtx::new()
        .head("no worry")
        .line("this is just a testing error")
        .span(Span { lo: 84, hi: 115 })
        .info(ErrorMsg::new()
            .line("x = x")
            .line("y = y")
            .line("显然成立"))
        .note(ErrorMsg::new()
            .line("打雷要下雨 雷欧")
            .line("下雨要打伞 雷欧"))
        .note(ErrorMsg::new()
            .line("不知道的奥秘万万千千 智慧简单又不简单"));
    let ctx = ErrorCtx::new().source("fn test_report").body(input);
    assert!(ctx.report_fits(Span { lo: 84, hi: 115 }));
    let text = error.report(ctx);
    println!("{}", text);
    assert_eq!(text, EXPECTED_REPORT);
}

const EXPECTED_REPORT: &'static str = "- \x1b[31merror\x1b[0m - no worry\n  this is just a testing error\n- \x1b[35minfo\x1b[0m -\n  x = x\n  y = y\n  显然成立\n- \x1b[34mcontext\x1b[0m - fn test_report\n\x1b[34m   4 | \x1b[0m}\n\x1b[34m   5 | \x1b[0m\n\x1b[34m   6 | \x1b[0mnull-t : type-tt\n\x1b[34m   7 | \x1b[0m\x1b[7mnull-t = data {\x1b[0m\n\x1b[34m   8 | \x1b[0m\x1b[7m  t : type-tt\x1b[0m\n\x1b[34m   9 | \x1b[0m\x1b[7m}\x1b[0m\n\x1b[34m  10 | \x1b[0m\n\x1b[34m  11 | \x1b[0mcons-t : type-tt\n\x1b[34m  12 | \x1b[0mcons-t = data {\n- \x1b[36mnote\x1b[0m -\n  打雷要下雨 雷欧\n  下雨要打伞 雷欧\n- \x1b[36mnote\x1b[0m -\n  不知道的奥秘万万千千 智慧简单又不简单\n\n";

#[test]
fn message_report_without_head_starts_with_a_dash() {
    let msg = ErrorMsg::new().line("a").line("b");
    assert_eq!(msg.report(), "-\n  a\n  b\n");
    assert_eq!(ErrorMsg::new().head("h").report(), "- h\n");
}

#[test]
fn context_report_marks_the_span_within_a_line() {
    let ctx = ErrorCtx::new().body("ab\ncdef\ngh");
    let text = ctx.report(Span { lo: 4, hi: 6 });
    assert_eq!(text, "- \x1b[34mcontext\x1b[0m - \n\x1b[34m  1 | \x1b[0mab\n\x1b[34m  2 | \x1b[0mc\x1b[7mde\x1b[0mf\n\x1b[34m  3 | \x1b[0mgh\n");
}

#[test]
fn report_fits_refuses_a_cut_inside_a_character() {
    let ctx = ErrorCtx::new().body("子游");
    assert!(!ctx.report_fits(Span { lo: 1, hi: 3 }));
    assert!(ctx.report_fits(Span { lo: 3, hi: 6 }));
    assert!(!ctx.report_fits(Span { lo: 3, hi: 2 }));
}

#[test]
fn context_report_without_body_is_its_head() {
    let ctx = ErrorCtx::new().source("src");
    assert_eq!(ctx.report(Span { lo: 0, hi: 1 }), "- \x1b[34mcontext\x1b[0m - src\n");
}

#[test]
fn focus_keeps_three_lines_each_side() {
    let lines: Vec<&str> = vec!["0", "1", "2", "3", "4", "5", "6", "7", "8", "9"];
    let focus = ErrorCtx::new().focus(lines, Span { lo: 10, hi: 11 }, 3);
    let picked: Vec<usize> = focus.iter().map(|e| e.0).collect();
    assert_eq!(picked, vec![2, 3, 4, 5, 6, 7, 8]);
    assert_eq!(focus[3], (5, "5", Some(Span { lo: 0, hi: 1 })));
}
