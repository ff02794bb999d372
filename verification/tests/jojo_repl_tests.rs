use cicada::jojo_repl::{bar_ket_check, BalanceResult};

#[test]
fn balanced_and_open_code() {
    assert_eq!(bar_ket_check("(a [b] {c})"), Ok(BalanceResult::Balanced));
    assert_eq!(bar_ket_check(""), Ok(BalanceResult::Balanced));
    assert_eq!(bar_ket_check("(a (b"), Ok(BalanceResult::ToBeBalanced));
    assert_eq!(bar_ket_check("\"abc"), Ok(BalanceResult::ToBeBalanced));
}

#[test]
fn brackets_in_strings_do_not_count() {
    assert_eq!(bar_ket_check("(print \")]}\")"), Ok(BalanceResult::Balanced));
    assert_eq!(bar_ket_check("\"(\""), Ok(BalanceResult::Balanced));
}

#[test]
fn closing_with_nothing_open() {
    assert_eq!(bar_ket_check("a)"), Err("\n- bar_ket_check fail\n  no bar\n  ket : )\n".to_string()));
}

#[test]
fn closing_the_wrong_bracket() {
    assert_eq!(bar_ket_check("(a]"), Err("\n- bar_ket_check fail\n  bar : (\n  ket : ]\n".to_string()));
    assert_eq!(bar_ket_check("{[}"), Err("\n- bar_ket_check fail\n  bar : [\n  ket : }\n".to_string()));
}
