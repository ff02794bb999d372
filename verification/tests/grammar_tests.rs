use cicada::grammar::{Generation, Grammar, Rule, StepResult, Token};

fn example_grammar() -> Grammar {
    Grammar::new()
        .rule(Rule::new()
              .var("Start")
              .choice().var("Sentence"))
        .rule(Rule::new()
              .var("Sentence")
              .choice().var("Name")
              .choice()
                  .var("List")
                  .chars(" and ")
                  .var("Name"))
        .rule(Rule::new()
              .var("Name")
              .choice().chars("tom")
              .choice().chars("dick")
              .choice().chars("harry"))
        .rule(Rule::new()
              .var("List")
              .choice().var("Name")
              .choice()
                  .var("Name")
                  .chars(", ")
                  .var("List"))
}

fn next_sentence(generation: &mut Generation) -> Option<String> {
    generation.next_sentence()
}

#[test]
fn test_next_sentence() {
    let mut generation = Generation::new(example_grammar(), "Start");
    for _ in 0..1000 {
        let sentence = next_sentence(&mut generation);
        assert!(sentence.is_some());
    }
}

#[test]
fn sentences_come_breadth_first() {
    let mut generation = Generation::new(example_grammar(), "Start");
    assert_eq!(next_sentence(&mut generation), Some("tom".to_string()));
    assert_eq!(next_sentence(&mut generation), Some("dick".to_string()));
    assert_eq!(next_sentence(&mut generation), Some("harry".to_string()));
    assert_eq!(next_sentence(&mut generation), Some("tom and tom".to_string()));
}

#[test]
fn first_steps_rewrite_the_start_variable() {
    let mut generation = Generation::new(example_grammar(), "Start");
    assert!(!generation.finished_p());
    assert!(matches!(generation.step(), StepResult::NonSentence));
    assert!(matches!(generation.step(), StepResult::NonSentence));
    assert!(matches!(generation.step(), StepResult::NonSentence));
    assert!(matches!(generation.step(), StepResult::NonSentence));
    match generation.step() {
        StepResult::Sentence(s) => assert_eq!(s, "tom"),
        _ => panic!("a sentence was expected"),
    }
}

#[test]
fn a_grammar_without_rules_finishes() {
    let mut generation = Generation::new(Grammar::new(), "S");
    assert!(matches!(generation.step(), StepResult::NonSentence));
    assert!(generation.finished_p());
    assert!(matches!(generation.step(), StepResult::Finished));
}

#[test]
fn finite_language_is_generated_whole() {
    let grammar = Grammar::new()
        .rule(Rule::new().var("S").choice().chars("a").var("T").choice().chars("b"))
        .rule(Rule::new().var("T").choice().chars("c"));
    let mut generation = Generation::new(grammar, "S");
    assert_eq!(next_sentence(&mut generation), Some("b".to_string()));
    assert_eq!(next_sentence(&mut generation), Some("ac".to_string()));
    assert_eq!(next_sentence(&mut generation), None);
}

#[test]
fn rule_builders_fill_left_side_then_alternatives() {
    let rule = Rule::new().var("A").chars("x").choice().chars("yz").var("B").choice();
    assert_eq!(rule.ante, vec![Token::Var("A".to_string()), Token::Char('x')]);
    assert_eq!(rule.succ, vec![
        vec![Token::Char('y'), Token::Char('z'), Token::Var("B".to_string())],
        vec![],
    ]);
    assert!(rule.ante[0].var_p());
    assert!(rule.ante[1].str_p());
    assert_eq!(Token::new_chars("ab"), vec![Token::Char('a'), Token::Char('b')]);
    assert_eq!(Token::new_var("N"), Token::Var("N".to_string()));
}

#[test]
fn a_variable_in_a_sentence_form_prints_in_braces() {
    let grammar = Grammar::new().rule(Rule::new().var("S").choice().chars("a").var("S"));
    let mut generation = Generation::new(grammar, "S");
    assert!(matches!(generation.step(), StepResult::NonSentence));
    assert!(matches!(generation.step(), StepResult::NonSentence));
    assert!(!generation.finished_p());
}
