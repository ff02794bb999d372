use cicada::lexing::token_vec_eq;
use cicada::error_report::Span;
use cicada::mexp::Mexp;
use cicada::mexp_syntax::SyntaxTable;

fn assert_parse_mexp_sentence(sentence: &str) {
    let syntax_table = SyntaxTable::default();
    let mut mexp_vec = syntax_table.parse(sentence).unwrap();
    assert!(mexp_vec.len() == 1);
    let mexp = mexp_vec.pop().unwrap();
    let text = mexp.to_string();
    if !token_vec_eq(
        &syntax_table.char_table.lex(&text).unwrap(),
        &syntax_table.char_table.lex(sentence).unwrap(),
    ) {
        panic!("assert_parse_mexp_sentence: result = {}, assert = {}", text, sentence);
    }
}

fn assert_parse_mexp_to_tree_format(sentence: &str, tree_format: &str) {
    let syntax_table = SyntaxTable::default();
    let mut mexp_vec = syntax_table.parse(sentence).unwrap();
    assert!(mexp_vec.len() == 1);
    let mexp = mexp_vec.pop().unwrap();
    let tree = mexp.to_tree_format();
    if !token_vec_eq(
        &syntax_table.char_table.lex(&tree).unwrap(),
        &syntax_table.char_table.lex(tree_format).unwrap(),
    ) {
        panic!("assert_parse_mexp_to_tree_format: result = {}, assert = {}", tree, tree_format);
    }
}

#[test]
fn lib_test_parsing() {
    assert_parse_mexp_sentence(r#"
    a
    "#);

    assert_parse_mexp_sentence(r#"
    "b"
    "#);

    assert_parse_mexp_sentence(r#"
    '符'
    "#);

    assert_parse_mexp_sentence(r#"
    a.b.c
    "#);

    assert_parse_mexp_sentence(r#"
    [a b c]
    "#);

    assert_parse_mexp_sentence(r#"
    a (x)
    "#);

    assert_parse_mexp_sentence(r#"
    a.b.c (x y z)
    "#);

    assert_parse_mexp_sentence(r#"
    a.b.c {
      a : b
    } {
      a = b
      a = b
    }
    "#);

    assert_parse_mexp_sentence(r#"
    a = {
      a = b
    }
    "#);

    assert_parse_mexp_sentence(r#"
    a (x) = {
      a = b
    }
    "#);

    assert_parse_mexp_sentence(r#"
    -- a : t
       b : t
       c
    -> d
    "#);

    assert_parse_mexp_sentence(r#"
    nat-add (x y)
    "#);

    assert_parse_mexp_sentence(r#"
    [x y] : nat-t
    "#);

    assert_parse_mexp_sentence(r#"
    eqv-t (
       nat-add (x y)
       nat-add (y x))
    "#);

    assert_parse_mexp_sentence(r#"
    -- a -> b (c)
    "#);

    assert_parse_mexp_sentence(r#"
    -- a -> b ()
    "#);

    assert_parse_mexp_sentence(r#"
    nat-add-commutative :
      -- [x y] : nat-t
      -> eqv-t (
           nat-add (x y)
           nat-add (y x))
    "#);

    assert_parse_mexp_sentence(r#"
    nat-add-commutative (x y) = case (x) {
      zero-t => nat-add-zero-commutative (y)
      succ-t => eqv-compose (
        eqv-apply (succ-c nat-add-commutative (x.prev y))
        nat-add-succ-commutative (y x.prev))
    }
    "#);

    assert_parse_mexp_sentence(r#"
    data {
      t : type-tt
      car : t
      cdr : list-t (t)
    }
    "#);

    assert_parse_mexp_sentence(r#"
    cons-t = data {
      t : type-tt
      car : t
      cdr : list-t (t)
    }
    "#);

    assert_parse_mexp_sentence(r#"
    [
    mexp:str  = { quotation ('"') }
    mexp:char = { quotation ('\'') }
    mexp:sym  = { symbol? }
    mexp:dot   = { [ mexp:sym mexp:dot mexp:apply ] '.' mexp:sym }
    mexp:apply = { [ mexp:sym mexp:dot mexp:apply ] arg }
    mexp:array = { '[' list (mexp) ']' }
    mexp:arrow = { "--" list (mexp) "->" mexp }
    mexp:infix       = { mexp op? mexp }
    mexp:infix-apply = { mexp op? arg }

    arg:tuple = { '(' list (mexp) ')' }
    arg:block = { '{' list (mexp) '}' }

    list : -- Gr -> Gr
    list:null (t) = {}
    list:cons (t) = { t list (t) }
    ]
    "#);

    // > mexp:sym = { symbol? }
    assert_parse_mexp_sentence(r#"
    mexp:infix {
      mexp:sym { "mexp:sym" }
      "="
      arg:block {
        '{'
        list:cons (mexp) {
           mexp:sym { "symbol?" }
           list:null (mexp) {}
        }
        '}'
      }
    }
    "#);
}

#[test]
fn test_to_tree_format() {
    assert_parse_mexp_to_tree_format(
        r#"
        mexp:sym = { symbol? }
        "#,
        r#"
        mexp:infix-apply {
          mexp:sym { "mexp:sym" }
          "="
          arg:block {
            '{'
            list:cons (mexp) {
               mexp:sym { "symbol?" }
               list:null (mexp) {}
            }
            '}'
          }
        }
        "#);

    assert_parse_mexp_to_tree_format(
        r#"
        list-t = data {
          t : type-tt
        }
        "#,
        r#"
        mexp:infix {
          mexp:sym { "list-t" }
          "="
          mexp:apply {
            mexp:sym { "data" }
            arg:block {
              '{'
              list:cons (mexp) {
                mexp:infix {
                  mexp:sym { "t" }
                  ":"
                  mexp:sym { "type-tt" }
                }
                list:null (mexp) {}
              }
              '}'
            }
          }
        }
        "#);
}

#[test]
fn yoneda_test_mexp() {}

#[test]
fn prettify_indents_blocks_by_two_spaces() {
    assert_eq!(Mexp::prettify("a (x) = { a = b }").unwrap(), "a (x) = {\n  a = b\n}\n");
    assert_eq!(Mexp::prettify("a = { b = { c } }").unwrap(), "a = {\n  b = {\n    c\n  }\n}\n");
    assert_eq!(Mexp::prettify("f {} g").unwrap(), "f {}\ng\n");
}

#[test]
fn prettify_reports_an_unclosed_quotation() {
    assert!(Mexp::prettify("a \"b").is_err());
}

#[test]
fn pretty_tree_format_of_a_symbol() {
    let syntax_table = SyntaxTable::default();
    let mexp_vec = syntax_table.parse("a").unwrap();
    assert_eq!(mexp_vec[0].to_tree_format(), "mexp:sym { \"a\" }");
    assert_eq!(mexp_vec[0].to_pretty_tree_format(), "mexp:sym {\n  \"a\"\n}");
}

#[test]
fn to_string_joins_with_spaces() {
    let syntax_table = SyntaxTable::default();
    let mexp_vec = syntax_table.parse("a.b (x y)   [c  d]").unwrap();
    assert_eq!(mexp_vec.len(), 2);
    assert_eq!(mexp_vec[0].to_string(), "a.b (x y)");
    assert_eq!(mexp_vec[1].to_string(), "[c d]");
}

#[test]
fn operator_before_a_dot_takes_the_expression_before_it() {
    let syntax_table = SyntaxTable::default();
    let mexp_vec = syntax_table.parse("x a = .b").unwrap();
    assert_eq!(mexp_vec.len(), 1);
    assert_eq!(mexp_vec[0].to_string(), "x = a.b");
}

#[test]
fn printed_expressions_lex_to_the_tokens_read() {
    let syntax_table = SyntaxTable::default();
    let input = "f (x, y)   { a = b }\n[c \"d\" 'e']  -- g -> h";
    let mexp_vec = syntax_table.parse(input).unwrap();
    let text = cicada::mexp::mexp_vec_to_string(&mexp_vec);
    assert!(token_vec_eq(
        &syntax_table.char_table.lex(&text).unwrap(),
        &syntax_table.char_table.lex(input).unwrap(),
    ));
}

#[test]
fn infix_operators_group_from_the_left() {
    let table = SyntaxTable::default();
    let sym = |lo: usize, symbol: &'static str| Mexp::Sym { span: Span { lo, hi: lo + 1 }, symbol };
    let expected = vec![Mexp::Infix {
        span: Span { lo: 0, hi: 9 },
        op: "=",
        lhs: Box::new(Mexp::Infix { span: Span { lo: 0, hi: 5 }, op: "=", lhs: Box::new(sym(0, "a")), rhs: Box::new(sym(4, "b")) }),
        rhs: Box::new(sym(8, "c")),
    }];
    assert_eq!(table.parse("a = b = c"), Ok(expected));
}

#[test]
fn infix_operand_keeps_its_dots_and_arguments() {
    let table = SyntaxTable::default();
    let v = table.parse("x = f (y) : t").unwrap();
    assert_eq!(v.len(), 1);
    match &v[0] {
        Mexp::Infix { op, lhs, rhs, .. } => {
            assert_eq!(*op, ":");
            assert!(matches!(**rhs, Mexp::Sym { symbol: "t", .. }));
            match &**lhs {
                Mexp::Infix { op, rhs, .. } => {
                    assert_eq!(*op, "=");
                    assert!(matches!(**rhs, Mexp::Apply { .. }));
                },
                _ => panic!("left side is not an infix"),
            }
        },
        _ => panic!("not an infix"),
    }
}
