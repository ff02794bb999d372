use std::sync::Arc;
use cicada::eopl::{exp_vec_from_str, exp_from_mexp, parse_isize, Env, Exp, Val};
use cicada::error_report::Span;
use cicada::mexp_syntax::SyntaxTable;

const EXAMPLE_CODE: &'static str = "
1
2
3

diff (2 1)
diff (3 1)

zero-p (1)
zero-p (0)

if { zero-p (1)
  0
  666
}

let {
  y = 5
  diff (x y)
}

let {
  y = diff (x 3)
  if { zero-p (y)
    0
    666
  }
}
";

fn num(n: isize) -> Arc<Exp> {
    Arc::new(Exp::Const { num: n })
}

fn var(v: &str) -> Arc<Exp> {
    Arc::new(Exp::Var { var: v.to_string() })
}

#[test]
fn test_exp_vec_from_str() {
    let input = EXAMPLE_CODE;
    let exp_vec = exp_vec_from_str(input).unwrap();
    for exp in &exp_vec {
        println!("- exp = {:?}", exp);
    }
    assert_eq!(exp_vec.len(), 10);
    assert_eq!(exp_vec[0], Exp::Const { num: 1 });
    assert_eq!(exp_vec[3], Exp::Diff { exp1: num(2), exp2: num(1) });
    assert_eq!(exp_vec[5], Exp::ZeroP { exp1: num(1) });
    assert_eq!(exp_vec[7], Exp::If {
        exp1: Arc::new(Exp::ZeroP { exp1: num(1) }),
        exp2: num(0),
        exp3: num(666),
    });
    assert_eq!(exp_vec[8], Exp::Let {
        var: "y".to_string(),
        exp1: num(5),
        body: Arc::new(Exp::Diff { exp1: var("x"), exp2: var("y") }),
    });
}

#[test]
fn test_env_eval() {
    let input = EXAMPLE_CODE;
    let env = Env::Null {};
    let env = Env::Cons { var: "x".to_string(), val: Val::Num { num: 6 }, rest: Arc::new(env) };
    let exp_vec = exp_vec_from_str(input).unwrap();
    let mut vals = Vec::new();
    for exp in &exp_vec {
        let val = env.eval(exp);
        println!("> {:?}\n{:?}", exp, val);
        vals.push(val);
    }
    assert_eq!(vals, vec![
        Val::Num { num: 1 },
        Val::Num { num: 2 },
        Val::Num { num: 3 },
        Val::Num { num: 1 },
        Val::Num { num: 2 },
        Val::Bool { boolean: false },
        Val::Bool { boolean: true },
        Val::Num { num: 666 },
        Val::Num { num: 1 },
        Val::Num { num: 666 },
    ]);
}

#[test]
fn parse_isize_follows_std() {
    for text in ["0", "42", "-7", "+7", "", "-", "+", "1a", " 1", "+-1", "9223372036854775807",
        "-9223372036854775808", "9223372036854775808", "-9223372036854775809", "00012"] {
        assert_eq!(parse_isize(text), text.parse::<isize>().ok(), "text = {:?}", text);
    }
}

#[test]
fn symbols_that_are_numbers_become_constants() {
    let table = SyntaxTable::default();
    let mut mexps = table.parse("-12 x1").unwrap();
    let second = mexps.pop().unwrap();
    let first = mexps.pop().unwrap();
    assert_eq!(exp_from_mexp(first).unwrap(), Exp::Const { num: -12 });
    assert_eq!(exp_from_mexp(second).unwrap(), Exp::Var { var: "x1".to_string() });
}

#[test]
fn wrong_arity_is_reported_at_the_argument() {
    let err = exp_vec_from_str("zero-p (1 2)").unwrap_err();
    let expected = cicada::error_report::ErrorInCtx::new()
        .head("wrong arity of `zero-p`")
        .line("the arity should be 1")
        .span(Span { lo: 7, hi: 12 });
    assert_eq!(err, expected);
}

#[test]
fn unknown_apply_is_reported_at_the_application() {
    let err = exp_vec_from_str("foo (1)").unwrap_err();
    let expected = cicada::error_report::ErrorInCtx::new()
        .head("unknown apply")
        .span(Span { lo: 0, hi: 7 });
    assert_eq!(err, expected);
}

#[test]
fn let_binds_before_the_environment() {
    let env = Env::Cons { var: "y".to_string(), val: Val::Num { num: 1 }, rest: Arc::new(Env::Null {}) };
    let exp_vec = exp_vec_from_str("let { y = 10 diff (y 3) }").unwrap();
    assert_eq!(env.eval(&exp_vec[0]), Val::Num { num: 7 });
}
