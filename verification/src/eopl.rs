use vstd::prelude::*;
use std::sync::Arc;
use crate::dict::share;
use crate::error_report::{Span, ErrorInCtx, ErrorInCtxView, ErrorMsg, ErrorMsgView};
use crate::lexing::{lex_from, is_unclosed_error};
use crate::mexp::{Mexp, MexpArg, MexpView, ArgView, mexps_view, mexp_view, mexp_view_span,
    lemma_mexps_view_len, lemma_mexps_view_index, lemma_mexps_view_push};
use crate::mexp_syntax::{SyntaxTable, Step, error_view, parse_tokens, parse_panics, default_table,
    default_ops, mexp_lex_table, reverse_vec};
use crate::text::{byte_len, chars_of, string_from, str_eq};

verus! {

/// The value of a string of decimal digits.
pub open spec fn digits_value(ds: Seq<char>) -> int
    decreases ds.len(),
{
    if ds.len() == 0 {
        0
    } else {
        digits_value(ds.drop_last()) * 10 + (ds.last() as int - '0' as int)
    }
}

/// Whether every character is a decimal digit.
pub open spec fn all_digits(ds: Seq<char>) -> bool {
    forall|i: int| 0 <= i < ds.len() ==> '0' <= #[trigger] ds[i] <= '9'
}

/// The number `str::parse::<isize>` reads from `s`: an optional `+` or `-`
/// and then one or more decimal digits, with a value that fits in `isize`.
pub open spec fn isize_text_value(s: Seq<char>) -> Option<int> {
    let neg = s.len() > 0 && s[0] == '-';
    let ds = if s.len() > 0 && (s[0] == '-' || s[0] == '+') { s.drop_first() } else { s };
    let v = if neg { -digits_value(ds) } else { digits_value(ds) };
    if ds.len() > 0 && all_digits(ds) && isize::MIN <= v <= isize::MAX {
        Some(v)
    } else {
        None
    }
}

proof fn lemma_digits_value_nonneg(ds: Seq<char>)
    requires
        all_digits(ds),
    ensures
        0 <= digits_value(ds),
    decreases ds.len(),
{
    if ds.len() > 0 {
        assert(all_digits(ds.drop_last())) by {
            assert forall|i: int| 0 <= i < ds.drop_last().len() implies '0' <= #[trigger] ds.drop_last()[i] <= '9' by {
                assert(ds.drop_last()[i] == ds[i]);
            }
        }
        lemma_digits_value_nonneg(ds.drop_last());
        assert('0' <= ds[ds.len() - 1] <= '9');
    }
}

proof fn lemma_digits_value_mono(ds: Seq<char>, k: int)
    requires
        all_digits(ds),
        0 <= k <= ds.len(),
    ensures
        digits_value(ds.take(k)) <= digits_value(ds),
    decreases ds.len() - k,
{
    if k < ds.len() {
        let a = ds.take(k);
        let b = ds.take(k + 1);
        assert(b.drop_last() =~= a);
        assert(all_digits(a)) by {
            assert forall|i: int| 0 <= i < a.len() implies '0' <= #[trigger] a[i] <= '9' by {
                assert(a[i] == ds[i]);
            }
        }
        lemma_digits_value_nonneg(a);
        assert(b.last() == ds[k]);
        assert('0' <= ds[k] <= '9');
        lemma_digits_value_mono(ds, k + 1);
    } else {
        assert(ds.take(k) =~= ds);
    }
}

/// The number that `s` is the text of, as `str::parse::<isize>` reads it.
pub fn parse_isize(s: &str) -> (r: Option<isize>)
    ensures
        match isize_text_value(s@) {
            Some(v) => r == Some(v as isize),
            None => r is None,
        },
{
    let cs = chars_of(s);
    let n = cs.len();
    let mut i: usize = 0;
    let mut neg = false;
    if n > 0 && (cs[0] == '-' || cs[0] == '+') {
        neg = cs[0] == '-';
        i = 1;
    }
    let start = i;
    let ghost ds = cs@.skip(start as int);
    proof {
        assert(ds =~= (if cs@.len() > 0 && (cs@[0] == '-' || cs@[0] == '+') { cs@.drop_first() } else { cs@ }));
    }
    if i == n {
        return None;
    }
    let bound: i128 = isize::MAX as i128 + 1;
    let mut acc: i128 = 0;
    proof {
        assert(ds.take(0) =~= Seq::<char>::empty());
    }
    while i < n
        invariant
            start <= i <= n,
            n == cs@.len(),
            cs@ == s@,
            ds == cs@.skip(start as int),
            ds == (if s@.len() > 0 && (s@[0] == '-' || s@[0] == '+') { s@.drop_first() } else { s@ }),
            neg == (s@.len() > 0 && s@[0] == '-'),
            bound == isize::MAX + 1,
            acc == digits_value(ds.take(i - start)),
            0 <= acc <= bound,
            all_digits(ds.take(i - start)),
        decreases n - i,
    {
        let c = cs[i];
        if !('0' <= c && c <= '9') {
            proof {
                assert(ds[i - start] == c);
                assert(!all_digits(ds)) by {
                    assert(!('0' <= ds[i - start] <= '9'));
                }
            }
            return None;
        }
        let d = (c as u32 - '0' as u32) as i128;
        proof {
            let a = ds.take(i - start);
            let b = ds.take(i - start + 1);
            assert(b.drop_last() =~= a);
            assert(b.last() == c);
            assert(all_digits(b)) by {
                assert forall|j: int| 0 <= j < b.len() implies '0' <= #[trigger] b[j] <= '9' by {
                    if j < a.len() {
                        assert(b[j] == a[j]);
                    }
                }
            }
        }
        if acc > bound / 10 {
            proof {
                let b = ds.take(i - start + 1);
                assert(digits_value(b) == acc * 10 + d);
                assert(acc * 10 + d > bound) by (nonlinear_arith)
                    requires acc > bound / 10, d >= 0, bound > 0;
                if all_digits(ds) {
                    lemma_digits_value_mono(ds, i - start + 1);
                }
                assert(isize::MIN == -(isize::MAX + 1));
            }
            return None;
        }
        acc = acc * 10 + d;
        if acc > bound {
            proof {
                if all_digits(ds) {
                    lemma_digits_value_mono(ds, i - start + 1);
                }
                assert(isize::MIN == -(isize::MAX + 1));
            }
            return None;
        }
        i = i + 1;
    }
    proof {
        assert(ds.take(n - start) =~= ds);
    }
    if neg {
        let v = -acc;
        proof {
            assert(isize::MIN == -(isize::MAX + 1));
        }
        Some(v as isize)
    } else {
        if acc > isize::MAX as i128 {
            return None;
        }
        Some(acc as isize)
    }
}

/// A name of the expression language.
pub type Var = String;

/// An expression of the LET language.
#[derive(Debug, PartialEq)]
pub enum Exp {
    Const { num: isize },
    ZeroP { exp1: Arc<Exp> },
    If { exp1: Arc<Exp>, exp2: Arc<Exp>, exp3: Arc<Exp> },
    Diff { exp1: Arc<Exp>, exp2: Arc<Exp> },
    Var { var: Var },
    Let { var: Var, exp1: Arc<Exp>, body: Arc<Exp> },
}

/// What an expression says, its names as characters.
pub enum ExpView {
    Const { num: isize },
    ZeroP { exp1: Box<ExpView> },
    If { exp1: Box<ExpView>, exp2: Box<ExpView>, exp3: Box<ExpView> },
    Diff { exp1: Box<ExpView>, exp2: Box<ExpView> },
    Var { var: Seq<char> },
    Let { var: Seq<char>, exp1: Box<ExpView>, body: Box<ExpView> },
}

/// The view of an expression.
pub open spec fn exp_view(e: Exp) -> ExpView
    decreases e,
{
    match e {
        Exp::Const { num } => ExpView::Const { num },
        Exp::ZeroP { exp1 } => ExpView::ZeroP { exp1: Box::new(exp_view(*exp1)) },
        Exp::If { exp1, exp2, exp3 } => ExpView::If {
            exp1: Box::new(exp_view(*exp1)),
            exp2: Box::new(exp_view(*exp2)),
            exp3: Box::new(exp_view(*exp3)),
        },
        Exp::Diff { exp1, exp2 } => ExpView::Diff { exp1: Box::new(exp_view(*exp1)), exp2: Box::new(exp_view(*exp2)) },
        Exp::Var { var } => ExpView::Var { var: var@ },
        Exp::Let { var, exp1, body } => ExpView::Let {
            var: var@,
            exp1: Box::new(exp_view(*exp1)),
            body: Box::new(exp_view(*body)),
        },
    }
}

impl View for Exp {
    type V = ExpView;

    open spec fn view(&self) -> ExpView {
        exp_view(*self)
    }
}

/// The views of a list of expressions.
pub open spec fn exps_view(v: Seq<Exp>) -> Seq<ExpView> {
    v.map_values(|e: Exp| e@)
}

/// The note on the M-expression syntax of expressions.
pub open spec fn exp_syntax_note() -> ErrorMsgView {
    ErrorMsgView {
        head: Some("mexp syntax of <Exp>"@),
        lines: seq![
            "<Exp::Const> = num?"@,
            "<Exp::ZeroP> = zero-p (<Exp>)"@,
            "<Exp::If> = if { <Exp> <Exp> <Exp> }"@,
            "<Exp::Diff> = diff (<Exp> <Exp>)"@,
            "<Exp::Var> = <Var>"@,
            "<Exp::Let> = let { <Var> = <Exp> <Exp> }"@,
        ],
    }
}

fn note_about_mexp_syntax_of_exp() -> (m: ErrorMsg)
    ensures
        m@ == exp_syntax_note(),
{
    let m = ErrorMsg::new()
        .head("mexp syntax of <Exp>")
        .line("<Exp::Const> = num?")
        .line("<Exp::ZeroP> = zero-p (<Exp>)")
        .line("<Exp::If> = if { <Exp> <Exp> <Exp> }")
        .line("<Exp::Diff> = diff (<Exp> <Exp>)")
        .line("<Exp::Var> = <Var>")
        .line("<Exp::Let> = let { <Var> = <Exp> <Exp> }");
    proof {
        assert(m@.lines =~= exp_syntax_note().lines);
    }
    m
}

/// Whether the symbol is the text of a number.
fn num_symbol_p(symbol: &str) -> (r: bool)
    ensures
        r == isize_text_value(symbol@) is Some,
{
    parse_isize(symbol).is_some()
}

/// Whether the symbol names a variable: it is no number.
fn var_symbol_p(symbol: &str) -> (r: bool)
    ensures
        r == isize_text_value(symbol@) is None,
{
    !num_symbol_p(symbol)
}

/// The expression a symbol stands for: a number, or else a variable.
pub open spec fn sym_exp(symbol: Seq<char>) -> ExpView {
    match isize_text_value(symbol) {
        Some(v) => ExpView::Const { num: v as isize },
        None => ExpView::Var { var: symbol },
    }
}

/// The error of a body of the wrong length or shape.
pub open spec fn syntax_error(head: Seq<char>, line: Seq<char>, span: Span) -> ErrorInCtxView {
    error_view(head, seq![line], Seq::empty(), Some(span))
}

/// Whether the head of an application is the symbol `s`.
pub open spec fn head_is(head: MexpView, s: Seq<char>) -> bool {
    head matches MexpView::Sym { symbol, .. } && symbol == s
}

/// The expression an M-expression stands for, or the first error in it.
pub open spec fn exp_of(m: MexpView) -> Result<ExpView, ErrorInCtxView>
    decreases m,
{
    match m {
        MexpView::Sym { symbol, .. } => Ok(sym_exp(symbol)),
        MexpView::Apply { span: apply_span, head, arg } => {
            match arg {
                ArgView::Tuple { span: arg_span, body } => {
                    if head_is(*head, "zero-p"@) {
                        if body.len() == 1 {
                            match exp_of(body[0]) {
                                Ok(e1) => Ok(ExpView::ZeroP { exp1: Box::new(e1) }),
                                Err(e) => Err(e),
                            }
                        } else {
                            Err(syntax_error("wrong arity of `zero-p`"@, "the arity should be 1"@, arg_span))
                        }
                    } else if head_is(*head, "diff"@) {
                        if body.len() == 2 {
                            match exp_of(body[1]) {
                                Err(e) => Err(e),
                                Ok(e2) => match exp_of(body[0]) {
                                    Err(e) => Err(e),
                                    Ok(e1) => Ok(ExpView::Diff { exp1: Box::new(e1), exp2: Box::new(e2) }),
                                },
                            }
                        } else {
                            Err(syntax_error("wrong arity of `diff`"@, "the arity should be 2"@, arg_span))
                        }
                    } else {
                        Err(error_view("unknown apply"@, Seq::empty(), Seq::empty(), Some(apply_span)))
                    }
                },
                ArgView::Block { span: arg_span, body } => {
                    if head_is(*head, "if"@) {
                        if body.len() == 3 {
                            match exp_of(body[2]) {
                                Err(e) => Err(e),
                                Ok(e3) => match exp_of(body[1]) {
                                    Err(e) => Err(e),
                                    Ok(e2) => match exp_of(body[0]) {
                                        Err(e) => Err(e),
                                        Ok(e1) => Ok(ExpView::If { exp1: Box::new(e1), exp2: Box::new(e2), exp3: Box::new(e3) }),
                                    },
                                },
                            }
                        } else {
                            Err(syntax_error("syntax error in `if {}`"@, "there must be 3 <exp> in `{}`"@, arg_span))
                        }
                    } else if head_is(*head, "let"@) {
                        if body.len() == 2 {
                            match exp_of(body[1]) {
                                Err(e) => Err(e),
                                Ok(e2) => match body[0] {
                                    MexpView::Infix { op, lhs, rhs, .. } if op == "="@ => match *lhs {
                                        MexpView::Sym { symbol, .. } => match exp_of(*rhs) {
                                            Err(e) => Err(e),
                                            Ok(e1) => Ok(ExpView::Let { var: symbol, exp1: Box::new(e1), body: Box::new(e2) }),
                                        },
                                        _ => Err(syntax_error("syntax error in `let {}`"@,
                                            "the first <exp> in `{}` must be `<exp:var> = <exp>`"@, mexp_view_span(*lhs))),
                                    },
                                    _ => Err(syntax_error("syntax error in `let {}`"@,
                                        "the first <exp> in `{}` must be `<exp:var> = <exp>`"@, mexp_view_span(body[0]))),
                                },
                            }
                        } else {
                            Err(syntax_error("syntax error in `let {}`"@, "there must be 2 <exp> in `{}`"@, arg_span))
                        }
                    } else {
                        Err(error_view("unknown apply"@, Seq::empty(), Seq::empty(), Some(apply_span)))
                    }
                },
            }
        },
        _ => Err(error_view("unknown mexp"@, Seq::empty(), seq![exp_syntax_note()], Some(mexp_view_span(m)))),
    }
}

/// An `if` with a block reads as a conditional exactly when its block
/// holds three expressions that each read, in order: condition, then,
/// else.
pub proof fn law_if_block_reads_its_parts(span: Span, head: MexpView, arg_span: Span, body: Seq<MexpView>)
    requires
        head_is(head, "if"@),
    ensures
        ({
            let m = MexpView::Apply { span, head: Box::new(head), arg: ArgView::Block { span: arg_span, body } };
            &&& exp_of(m) is Ok <==> (body.len() == 3 && exp_of(body[0]) is Ok && exp_of(body[1]) is Ok && exp_of(body[2]) is Ok)
            &&& exp_of(m) is Ok ==> exp_of(m)->Ok_0 == (ExpView::If {
                exp1: Box::new(exp_of(body[0])->Ok_0),
                exp2: Box::new(exp_of(body[1])->Ok_0),
                exp3: Box::new(exp_of(body[2])->Ok_0),
            })
        }),
{
    reveal_strlit("if");
    reveal_strlit("let");
}

/// A `let` with a block reads as a binding exactly when its block holds
/// two expressions, the first `<var> = <exp>` whose right side reads, and
/// the second, its body, reads.
pub proof fn law_let_block_reads_its_parts(span: Span, head: MexpView, arg_span: Span, body: Seq<MexpView>)
    requires
        head_is(head, "let"@),
    ensures
        ({
            let m = MexpView::Apply { span, head: Box::new(head), arg: ArgView::Block { span: arg_span, body } };
            exp_of(m) is Ok <==> (body.len() == 2 && exp_of(body[1]) is Ok && (body[0] matches MexpView::Infix { op, lhs, rhs, .. }
                && op == "="@ && *lhs is Sym && exp_of(*rhs) is Ok))
        }),
{
    reveal_strlit("if");
    reveal_strlit("let");
    reveal_strlit("=");
    let m = MexpView::Apply { span, head: Box::new(head), arg: ArgView::Block { span: arg_span, body } };
    assert("let"@.len() == 3 && "if"@.len() == 2);
    assert(!head_is(head, "if"@));
    if body.len() == 2 {
        match body[0] {
            MexpView::Infix { op, lhs, rhs, .. } => {
                if op == "="@ {
                    match *lhs {
                        MexpView::Sym { .. } => {
                            assert(exp_of(m) is Ok <==> (exp_of(body[1]) is Ok && exp_of(*rhs) is Ok));
                        },
                        _ => {
                            assert(exp_of(m) is Err);
                        },
                    }
                } else {
                    assert(exp_of(m) is Err);
                }
            },
            _ => {
                assert(exp_of(m) is Err);
            },
        }
    }
}

fn syntax_error_in_ctx(head: &str, line: &str, span: Span) -> (e: ErrorInCtx)
    ensures
        e@ == syntax_error(head@, line@, span),
{
    let e = ErrorInCtx::new().head(head).line(line).span(span);
    proof {
        assert(e@.msg.lines =~= seq![line@]);
    }
    e
}

fn unknown_apply(span: Span) -> (e: ErrorInCtx)
    ensures
        e@ == error_view("unknown apply"@, Seq::empty(), Seq::empty(), Some(span)),
{
    ErrorInCtx::new().head("unknown apply").span(span)
}

fn head_is_sym<'a>(head: &Mexp<'a>, s: &str) -> (r: bool)
    ensures
        r == head_is(head@, s@),
{
    match head {
        Mexp::Sym { symbol, .. } => str_eq(symbol, s),
        _ => false,
    }
}

fn exp_from_sym_mexp<'a>(mexp: Mexp<'a>) -> (r: Result<Exp, ErrorInCtx>)
    requires
        mexp is Sym,
    ensures
        match exp_of(mexp@) {
            Ok(e) => r matches Ok(x) && x@ == e,
            Err(e) => r matches Err(x) && x@ == e,
        },
{
    if let Mexp::Sym { span: symbol_span, symbol } = mexp {
        if num_symbol_p(symbol) {
            let num = parse_isize(symbol).unwrap();
            Ok(Exp::Const { num })
        } else if var_symbol_p(symbol) {
            let var = string_from(symbol);
            Ok(Exp::Var { var })
        } else {
            ErrorInCtx::new().head("unknown symbol").span(symbol_span).wrap_in_err()
        }
    } else {
        ErrorInCtx::new().head("internal-error").line("exp_from_sym_mexp").wrap_in_err()
    }
}

fn exp_from_apply_tuple_arg<'a>(mexp: Mexp<'a>) -> (r: Result<Exp, ErrorInCtx>)
    requires
        mexp matches Mexp::Apply { arg: MexpArg::Tuple { .. }, .. },
    ensures
        match exp_of(mexp@) {
            Ok(e) => r matches Ok(x) && x@ == e,
            Err(e) => r matches Err(x) && x@ == e,
        },
    decreases mexp, 0nat,
{
    let ghost m0 = mexp;
    if let Mexp::Apply { span: apply_span, head, arg: MexpArg::Tuple { span: arg_span, body } } = mexp {
        let mut body = body;
        let ghost b0 = body@;
        proof {
            lemma_mexps_view_len(b0);
            assert(crate::mexp::arg_view(MexpArg::Tuple { span: arg_span, body })
                == ArgView::Tuple { span: arg_span, body: mexps_view(b0) });
            assert(m0@ == MexpView::Apply {
                span: apply_span,
                head: Box::new(head@),
                arg: ArgView::Tuple { span: arg_span, body: mexps_view(b0) },
            });
        }
        if head_is_sym(&head, "zero-p") {
            if body.len() == 1 {
                let mexp = body.pop().unwrap();
                proof {
                    assert(mexp == b0[0]);
                    lemma_mexps_view_index(b0, 0);
                    assert(decreases_to!(m0 => b0[0]));
                }
                let exp1 = match exp_from_mexp(mexp) {
                    Ok(e) => e,
                    Err(e) => {
                        return Err(e);
                    },
                };
                Ok(Exp::ZeroP { exp1: Arc::new(exp1) })
            } else {
                Err(syntax_error_in_ctx("wrong arity of `zero-p`", "the arity should be 1", arg_span))
            }
        } else if head_is_sym(&head, "diff") {
            if body.len() == 2 {
                let mexp = body.pop().unwrap();
                proof {
                    assert(mexp == b0[1]);
                    lemma_mexps_view_index(b0, 1);
                    assert(decreases_to!(m0 => b0[1]));
                }
                let exp2 = match exp_from_mexp(mexp) {
                    Ok(e) => e,
                    Err(e) => {
                        return Err(e);
                    },
                };
                let mexp = body.pop().unwrap();
                proof {
                    assert(mexp == b0[0]);
                    lemma_mexps_view_index(b0, 0);
                    assert(decreases_to!(m0 => b0[0]));
                }
                let exp1 = match exp_from_mexp(mexp) {
                    Ok(e) => e,
                    Err(e) => {
                        return Err(e);
                    },
                };
                Ok(Exp::Diff { exp1: Arc::new(exp1), exp2: Arc::new(exp2) })
            } else {
                Err(syntax_error_in_ctx("wrong arity of `diff`", "the arity should be 2", arg_span))
            }
        } else {
            Err(unknown_apply(apply_span))
        }
    } else {
        ErrorInCtx::new().head("internal-error").line("exp_from_apply_tuple_arg").wrap_in_err()
    }
}

fn exp_from_apply_block_arg<'a>(mexp: Mexp<'a>) -> (r: Result<Exp, ErrorInCtx>)
    requires
        mexp matches Mexp::Apply { arg: MexpArg::Block { .. }, .. },
    ensures
        match exp_of(mexp@) {
            Ok(e) => r matches Ok(x) && x@ == e,
            Err(e) => r matches Err(x) && x@ == e,
        },
    decreases mexp, 0nat,
{
    let ghost m0 = mexp;
    if let Mexp::Apply { span: apply_span, head, arg: MexpArg::Block { span: arg_span, body } } = mexp {
        let mut body = body;
        let ghost b0 = body@;
        proof {
            lemma_mexps_view_len(b0);
            assert(crate::mexp::arg_view(MexpArg::Block { span: arg_span, body })
                == ArgView::Block { span: arg_span, body: mexps_view(b0) });
            assert(m0@ == MexpView::Apply {
                span: apply_span,
                head: Box::new(head@),
                arg: ArgView::Block { span: arg_span, body: mexps_view(b0) },
            });
        }
        if head_is_sym(&head, "if") {
            if body.len() == 3 {
                let mexp = body.pop().unwrap();
                proof {
                    assert(mexp == b0[2]);
                    lemma_mexps_view_index(b0, 2);
                    assert(decreases_to!(m0 => b0[2]));
                }
                let exp3 = match exp_from_mexp(mexp) {
                    Ok(e) => e,
                    Err(e) => {
                        return Err(e);
                    },
                };
                let mexp = body.pop().unwrap();
                proof {
                    assert(mexp == b0[1]);
                    lemma_mexps_view_index(b0, 1);
                    assert(decreases_to!(m0 => b0[1]));
                }
                let exp2 = match exp_from_mexp(mexp) {
                    Ok(e) => e,
                    Err(e) => {
                        return Err(e);
                    },
                };
                let mexp = body.pop().unwrap();
                proof {
                    assert(mexp == b0[0]);
                    lemma_mexps_view_index(b0, 0);
                    assert(decreases_to!(m0 => b0[0]));
                }
                let exp1 = match exp_from_mexp(mexp) {
                    Ok(e) => e,
                    Err(e) => {
                        return Err(e);
                    },
                };
                Ok(Exp::If { exp1: Arc::new(exp1), exp2: Arc::new(exp2), exp3: Arc::new(exp3) })
            } else {
                Err(syntax_error_in_ctx("syntax error in `if {}`", "there must be 3 <exp> in `{}`", arg_span))
            }
        } else if head_is_sym(&head, "let") {
            if body.len() == 2 {
                let mexp = body.pop().unwrap();
                proof {
                    assert(mexp == b0[1]);
                    lemma_mexps_view_index(b0, 1);
                    assert(decreases_to!(m0 => b0[1]));
                }
                let exp2 = match exp_from_mexp(mexp) {
                    Ok(e) => e,
                    Err(e) => {
                        return Err(e);
                    },
                };
                let mexp = body.pop().unwrap();
                proof {
                    assert(mexp == b0[0]);
                    lemma_mexps_view_index(b0, 0);
                }
                let span0 = mexp.span();
                let ghost mx = mexp;
                match mexp {
                    Mexp::Infix { span: infix_span, op, lhs, rhs } => {
                        proof {
                            assert(mx@ == MexpView::Infix { span: infix_span, op: op@, lhs: Box::new(lhs@), rhs: Box::new(rhs@) });
                        }
                        if str_eq(op, "=") {
                            let ghost lx = *lhs;
                            match *lhs {
                                Mexp::Sym { span: sym_span, symbol } => {
                                    proof {
                                        assert(lx@ == MexpView::Sym { span: sym_span, symbol: symbol@ });
                                        assert(decreases_to!(m0 => b0[0]));
                                        assert(decreases_to!(b0[0] => *rhs));
                                    }
                                    let exp1 = match exp_from_mexp(*rhs) {
                                        Ok(e) => e,
                                        Err(e) => {
                                            return Err(e);
                                        },
                                    };
                                    Ok(Exp::Let { var: string_from(symbol), exp1: Arc::new(exp1), body: Arc::new(exp2) })
                                },
                                _ => {
                                    let lhs_span = lhs.span();
                                    Err(syntax_error_in_ctx(
                                        "syntax error in `let {}`",
                                        "the first <exp> in `{}` must be `<exp:var> = <exp>`",
                                        lhs_span))
                                },
                            }
                        } else {
                            Err(syntax_error_in_ctx(
                                "syntax error in `let {}`",
                                "the first <exp> in `{}` must be `<exp:var> = <exp>`",
                                span0))
                        }
                    },
                    _ => {
                        Err(syntax_error_in_ctx(
                            "syntax error in `let {}`",
                            "the first <exp> in `{}` must be `<exp:var> = <exp>`",
                            span0))
                    },
                }
            } else {
                Err(syntax_error_in_ctx("syntax error in `let {}`", "there must be 2 <exp> in `{}`", arg_span))
            }
        } else {
            Err(unknown_apply(apply_span))
        }
    } else {
        ErrorInCtx::new().head("internal-error").line("exp_from_apply_block_arg").wrap_in_err()
    }
}

/// The expression an M-expression stands for: a number or a variable for
/// a symbol; `zero-p (e)` and `diff (e1 e2)`; `if { e1 e2 e3 }` and
/// `let { x = e1 e2 }`; or the error of the first part that is none of
/// these.
pub fn exp_from_mexp<'a>(mexp: Mexp<'a>) -> (r: Result<Exp, ErrorInCtx>)
    ensures
        match exp_of(mexp@) {
            Ok(e) => r matches Ok(x) && x@ == e,
            Err(e) => r matches Err(x) && x@ == e,
        },
    decreases mexp, 1nat,
{
    match mexp {
        Mexp::Sym { .. } => exp_from_sym_mexp(mexp),
        Mexp::Apply { arg: MexpArg::Tuple { .. }, .. } => exp_from_apply_tuple_arg(mexp),
        Mexp::Apply { arg: MexpArg::Block { .. }, .. } => exp_from_apply_block_arg(mexp),
        _ => {
            let e = ErrorInCtx::new()
                .head("unknown mexp")
                .span(mexp.span())
                .note(note_about_mexp_syntax_of_exp());
            proof {
                assert(e@.notes =~= seq![exp_syntax_note()]);
            }
            e.wrap_in_err()
        },
    }
}

/// The expressions of a list of M-expressions, or the error of the first
/// one that stands for no expression.
pub open spec fn exps_of(ms: Seq<MexpView>) -> Result<Seq<ExpView>, ErrorInCtxView>
    decreases ms.len(),
{
    if ms.len() == 0 {
        Ok(Seq::empty())
    } else {
        match exps_of(ms.drop_last()) {
            Err(e) => Err(e),
            Ok(es) => match exp_of(ms.last()) {
                Ok(e) => Ok(es.push(e)),
                Err(e) => Err(e),
            },
        }
    }
}

/// The expressions of a text, with the default syntax table.
pub fn exp_vec_from_str(s: &str) -> (r: Result<Vec<Exp>, ErrorInCtx>)
    requires
        byte_len(s@) <= usize::MAX,
        !parse_panics(default_table(), s@),
    ensures
        match lex_from(mexp_lex_table(), s@, 0) {
            Err(u) => r matches Err(e) && is_unclosed_error(e@, u, byte_len(s@)),
            Ok(t) => match parse_tokens(t, default_ops()) {
                Step::Go { val, .. } => match exps_of(val) {
                    Ok(es) => r matches Ok(v) && exps_view(v@) == es,
                    Err(err) => r matches Err(e) && e@ == err,
                },
                Step::Fail { err } => r matches Err(e) && e@ == err,
                _ => false,
            },
        },
{
    let syntax_table = SyntaxTable::default();
    proof {
        assert(syntax_table@ == default_table());
    }
    let mexp_vec = match syntax_table.parse(s) {
        Ok(v) => v,
        Err(e) => {
            return Err(e);
        },
    };
    let ghost ms = mexps_view(mexp_vec@);
    proof {
        lemma_mexps_view_len(mexp_vec@);
    }
    let mut rest = reverse_vec(mexp_vec);
    let n = rest.len();
    let mut exp_vec: Vec<Exp> = Vec::new();
    proof {
        assert(ms.take(0) =~= Seq::<MexpView>::empty());
        assert(exps_view(exp_vec@) =~= Seq::<ExpView>::empty());
    }
    while rest.len() > 0
        invariant
            n == ms.len(),
            rest@.len() <= n,
            ms == mexps_view(mexp_vec@),
            rest@ == mexp_vec@.reverse().take(rest@.len() as int),
            mexp_vec@.len() == n,
            lex_from(mexp_lex_table(), s@, 0) matches Ok(t) && parse_tokens(t, default_ops()) matches Step::Go { val, .. } && val == ms,
            exps_of(ms.take(n - rest@.len())) == Ok::<Seq<ExpView>, ErrorInCtxView>(exps_view(exp_vec@)),
        decreases rest@.len(),
    {
        let ghost k = n - rest@.len();
        let mexp = rest.pop().unwrap();
        proof {
            assert(mexp_vec@.reverse().take(rest@.len() as int + 1)[rest@.len() as int] == mexp_vec@[k]);
            assert(mexp == mexp_vec@[k]);
            lemma_mexps_view_index(mexp_vec@, k);
            assert(rest@ =~= mexp_vec@.reverse().take(rest@.len() as int));
            assert(ms.take(k + 1).drop_last() =~= ms.take(k));
            assert(ms.take(k + 1).last() == mexp@);
        }
        let exp = match exp_from_mexp(mexp) {
            Ok(e) => e,
            Err(e) => {
                proof {
                    lemma_exps_of_prefix_err(ms, k + 1);
                }
                return Err(e);
            },
        };
        let ghost before = exp_vec@;
        exp_vec.push(exp);
        proof {
            assert(exps_view(exp_vec@) =~= exps_view(before).push(exp@));
            let pre = ms.take(k + 1);
            assert(pre.drop_last() =~= ms.take(k));
            assert(pre.last() == mexp_view(mexp_vec@[k]));
            assert(exps_of(pre) == Ok::<Seq<ExpView>, ErrorInCtxView>(exps_view(before).push(exp@)));
        }
    }
    proof {
        assert(ms.take(n as int) =~= ms);
    }
    Ok(exp_vec)
}

proof fn lemma_exps_of_prefix_err(ms: Seq<MexpView>, k: int)
    requires
        0 <= k <= ms.len(),
        exps_of(ms.take(k)) is Err,
    ensures
        exps_of(ms) == exps_of(ms.take(k)),
    decreases ms.len() - k,
{
    if k < ms.len() {
        assert(ms.take(k + 1).drop_last() =~= ms.take(k));
        lemma_exps_of_prefix_err(ms, k + 1);
    } else {
        assert(ms.take(k) =~= ms);
    }
}

/// A value of the LET language.
#[derive(Clone, Copy, Debug, PartialEq, Eq, Structural)]
pub enum Val {
    Num { num: isize },
    Bool { boolean: bool },
}

/// An environment: variables bound to values, the latest binding first.
#[derive(Debug, PartialEq)]
pub enum Env {
    Null {},
    Cons { var: Var, val: Val, rest: Arc<Env> },
}

impl Env {
    /// The bindings, the latest first.
    pub open spec fn bindings(&self) -> Seq<(Seq<char>, Val)>
        decreases self,
    {
        match self {
            Env::Null {} => Seq::empty(),
            Env::Cons { var, val, rest } => seq![(var@, *val)] + rest.bindings(),
        }
    }
}

impl Clone for Env {
    fn clone(&self) -> (r: Self)
        ensures
            r.bindings() == self.bindings(),
    {
        match self {
            Env::Null {} => Env::Null {},
            Env::Cons { var, val, rest } => Env::Cons { var: var.clone(), val: *val, rest: share(rest) },
        }
    }
}

/// The value bound to `var` by the first binding of it.
pub open spec fn lookup_var(bs: Seq<(Seq<char>, Val)>, var: Seq<char>) -> Option<Val>
    decreases bs.len(),
{
    if bs.len() == 0 {
        None
    } else if bs[0].0 == var {
        Some(bs[0].1)
    } else {
        lookup_var(bs.drop_first(), var)
    }
}

/// The value of an expression in an environment: `None` where a variable
/// is unbound, `if` tests no boolean, `diff` meets no numbers, or a
/// difference does not fit in `isize`.
pub open spec fn value_of(bs: Seq<(Seq<char>, Val)>, e: ExpView) -> Option<Val>
    decreases e,
{
    match e {
        ExpView::Const { num } => Some(Val::Num { num }),
        ExpView::ZeroP { exp1 } => match value_of(bs, *exp1) {
            Some(v) => Some(Val::Bool { boolean: v == Val::Num { num: 0 } }),
            None => None,
        },
        ExpView::If { exp1, exp2, exp3 } => match value_of(bs, *exp1) {
            Some(Val::Bool { boolean }) => if boolean { value_of(bs, *exp2) } else { value_of(bs, *exp3) },
            _ => None,
        },
        ExpView::Diff { exp1, exp2 } => match (value_of(bs, *exp1), value_of(bs, *exp2)) {
            (Some(Val::Num { num: a }), Some(Val::Num { num: b })) =>
                if isize::MIN <= a - b <= isize::MAX { Some(Val::Num { num: (a - b) as isize }) } else { None },
            _ => None,
        },
        ExpView::Var { var } => lookup_var(bs, var),
        ExpView::Let { var, exp1, body } => match value_of(bs, *exp1) {
            Some(v) => value_of(seq![(var, v)] + bs, *body),
            None => None,
        },
    }
}

/// An `if` takes the branch its condition picks: where the condition is
/// true, its value is that of the second expression; where false, that of
/// the third; where the condition has no value or is not a boolean, it has
/// none.
pub proof fn law_if_takes_the_branch_its_condition_picks(bs: Seq<(Seq<char>, Val)>, c: ExpView, t: ExpView, e: ExpView)
    ensures
        value_of(bs, c) == Some(Val::Bool { boolean: true })
            ==> value_of(bs, ExpView::If { exp1: Box::new(c), exp2: Box::new(t), exp3: Box::new(e) }) == value_of(bs, t),
        value_of(bs, c) == Some(Val::Bool { boolean: false })
            ==> value_of(bs, ExpView::If { exp1: Box::new(c), exp2: Box::new(t), exp3: Box::new(e) }) == value_of(bs, e),
        !(value_of(bs, c) matches Some(Val::Bool { .. }))
            ==> value_of(bs, ExpView::If { exp1: Box::new(c), exp2: Box::new(t), exp3: Box::new(e) }) is None,
{
}

/// `zero-p` tells whether its argument is the number zero: its value is
/// true exactly for zero, false for any other value, and none where the
/// argument has none.
pub proof fn law_zero_p_tests_for_zero(bs: Seq<(Seq<char>, Val)>, a: ExpView)
    ensures
        value_of(bs, a) == Some(Val::Num { num: 0 })
            ==> value_of(bs, ExpView::ZeroP { exp1: Box::new(a) }) == Some(Val::Bool { boolean: true }),
        value_of(bs, a) matches Some(v) && v != (Val::Num { num: 0 })
            ==> value_of(bs, ExpView::ZeroP { exp1: Box::new(a) }) == Some(Val::Bool { boolean: false }),
        value_of(bs, a) is None ==> value_of(bs, ExpView::ZeroP { exp1: Box::new(a) }) is None,
{
}

/// `diff` subtracts: with numbers on both sides, its value is the first
/// less the second where that fits in `isize`, and none otherwise.
pub proof fn law_diff_subtracts(bs: Seq<(Seq<char>, Val)>, a: ExpView, b: ExpView, x: isize, y: isize)
    requires
        value_of(bs, a) == Some(Val::Num { num: x }),
        value_of(bs, b) == Some(Val::Num { num: y }),
    ensures
        isize::MIN <= x - y <= isize::MAX
            ==> value_of(bs, ExpView::Diff { exp1: Box::new(a), exp2: Box::new(b) }) == Some(Val::Num { num: (x - y) as isize }),
        !(isize::MIN <= x - y <= isize::MAX) ==> value_of(bs, ExpView::Diff { exp1: Box::new(a), exp2: Box::new(b) }) is None,
{
}

/// `let` binds its variable to the value of its first expression for its
/// body: inside, the variable stands for that value, whatever it was bound
/// to outside.
pub proof fn law_let_binds_its_variable(bs: Seq<(Seq<char>, Val)>, var: Seq<char>, e1: ExpView, v: Val)
    requires
        value_of(bs, e1) == Some(v),
    ensures
        value_of(bs, ExpView::Let { var, exp1: Box::new(e1), body: Box::new(ExpView::Var { var }) }) == Some(v),
{
    let bs2 = seq![(var, v)] + bs;
    assert(bs2.len() > 0 && bs2[0] == (var, v));
    assert(lookup_var(bs2, var) == Some(v));
    assert(value_of(bs2, ExpView::Var { var }) == Some(v));
}

impl Env {
    /// The value of the first binding of `var`.
    pub fn apply(&self, var: &Var) -> (r: Val)
        requires
            lookup_var(self.bindings(), var@) is Some,
        ensures
            lookup_var(self.bindings(), var@) == Some(r),
        decreases self,
    {
        match self {
            Env::Null {} => {
                proof {
                    assert(self.bindings() =~= Seq::<(Seq<char>, Val)>::empty());
                    assert(false);
                }
                Val::Num { num: 0 }
            },
            Env::Cons { var: head, val, rest } => {
                proof {
                    assert(self.bindings().drop_first() =~= rest.bindings());
                }
                if str_eq(head.as_str(), var.as_str()) {
                    *val
                } else {
                    rest.apply(var)
                }
            },
        }
    }

    /// The value of `exp` in this environment.
    pub fn eval(&self, exp: &Exp) -> (r: Val)
        requires
            value_of(self.bindings(), exp@) is Some,
        ensures
            value_of(self.bindings(), exp@) == Some(r),
        decreases exp,
    {
        match exp {
            Exp::Const { num } => Val::Num { num: *num },
            Exp::ZeroP { exp1 } => {
                let boolean = self.eval(exp1) == Val::Num { num: 0 };
                Val::Bool { boolean }
            },
            Exp::If { exp1, exp2, exp3 } => {
                if let Val::Bool { boolean } = self.eval(exp1) {
                    if boolean {
                        self.eval(exp2)
                    } else {
                        self.eval(exp3)
                    }
                } else {
                    proof {
                        assert(false);
                    }
                    Val::Num { num: 0 }
                }
            },
            Exp::Diff { exp1, exp2 } => {
                let num1 = if let Val::Num { num } = self.eval(exp1) {
                    num
                } else {
                    proof {
                        assert(false);
                    }
                    0
                };
                let num2 = if let Val::Num { num } = self.eval(exp2) {
                    num
                } else {
                    proof {
                        assert(false);
                    }
                    0
                };
                Val::Num { num: num1 - num2 }
            },
            Exp::Var { var } => self.apply(var),
            Exp::Let { var, exp1, body } => {
                let new_env = Env::Cons { var: var.clone(), val: self.eval(exp1), rest: Arc::new(self.clone()) };
                new_env.eval(body)
            },
        }
    }
}

} // verus!
