use vstd::prelude::*;
use crate::error_report::{Span, ErrorInCtx, ErrorInCtxView, ErrorMsg, ErrorMsgView, strings_view};
use crate::lexing::{LexTable, LexTableView, Token, TokenView, tokens_view, lex_from, Unclosed, is_unclosed_error};
use crate::mexp::{Mexp, MexpArg, MexpView, ArgView, mexps_view, mexp_view, mexp_tree, mexp_pretty, mexp_view_span, arg_view_span,
    lemma_mexps_view_len, lemma_mexps_view_index, lemma_mexps_view_map};
use crate::text::{byte_len, string_from, str_eq, push_char, push_str};

verus! {

/// An entry of the parsing stack: an expression, or the token that opened
/// a bracket or an arrow whose end has not come yet.
pub type StackItem = Result<MexpView, TokenView>;

/// Where a step of the parser leaves it.
pub enum Step<A> {
    /// The step went through: the index of the next token, the stack, and
    /// what the step read.
    Go { pos: int, stack: Seq<StackItem>, val: A },
    /// The step reports an error.
    Fail { err: ErrorInCtxView },
    /// The step takes the left side of an operator from a stack whose top
    /// holds no expression, which the parser does not survive.
    Panic,
    /// A state the parser never reaches.
    Stuck,
}

/// An error with a head, lines, notes and a span, and no information.
pub open spec fn error_view(head: Seq<char>, lines: Seq<Seq<char>>, notes: Seq<ErrorMsgView>, span: Option<Span>) -> ErrorInCtxView {
    ErrorInCtxView {
        msg: ErrorMsgView { head: Some(head), lines },
        infos: Seq::empty(),
        notes,
        span,
    }
}

/// The error of a state the parser does not expect.
pub open spec fn internal_error(line: Seq<char>) -> ErrorInCtxView {
    error_view("internal-error"@, seq![line], Seq::empty(), None)
}

/// The note on what may stand before a dot or an argument.
pub open spec fn surely_exp_note() -> ErrorMsgView {
    ErrorMsgView {
        head: None,
        lines: seq!["mexp in this context should be one of the following :"@, "- mexp:sym mexp:dot mexp:apply"@],
    }
}

/// The note on the syntax of an arrow.
pub open spec fn arrow_syntax_note() -> ErrorMsgView {
    ErrorMsgView { head: Some("syntax of arrow :"@), lines: seq!["-- mexp ... -> mexp"@] }
}

/// Whether the token is the word `w`.
pub open spec fn word_is(tok: TokenView, w: Seq<char>) -> bool {
    tok matches TokenView::Word { word, .. } && word == w
}

/// Whether the token is the character `c`.
pub open spec fn char_is(tok: TokenView, c: char) -> bool {
    tok matches TokenView::Char { ch, .. } && ch == c
}

/// Whether the token is a quotation between `mark`s.
pub open spec fn quoted_with(tok: TokenView, mark: char) -> bool {
    tok matches TokenView::Quotation { quotation_mark, .. } && quotation_mark == mark
}

/// Whether the token is an operator word.
pub open spec fn op_token(ops: Set<Seq<char>>, tok: TokenView) -> bool {
    tok matches TokenView::Word { word, .. } && ops.contains(word)
}

/// Whether the token is a symbol: a word that starts or ends no arrow and
/// is no operator.
pub open spec fn sym_token(ops: Set<Seq<char>>, tok: TokenView) -> bool {
    tok is Word && !word_is(tok, "--"@) && !word_is(tok, "->"@) && !op_token(ops, tok)
}

/// Whether the token opens an argument.
pub open spec fn arg_start_token(tok: TokenView) -> bool {
    char_is(tok, '(') || char_is(tok, '{')
}

/// Whether a dot or an argument may follow the expression.
pub open spec fn surely_head(m: MexpView) -> bool {
    m is Sym || m is Dot || m is Apply
}

/// The check of what stands before the dot or argument token at `at`.
pub open spec fn head_check(st: Seq<StackItem>, at: Span, dot: bool) -> Result<bool, ErrorInCtxView> {
    if st.len() == 0 {
        Err(error_view(
            if dot { "no-token-before-dot"@ } else { "no-token-before-arg"@ },
            Seq::empty(), Seq::empty(), Some(at)))
    } else {
        match st.last() {
            Ok(m) => if surely_head(m) {
                Ok(true)
            } else {
                Err(error_view(
                    if dot { "invalid-mexp-before-dot"@ } else { "invalid-mexp-before-arg"@ },
                    Seq::empty(), seq![surely_exp_note()], Some(mexp_view_span(m))))
            },
            Err(t) => Err(error_view(
                if dot { "invalid-token-before-dot"@ } else { "invalid-token-before-arg"@ },
                Seq::empty(), Seq::empty(), Some(t.span()))),
        }
    }
}

/// Whether a dot comes next, or the error of what stands before it.
pub open spec fn dot_ahead(t: Seq<TokenView>, p: int, st: Seq<StackItem>) -> Result<bool, ErrorInCtxView> {
    if 0 <= p < t.len() && char_is(t[p], '.') { head_check(st, t[p].span(), true) } else { Ok(false) }
}

/// Whether an argument comes next, or the error of what stands before it.
pub open spec fn apply_ahead(t: Seq<TokenView>, p: int, st: Seq<StackItem>) -> Result<bool, ErrorInCtxView> {
    if 0 <= p < t.len() && arg_start_token(t[p]) { head_check(st, t[p].span(), false) } else { Ok(false) }
}

/// Whether an operator with an expression after it comes next.
pub open spec fn infix_ahead(t: Seq<TokenView>, ops: Set<Seq<char>>, p: int) -> bool {
    0 <= p < t.len() && op_token(ops, t[p]) && !(p + 1 < t.len() && arg_start_token(t[p + 1]))
}

/// Whether an operator with an argument after it comes next.
pub open spec fn infix_apply_ahead(t: Seq<TokenView>, ops: Set<Seq<char>>, p: int) -> bool {
    0 <= p < t.len() && op_token(ops, t[p]) && p + 1 < t.len() && arg_start_token(t[p + 1])
}

/// The expression on top of the stack, if an expression is there.
pub open spec fn top_expr(st: Seq<StackItem>) -> Option<MexpView> {
    if st.len() > 0 {
        match st.last() {
            Ok(m) => Some(m),
            Err(_) => None,
        }
    } else {
        None
    }
}

/// The stack without the expressions on its top, and those expressions
/// in the order they were pushed.
pub open spec fn pop_exprs(st: Seq<StackItem>) -> (Seq<StackItem>, Seq<MexpView>)
    decreases st.len(),
{
    if st.len() > 0 {
        match st.last() {
            Ok(m) => {
                let r = pop_exprs(st.drop_last());
                (r.0, r.1.push(m))
            },
            Err(_) => (st, Seq::empty()),
        }
    } else {
        (st, Seq::empty())
    }
}

/// The expressions of the stack, bottom first.
pub open spec fn exprs_of(st: Seq<StackItem>) -> Seq<MexpView>
    decreases st.len(),
{
    if st.len() == 0 {
        Seq::empty()
    } else {
        match st.last() {
            Ok(m) => exprs_of(st.drop_last()).push(m),
            Err(_) => exprs_of(st.drop_last()),
        }
    }
}

/// Whether the entry is the bracket token `c`.
pub open spec fn char_marker(item: StackItem, c: char) -> bool {
    item matches Err(tok) && char_is(tok, c)
}

/// Whether the entry is the word token `w`.
pub open spec fn word_marker(item: StackItem, w: Seq<char>) -> bool {
    item matches Err(tok) && word_is(tok, w)
}

/// The closing bracket of an opening one.
pub open spec fn ket_of(bra: char) -> Result<char, ErrorInCtxView> {
    if bra == '(' {
        Ok(')')
    } else if bra == '[' {
        Ok(']')
    } else if bra == '{' {
        Ok('}')
    } else {
        Err(error_view("internal-error"@,
            seq!["Parsing::ket_of_bra"@, "char is not bra"@, "char = "@.push(bra)],
            Seq::empty(), None))
    }
}

/// One expression read at `p`, pushed on the stack, or the expressions on
/// the top of the stack combined with what comes at `p`.
pub open spec fn collect_mexp(t: Seq<TokenView>, ops: Set<Seq<char>>, p: int, st: Seq<StackItem>) -> Step<()>
    decreases t.len() - p, 4nat,
{
    if !(0 <= p < t.len()) {
        Step::Fail { err: internal_error("Parsing::collect_mexp"@) }
    } else if quoted_with(t[p], '"') {
        match t[p] {
            TokenView::Quotation { span, string, .. } =>
                Step::Go { pos: p + 1, stack: st.push(Ok(MexpView::Str { span, string })), val: () },
            _ => Step::Stuck,
        }
    } else if quoted_with(t[p], '\'') {
        match t[p] {
            TokenView::Quotation { span, string, .. } =>
                Step::Go { pos: p + 1, stack: st.push(Ok(MexpView::Char { span, ch: string })), val: () },
            _ => Step::Stuck,
        }
    } else if sym_token(ops, t[p]) {
        match t[p] {
            TokenView::Word { span, word } =>
                Step::Go { pos: p + 1, stack: st.push(Ok(MexpView::Sym { span, symbol: word })), val: () },
            _ => Step::Stuck,
        }
    } else {
        match dot_ahead(t, p, st) {
            Err(e) => Step::Fail { err: e },
            Ok(true) => collect_dot(t, p, st),
            Ok(false) => match apply_ahead(t, p, st) {
                Err(e) => Step::Fail { err: e },
                Ok(true) => collect_apply(t, ops, p, st),
                Ok(false) => if char_is(t[p], '[') {
                    collect_array(t, ops, p, st)
                } else if word_is(t[p], "--"@) {
                    collect_arrow(t, ops, p, st)
                } else if infix_ahead(t, ops, p) {
                    collect_infix(t, ops, p, st)
                } else if infix_apply_ahead(t, ops, p) {
                    collect_infix_apply(t, ops, p, st)
                } else {
                    Step::Fail { err: internal_error("Parsing::collect_mexp"@) }
                },
            },
        }
    }
}

/// The dot at `p` and the symbol after it, joined to the expression on top
/// of the stack.
pub open spec fn collect_dot(t: Seq<TokenView>, p: int, st: Seq<StackItem>) -> Step<()>
    decreases t.len() - p, 3nat,
{
    if !(0 <= p < t.len()) {
        Step::Stuck
    } else if p + 1 < t.len() {
        match t[p + 1] {
            TokenView::Word { span, word } => match top_expr(st) {
                Some(head) => Step::Go {
                    pos: p + 2,
                    stack: st.drop_last().push(Ok(MexpView::Dot {
                        span: Span { lo: mexp_view_span(head).lo, hi: span.hi },
                        head: Box::new(head),
                        tail: Box::new(MexpView::Sym { span, symbol: word }),
                    })),
                    val: (),
                },
                None => Step::Stuck,
            },
            _ => Step::Fail {
                err: error_view("non-symbol-after-dot"@, seq!["Parsing::collect_sym"@], Seq::empty(), Some(t[p + 1].span())),
            },
        }
    } else {
        Step::Fail {
            err: error_view("no-token-after-dot"@, seq!["Parsing::collect_sym"@], Seq::empty(), Some(t[p].span())),
        }
    }
}

/// The argument at `p`, applied to the expression on top of the stack.
pub open spec fn collect_apply(t: Seq<TokenView>, ops: Set<Seq<char>>, p: int, st: Seq<StackItem>) -> Step<()>
    decreases t.len() - p, 3nat,
{
    match get_arg(t, ops, p, st) {
        Step::Go { pos, stack, val } => match top_expr(stack) {
            Some(head) => Step::Go {
                pos,
                stack: stack.drop_last().push(Ok(MexpView::Apply {
                    span: Span { lo: mexp_view_span(head).lo, hi: arg_view_span(val).hi },
                    head: Box::new(head),
                    arg: val,
                })),
                val: (),
            },
            None => Step::Stuck,
        },
        Step::Fail { err } => Step::Fail { err },
        Step::Panic => Step::Panic,
        Step::Stuck => Step::Stuck,
    }
}

/// The argument, a tuple or a block, that starts at `p`.
pub open spec fn get_arg(t: Seq<TokenView>, ops: Set<Seq<char>>, p: int, st: Seq<StackItem>) -> Step<ArgView>
    decreases t.len() - p, 2nat,
{
    if !(0 <= p < t.len()) {
        Step::Fail { err: internal_error("Parsing::get_arg"@) }
    } else if char_is(t[p], '(') || char_is(t[p], '{') {
        match get_body(t, ops, p, st) {
            Step::Go { pos, stack, val } => Step::Go {
                pos,
                stack,
                val: if char_is(t[p], '(') {
                    ArgView::Tuple { span: val.1, body: val.0 }
                } else {
                    ArgView::Block { span: val.1, body: val.0 }
                },
            },
            Step::Fail { err } => Step::Fail { err },
            Step::Panic => Step::Panic,
            Step::Stuck => Step::Stuck,
        }
    } else {
        Step::Fail { err: error_view("Parsing::get_arg"@, seq!["expecting '(' or '{'"@], Seq::empty(), Some(t[p].span())) }
    }
}

/// The expressions between the bracket at `p` and its closing bracket, and
/// the span from one to the other.
pub open spec fn get_body(t: Seq<TokenView>, ops: Set<Seq<char>>, p: int, st: Seq<StackItem>) -> Step<(Seq<MexpView>, Span)>
    decreases t.len() - p, 1nat,
{
    if !(0 <= p < t.len()) {
        Step::Stuck
    } else {
        match t[p] {
            TokenView::Char { span, ch } => body_loop(t, ops, p + 1, st.push(Err(t[p])), ch, span),
            _ => Step::Fail {
                err: error_view("Parsing::get_body_and_span"@, seq!["expecting bra char"@], Seq::empty(), Some(t[p].span())),
            },
        }
    }
}

/// The rest of a bracket opened by `bra` at `bra_span`, from `p` on.
pub open spec fn body_loop(t: Seq<TokenView>, ops: Set<Seq<char>>, p: int, st: Seq<StackItem>, bra: char, bra_span: Span) -> Step<(Seq<MexpView>, Span)>
    decreases t.len() - p, 6nat,
{
    if !(0 <= p < t.len()) {
        Step::Fail { err: error_view("ket-mismatching"@, Seq::empty(), Seq::empty(), Some(bra_span)) }
    } else {
        match t[p] {
            TokenView::Char { span, ch } => match ket_of(bra) {
                Err(e) => Step::Fail { err: e },
                Ok(ket) => if ch == ket {
                    let r = pop_exprs(st);
                    if r.0.len() > 0 && char_marker(r.0.last(), bra) {
                        Step::Go { pos: p + 1, stack: r.0.drop_last(), val: (r.1, Span { lo: bra_span.lo, hi: span.hi }) }
                    } else {
                        Step::Stuck
                    }
                } else {
                    body_next(t, ops, p, st, bra, bra_span)
                },
            },
            _ => body_next(t, ops, p, st, bra, bra_span),
        }
    }
}

/// One more expression of a bracket, then the rest of it.
pub open spec fn body_next(t: Seq<TokenView>, ops: Set<Seq<char>>, p: int, st: Seq<StackItem>, bra: char, bra_span: Span) -> Step<(Seq<MexpView>, Span)>
    decreases t.len() - p, 5nat,
{
    match collect_mexp(t, ops, p, st) {
        Step::Go { pos, stack, .. } => if p < pos <= t.len() {
            body_loop(t, ops, pos, stack, bra, bra_span)
        } else {
            Step::Stuck
        },
        Step::Fail { err } => Step::Fail { err },
        Step::Panic => Step::Panic,
        Step::Stuck => Step::Stuck,
    }
}

/// The bracket at `p` and what it holds, as an array.
pub open spec fn collect_array(t: Seq<TokenView>, ops: Set<Seq<char>>, p: int, st: Seq<StackItem>) -> Step<()>
    decreases t.len() - p, 3nat,
{
    match get_body(t, ops, p, st) {
        Step::Go { pos, stack, val } => Step::Go {
            pos,
            stack: stack.push(Ok(MexpView::Array { span: val.1, body: val.0 })),
            val: (),
        },
        Step::Fail { err } => Step::Fail { err },
        Step::Panic => Step::Panic,
        Step::Stuck => Step::Stuck,
    }
}

/// The arrow that starts at `p`.
pub open spec fn collect_arrow(t: Seq<TokenView>, ops: Set<Seq<char>>, p: int, st: Seq<StackItem>) -> Step<()>
    decreases t.len() - p, 3nat,
{
    if !(0 <= p < t.len()) {
        Step::Stuck
    } else {
        arrow_loop(t, ops, p + 1, st.push(Err(t[p])), t[p].span())
    }
}

/// The rest of an arrow that started at `start`, from `p` on.
pub open spec fn arrow_loop(t: Seq<TokenView>, ops: Set<Seq<char>>, p: int, st: Seq<StackItem>, start: Span) -> Step<()>
    decreases t.len() - p, 6nat,
{
    if !(0 <= p < t.len()) {
        Step::Fail { err: error_view("arrow-end-mismatching"@, Seq::empty(), seq![arrow_syntax_note()], Some(start)) }
    } else if word_is(t[p], "->"@) {
        match get_mexp(t, ops, p + 1, st) {
            Step::Go { pos, stack, val } => {
                let r = pop_exprs(stack);
                if r.0.len() > 0 && word_marker(r.0.last(), "--"@) {
                    Step::Go {
                        pos,
                        stack: r.0.drop_last().push(Ok(MexpView::Arrow {
                            span: Span { lo: start.lo, hi: mexp_view_span(val).hi },
                            ante: r.1,
                            ret: Box::new(val),
                        })),
                        val: (),
                    }
                } else {
                    Step::Stuck
                }
            },
            Step::Fail { err } => Step::Fail { err },
            Step::Panic => Step::Panic,
            Step::Stuck => Step::Stuck,
        }
    } else {
        arrow_next(t, ops, p, st, start)
    }
}

/// One more expression before the end of an arrow, then the rest of it.
pub open spec fn arrow_next(t: Seq<TokenView>, ops: Set<Seq<char>>, p: int, st: Seq<StackItem>, start: Span) -> Step<()>
    decreases t.len() - p, 5nat,
{
    match collect_mexp(t, ops, p, st) {
        Step::Go { pos, stack, .. } => if p < pos <= t.len() {
            arrow_loop(t, ops, pos, stack, start)
        } else {
            Step::Stuck
        },
        Step::Fail { err } => Step::Fail { err },
        Step::Panic => Step::Panic,
        Step::Stuck => Step::Stuck,
    }
}

/// The operator at `p` and the operand after it, joined to the expression
/// on top of the stack.  The operand takes no operator after it, so that
/// operators group from the left: `a = b = c` is `(a = b) = c`.
pub open spec fn collect_infix(t: Seq<TokenView>, ops: Set<Seq<char>>, p: int, st: Seq<StackItem>) -> Step<()>
    decreases t.len() - p, 3nat,
{
    if 0 <= p < t.len() && t[p] is Word {
        match t[p] {
            TokenView::Word { word, .. } => match get_operand(t, ops, p + 1, st) {
                Step::Go { pos, stack, val } => match top_expr(stack) {
                    Some(lhs) => Step::Go {
                        pos,
                        stack: stack.drop_last().push(Ok(MexpView::Infix {
                            span: Span { lo: mexp_view_span(lhs).lo, hi: mexp_view_span(val).hi },
                            op: word,
                            lhs: Box::new(lhs),
                            rhs: Box::new(val),
                        })),
                        val: (),
                    },
                    None => Step::Panic,
                },
                Step::Fail { err } => Step::Fail { err },
                Step::Panic => Step::Panic,
                Step::Stuck => Step::Stuck,
            },
            _ => Step::Stuck,
        }
    } else {
        Step::Fail { err: internal_error("Parsing::collect_infix"@) }
    }
}

/// The operator at `p` and the argument after it, joined to the expression
/// on top of the stack.
pub open spec fn collect_infix_apply(t: Seq<TokenView>, ops: Set<Seq<char>>, p: int, st: Seq<StackItem>) -> Step<()>
    decreases t.len() - p, 3nat,
{
    if 0 <= p < t.len() && t[p] is Word {
        match t[p] {
            TokenView::Word { word, .. } => match get_arg(t, ops, p + 1, st) {
                Step::Go { pos, stack, val } => match top_expr(stack) {
                    Some(lhs) => Step::Go {
                        pos,
                        stack: stack.drop_last().push(Ok(MexpView::InfixApply {
                            span: Span { lo: mexp_view_span(lhs).lo, hi: arg_view_span(val).hi },
                            op: word,
                            lhs: Box::new(lhs),
                            arg: val,
                        })),
                        val: (),
                    },
                    None => Step::Panic,
                },
                Step::Fail { err } => Step::Fail { err },
                Step::Panic => Step::Panic,
                Step::Stuck => Step::Stuck,
            },
            _ => Step::Stuck,
        }
    } else {
        Step::Fail { err: internal_error("Parsing::collect_infix_apply"@) }
    }
}

/// The whole expression that starts at `p`: one expression, then the dots,
/// arguments and operators that follow it.
pub open spec fn get_mexp(t: Seq<TokenView>, ops: Set<Seq<char>>, p: int, st: Seq<StackItem>) -> Step<MexpView>
    decreases t.len() - p, 6nat,
{
    match collect_mexp(t, ops, p, st) {
        Step::Go { pos, stack, .. } => if p < pos <= t.len() {
            mexp_loop(t, ops, pos, stack)
        } else {
            Step::Stuck
        },
        Step::Fail { err } => Step::Fail { err },
        Step::Panic => Step::Panic,
        Step::Stuck => Step::Stuck,
    }
}

/// The dots, arguments and operators from `p` on that extend the
/// expression on top of the stack; then that expression, taken off.
pub open spec fn mexp_loop(t: Seq<TokenView>, ops: Set<Seq<char>>, p: int, st: Seq<StackItem>) -> Step<MexpView>
    decreases t.len() - p, 5nat,
{
    match dot_ahead(t, p, st) {
        Err(e) => Step::Fail { err: e },
        Ok(true) => mexp_loop_next(t, ops, p, collect_dot(t, p, st)),
        Ok(false) => match apply_ahead(t, p, st) {
            Err(e) => Step::Fail { err: e },
            Ok(true) => mexp_loop_next(t, ops, p, collect_apply(t, ops, p, st)),
            Ok(false) => if infix_ahead(t, ops, p) {
                mexp_loop_next(t, ops, p, collect_infix(t, ops, p, st))
            } else if infix_apply_ahead(t, ops, p) {
                mexp_loop_next(t, ops, p, collect_infix_apply(t, ops, p, st))
            } else {
                match top_expr(st) {
                    Some(m) => Step::Go { pos: p, stack: st.drop_last(), val: m },
                    None => Step::Stuck,
                }
            },
        },
    }
}

/// `mexp_loop` after the step `s` taken at `p`.
pub open spec fn mexp_loop_next(t: Seq<TokenView>, ops: Set<Seq<char>>, p: int, s: Step<()>) -> Step<MexpView>
    decreases t.len() - p, 4nat,
{
    match s {
        Step::Go { pos, stack, .. } => if p < pos <= t.len() {
            mexp_loop(t, ops, pos, stack)
        } else {
            Step::Stuck
        },
        Step::Fail { err } => Step::Fail { err },
        Step::Panic => Step::Panic,
        Step::Stuck => Step::Stuck,
    }
}

/// The operand that starts at `p`: one expression, then the dots and
/// arguments that follow it, but no operator.
pub open spec fn get_operand(t: Seq<TokenView>, ops: Set<Seq<char>>, p: int, st: Seq<StackItem>) -> Step<MexpView>
    decreases t.len() - p, 6nat,
{
    match collect_mexp(t, ops, p, st) {
        Step::Go { pos, stack, .. } => if p < pos <= t.len() {
            operand_loop(t, ops, pos, stack)
        } else {
            Step::Stuck
        },
        Step::Fail { err } => Step::Fail { err },
        Step::Panic => Step::Panic,
        Step::Stuck => Step::Stuck,
    }
}

/// The dots and arguments from `p` on that extend the expression on top of
/// the stack; then that expression, taken off.
pub open spec fn operand_loop(t: Seq<TokenView>, ops: Set<Seq<char>>, p: int, st: Seq<StackItem>) -> Step<MexpView>
    decreases t.len() - p, 5nat,
{
    match dot_ahead(t, p, st) {
        Err(e) => Step::Fail { err: e },
        Ok(true) => operand_loop_next(t, ops, p, collect_dot(t, p, st)),
        Ok(false) => match apply_ahead(t, p, st) {
            Err(e) => Step::Fail { err: e },
            Ok(true) => operand_loop_next(t, ops, p, collect_apply(t, ops, p, st)),
            Ok(false) => match top_expr(st) {
                Some(m) => Step::Go { pos: p, stack: st.drop_last(), val: m },
                None => Step::Stuck,
            },
        },
    }
}

/// `operand_loop` after the step `s` taken at `p`.
pub open spec fn operand_loop_next(t: Seq<TokenView>, ops: Set<Seq<char>>, p: int, s: Step<()>) -> Step<MexpView>
    decreases t.len() - p, 4nat,
{
    match s {
        Step::Go { pos, stack, .. } => if p < pos <= t.len() {
            operand_loop(t, ops, pos, stack)
        } else {
            Step::Stuck
        },
        Step::Fail { err } => Step::Fail { err },
        Step::Panic => Step::Panic,
        Step::Stuck => Step::Stuck,
    }
}

/// The expressions of the tokens from `p` on, read one after another onto
/// the stack.
pub open spec fn run_loop(t: Seq<TokenView>, ops: Set<Seq<char>>, p: int, st: Seq<StackItem>) -> Step<Seq<MexpView>>
    decreases t.len() - p, 5nat,
{
    if !(0 <= p < t.len()) {
        Step::Go { pos: p, stack: st, val: exprs_of(st) }
    } else {
        match collect_mexp(t, ops, p, st) {
            Step::Go { pos, stack, .. } => if p < pos <= t.len() {
                run_loop(t, ops, pos, stack)
            } else {
                Step::Stuck
            },
            Step::Fail { err } => Step::Fail { err },
            Step::Panic => Step::Panic,
            Step::Stuck => Step::Stuck,
        }
    }
}

/// The parse of a list of tokens with the operators `ops`.
pub open spec fn parse_tokens(t: Seq<TokenView>, ops: Set<Seq<char>>) -> Step<Seq<MexpView>> {
    run_loop(t, ops, 0, Seq::empty())
}

/// The operators of a syntax, and the table of its lexer.
#[derive(Clone, Debug, PartialEq, Eq)]
pub struct SyntaxTable {
    pub op_set: Vec<String>,
    pub char_table: LexTable,
}

/// The operators of a syntax table and the sets of its lexer.
pub struct SyntaxTableView {
    pub ops: Set<Seq<char>>,
    pub chars: LexTableView,
}

impl View for SyntaxTable {
    type V = SyntaxTableView;

    open spec fn view(&self) -> SyntaxTableView {
        SyntaxTableView { ops: strings_view(self.op_set@).to_set(), chars: self.char_table@ }
    }
}

/// The lexer of M-expressions: `"` and `'` quote; space, newline, tab and
/// comma separate; brackets, braces, parentheses, dot and semicolon are
/// tokens of their own.
pub open spec fn mexp_lex_table() -> LexTableView {
    LexTableView {
        quotation_marks: set!['"', '\''],
        spaces: set![' ', '\n', '\t', ','],
        chars: set!['(', ')', '[', ']', '{', '}', '.', ';'],
        comment_words: Set::empty(),
    }
}

/// The operators of the default syntax.
pub open spec fn default_ops() -> Set<Seq<char>> {
    set!["="@, ":"@, "::"@, "=>"@, "<="@]
}

fn contains_word(v: &Vec<String>, w: &str) -> (r: bool)
    ensures
        r == strings_view(v@).to_set().contains(w@),
{
    let mut i: usize = 0;
    while i < v.len()
        invariant
            i <= v@.len(),
            forall|j: int| 0 <= j < i ==> v@[j]@ != w@,
        decreases v@.len() - i,
    {
        if str_eq(v[i].as_str(), w) {
            proof {
                assert(strings_view(v@)[i as int] == w@);
            }
            return true;
        }
        i = i + 1;
    }
    proof {
        let a = strings_view(v@);
        if a.contains(w@) {
            let k = choose|k: int| 0 <= k < a.len() && a[k] == w@;
            assert(v@[k]@ == w@);
        }
    }
    false
}

fn add_word(v: &mut Vec<String>, w: &str)
    ensures
        strings_view(final(v)@).to_set() == strings_view(old(v)@).to_set().insert(w@),
{
    if !contains_word(v, w) {
        let ghost before = v@;
        v.push(string_from(w));
        proof {
            let a = strings_view(before);
            assert(strings_view(v@) =~= a.push(w@));
            assert(a.push(w@).to_set() =~= a.to_set().insert(w@)) by {
                assert forall|x: Seq<char>| a.push(w@).to_set().contains(x) <==> a.to_set().insert(w@).contains(x) by {
                    if a.push(w@).contains(x) && x != w@ {
                        let k = choose|k: int| 0 <= k < a.push(w@).len() && a.push(w@)[k] == x;
                        assert(a[k] == x);
                    }
                    if a.contains(x) {
                        let k = choose|k: int| 0 <= k < a.len() && a[k] == x;
                        assert(a.push(w@)[k] == x);
                    }
                    if x == w@ {
                        assert(a.push(w@)[a.len() as int] == x);
                    }
                }
            }
        }
    } else {
        proof {
            assert(strings_view(v@).to_set() =~= strings_view(v@).to_set().insert(w@));
        }
    }
}

impl SyntaxTable {
    /// The table of M-expressions, with no operators.
    pub fn new() -> (t: Self)
        ensures
            t@.ops == Set::<Seq<char>>::empty(),
            t@.chars == mexp_lex_table(),
    {
        let char_table = LexTable::new()
            .quotation_mark('"')
            .quotation_mark('\'')
            .space(' ')
            .space('\n')
            .space('\t')
            .space(',')
            .char('(')
            .char(')')
            .char('[')
            .char(']')
            .char('{')
            .char('}')
            .char('.')
            .char(';');
        let t = SyntaxTable { op_set: Vec::new(), char_table };
        proof {
            assert(strings_view(t.op_set@) =~= Seq::<Seq<char>>::empty());
            assert(t@.ops =~= Set::<Seq<char>>::empty());
            assert(t@.chars.quotation_marks =~= mexp_lex_table().quotation_marks);
            assert(t@.chars.spaces =~= mexp_lex_table().spaces);
            assert(t@.chars.chars =~= mexp_lex_table().chars);
            assert(t@.chars.comment_words =~= mexp_lex_table().comment_words);
        }
        t
    }

    /// The same table, with `op` an operator.
    pub fn op(self, op: &str) -> (t: Self)
        ensures
            t@.ops == self@.ops.insert(op@),
            t@.chars == self@.chars,
    {
        let mut t = self;
        add_word(&mut t.op_set, op);
        t
    }
}

impl Default for SyntaxTable {
    /// The table of M-expressions with the operators `=`, `:`, `::`, `=>`
    /// and `<=`.
    fn default() -> (t: Self)
        ensures
            t@.ops == default_ops(),
            t@.chars == mexp_lex_table(),
    {
        let t = SyntaxTable::new().op("=").op(":").op("::").op("=>").op("<=");
        proof {
            assert(t@.ops =~= default_ops());
        }
        t
    }
}

impl SyntaxTable {
    fn arrow_start_token_p<'a>(&self, token: &Token<'a>) -> (r: bool)
        ensures
            r == word_is(token@, "--"@),
    {
        if let Token::Word { word, .. } = token {
            str_eq(word, "--")
        } else {
            false
        }
    }

    fn arrow_end_token_p<'a>(&self, token: &Token<'a>) -> (r: bool)
        ensures
            r == word_is(token@, "->"@),
    {
        if let Token::Word { word, .. } = token {
            str_eq(word, "->")
        } else {
            false
        }
    }

    fn op_token_p<'a>(&self, token: &Token<'a>) -> (r: bool)
        ensures
            r == op_token(self@.ops, token@),
    {
        if let Token::Word { word, .. } = token {
            contains_word(&self.op_set, word)
        } else {
            false
        }
    }

    fn str_token_p<'a>(&self, token: &Token<'a>) -> (r: bool)
        ensures
            r == quoted_with(token@, '"'),
    {
        if let Token::Quotation { quotation_mark, .. } = token {
            *quotation_mark == '"'
        } else {
            false
        }
    }

    fn char_token_p<'a>(&self, token: &Token<'a>) -> (r: bool)
        ensures
            r == quoted_with(token@, '\''),
    {
        if let Token::Quotation { quotation_mark, .. } = token {
            *quotation_mark == '\''
        } else {
            false
        }
    }

    fn sym_token_p<'a>(&self, token: &Token<'a>) -> (r: bool)
        ensures
            r == sym_token(self@.ops, token@),
    {
        if let Token::Word { .. } = token {
            !(self.arrow_start_token_p(token) || self.arrow_end_token_p(token) || self.op_token_p(token))
        } else {
            false
        }
    }
}

/// Why the parser stopped before the end of the tokens.
enum Stop {
    Error(ErrorInCtx),
    Panic,
}

/// The state of a parse: the next token, and a stack of the expressions
/// read so far and of the tokens that opened what is not closed yet.
struct Parsing<'a, 'b> {
    cursor: usize,
    syntax_table: &'b SyntaxTable,
    token_vec: Vec<Token<'a>>,
    result_stack: Vec<Result<Mexp<'a>, Token<'a>>>,
}

spec fn item_view<'a>(r: Result<Mexp<'a>, Token<'a>>) -> StackItem {
    match r {
        Ok(m) => Ok(m@),
        Err(t) => Err(t@),
    }
}

spec fn items_view<'a>(v: Seq<Result<Mexp<'a>, Token<'a>>>) -> Seq<StackItem> {
    v.map_values(|r: Result<Mexp<'a>, Token<'a>>| item_view(r))
}

impl<'a, 'b> Parsing<'a, 'b> {
    spec fn toks(&self) -> Seq<TokenView> {
        tokens_view(self.token_vec@)
    }

    spec fn ops(&self) -> Set<Seq<char>> {
        self.syntax_table@.ops
    }

    spec fn stack(&self) -> Seq<StackItem> {
        items_view(self.result_stack@)
    }

    spec fn pos(&self) -> int {
        self.cursor as int
    }

    spec fn wf(&self) -> bool {
        self.cursor <= self.token_vec@.len() <= usize::MAX
    }

    spec fn same_input(&self, other: Self) -> bool {
        self.token_vec@ == other.token_vec@ && self.syntax_table == other.syntax_table
    }
}

/// Whether the outcome `r` is the end of the step `s`.
spec fn step_ends<A, T>(s: Step<A>, r: Result<T, Stop>) -> bool {
    match s {
        Step::Go { .. } => r is Ok,
        Step::Fail { err } => r matches Err(Stop::Error(e)) && e@ == err,
        Step::Panic => r matches Err(Stop::Panic),
        Step::Stuck => false,
    }
}

/// Whether the parser stands where the step `s` leaves it.
spec fn step_at<'a, 'b, A>(s: Step<A>, after: Parsing<'a, 'b>) -> bool {
    s matches Step::Go { pos, stack, .. } && after.pos() == pos && after.stack() == stack
}

/// `after` is `before` with some expressions taken off its top and one
/// expression pushed.
spec fn pushed_over(before: Seq<StackItem>, after: Seq<StackItem>) -> bool {
    &&& after.len() >= 1
    &&& after.len() - 1 <= before.len()
    &&& after.last() is Ok
    &&& after.take(after.len() - 1) == before.take(after.len() - 1)
    &&& forall|i: int| after.len() - 1 <= i < before.len() ==> #[trigger] before[i] is Ok
}

/// `after` is `before` with some expressions taken off its top.
spec fn popped_over(before: Seq<StackItem>, after: Seq<StackItem>) -> bool {
    &&& after.len() <= before.len()
    &&& after == before.take(after.len() as int)
    &&& forall|i: int| after.len() <= i < before.len() ==> #[trigger] before[i] is Ok
}

/// A stack with a token at `f - 1` and only expressions above it.
spec fn marked_at(st: Seq<StackItem>, f: int) -> bool {
    &&& 1 <= f <= st.len()
    &&& st[f - 1] is Err
    &&& forall|i: int| f <= i < st.len() ==> #[trigger] st[i] is Ok
}

proof fn lemma_items_push<'a>(v: Seq<Result<Mexp<'a>, Token<'a>>>, x: Result<Mexp<'a>, Token<'a>>)
    ensures
        items_view(v.push(x)) == items_view(v).push(item_view(x)),
{
    assert(items_view(v.push(x)) =~= items_view(v).push(item_view(x)));
}

proof fn lemma_items_drop_last<'a>(v: Seq<Result<Mexp<'a>, Token<'a>>>)
    requires
        v.len() > 0,
    ensures
        items_view(v.drop_last()) == items_view(v).drop_last(),
{
    assert(items_view(v.drop_last()) =~= items_view(v).drop_last());
}

proof fn lemma_pop_exprs_marked(st: Seq<StackItem>, f: int)
    requires
        marked_at(st, f),
    ensures
        pop_exprs(st).0 == st.take(f),
    decreases st.len(),
{
    if st.len() > f {
        assert(st.drop_last()[st.len() - 2] == st[st.len() - 2]);
        lemma_pop_exprs_marked(st.drop_last(), f);
        assert(st.drop_last().take(f) =~= st.take(f));
    } else {
        assert(st.take(f) =~= st);
    }
}

proof fn lemma_pushed_marked(prev: Seq<StackItem>, cur: Seq<StackItem>, f: int)
    requires
        marked_at(prev, f),
        pushed_over(prev, cur),
    ensures
        marked_at(cur, f),
        cur.take(f) == prev.take(f),
{
    let k = cur.len() - 1;
    if k < f {
        assert(prev[f - 1] is Ok);
    }
    assert(cur.take(f) =~= cur.take(k).take(f));
    assert(prev.take(f) =~= prev.take(k).take(f));
    assert forall|i: int| f <= i < cur.len() implies #[trigger] cur[i] is Ok by {
        if i < k {
            assert(cur.take(k)[i] == cur[i]);
            assert(prev.take(k)[i] == prev[i]);
        }
    }
    assert(cur.take(f)[f - 1] == cur[f - 1]);
    assert(prev.take(f)[f - 1] == prev[f - 1]);
}

proof fn lemma_popped_marked(prev: Seq<StackItem>, cur: Seq<StackItem>, f: int)
    requires
        marked_at(prev, f),
        popped_over(prev, cur),
    ensures
        marked_at(cur, f),
        cur.take(f) == prev.take(f),
{
    if cur.len() < f {
        assert(prev[f - 1] is Ok);
    }
    assert(cur.take(f) =~= prev.take(f));
    assert forall|i: int| f <= i < cur.len() implies #[trigger] cur[i] is Ok by {
        assert(prev.take(cur.len() as int)[i] == prev[i]);
    }
    assert(prev.take(cur.len() as int)[f - 1] == prev[f - 1]);
}

proof fn lemma_pushed_then_replaced(a: Seq<StackItem>, b: Seq<StackItem>, c: Seq<StackItem>)
    requires
        pushed_over(a, b),
        pushed_over(b, c),
        c.len() <= b.len(),
    ensures
        pushed_over(a, c),
{
    let k1 = b.len() - 1;
    let k2 = c.len() - 1;
    assert(c.take(k2) =~= b.take(k1).take(k2));
    assert(a.take(k2) =~= a.take(k1).take(k2));
    assert forall|i: int| k2 <= i < a.len() implies #[trigger] a[i] is Ok by {
        if i < k1 {
            assert(b.take(k1)[i] == b[i]);
            assert(a.take(k1)[i] == a[i]);
            assert(b[i] is Ok);
        }
    }
}

proof fn lemma_pushed_then_popped(a: Seq<StackItem>, b: Seq<StackItem>)
    requires
        pushed_over(a, b),
    ensures
        popped_over(a, b.drop_last()),
{
    assert(b.drop_last() =~= b.take(b.len() - 1));
    assert(a.take(b.len() - 1) =~= b.take(b.len() - 1));
}

proof fn lemma_popped_then_replaced(a: Seq<StackItem>, b: Seq<StackItem>, x: StackItem)
    requires
        popped_over(a, b),
        b.len() > 0,
        b.last() is Ok,
        x is Ok,
    ensures
        pushed_over(a, b.drop_last().push(x)),
        b.drop_last().push(x).len() <= a.len(),
{
    let c = b.drop_last().push(x);
    let k = b.len() - 1;
    assert(c.take(k) =~= b.take(k));
    assert(a.take(k) =~= a.take(b.len() as int).take(k));
    assert(b.take(k) =~= b.drop_last());
    assert forall|i: int| k <= i < a.len() implies #[trigger] a[i] is Ok by {
        if i < b.len() {
            assert(a.take(b.len() as int)[i] == a[i]);
        }
    }
}

fn note_about_surely_exp() -> (m: ErrorMsg)
    ensures
        m@ == surely_exp_note(),
{
    let m = ErrorMsg::new()
        .line("mexp in this context should be one of the following :")
        .line("- mexp:sym mexp:dot mexp:apply");
    proof {
        assert(m@.lines =~= surely_exp_note().lines);
    }
    m
}

fn note_about_syntax_of_arrow() -> (m: ErrorMsg)
    ensures
        m@ == arrow_syntax_note(),
{
    let m = ErrorMsg::new().head("syntax of arrow :").line("-- mexp ... -> mexp");
    proof {
        assert(m@.lines =~= arrow_syntax_note().lines);
    }
    m
}

fn ket_of_bra(bra: char) -> (r: Result<char, ErrorInCtx>)
    ensures
        match ket_of(bra) {
            Ok(k) => r == Ok::<char, ErrorInCtx>(k),
            Err(e) => r matches Err(x) && x@ == e,
        },
{
    if bra == '(' {
        Ok(')')
    } else if bra == '[' {
        Ok(']')
    } else if bra == '{' {
        Ok('}')
    } else {
        let mut line = string_from("char = ");
        push_char(&mut line, bra);
        let e = ErrorInCtx::new()
            .head("internal-error")
            .line("Parsing::ket_of_bra")
            .line("char is not bra")
            .line(line.as_str());
        proof {
            assert(e@.msg.lines =~= seq!["Parsing::ket_of_bra"@, "char is not bra"@, "char = "@.push(bra)]);
        }
        e.wrap_in_err()
    }
}

fn arg_start_char_p(ch: char) -> (r: bool)
    ensures
        r == (ch == '(' || ch == '{'),
{
    ch == '(' || ch == '{'
}

pub(crate) fn reverse_vec<T>(v: Vec<T>) -> (r: Vec<T>)
    ensures
        r@ == v@.reverse(),
{
    let mut v = v;
    let ghost v0 = v@;
    let mut r: Vec<T> = Vec::new();
    while v.len() > 0
        invariant
            v@ == v0.take(v@.len() as int),
            v@.len() <= v0.len(),
            r@.len() == v0.len() - v@.len(),
            forall|i: int| 0 <= i < r@.len() ==> r@[i] == v0[v0.len() - 1 - i],
        decreases v@.len(),
    {
        let x = v.pop().unwrap();
        r.push(x);
        proof {
            assert(v@ =~= v0.take(v@.len() as int));
        }
    }
    proof {
        assert(r@ =~= v0.reverse());
    }
    r
}

impl<'a, 'b> Parsing<'a, 'b> {
    fn finished_p(&self) -> (r: bool)
        ensures
            r == (self.cursor == self.token_vec@.len()),
    {
        self.cursor == self.token_vec.len()
    }

    fn str_p(&self) -> (r: bool)
        ensures
            r == (self.pos() < self.toks().len() && quoted_with(self.toks()[self.pos()], '"')),
    {
        if self.cursor < self.token_vec.len() {
            self.syntax_table.str_token_p(&self.token_vec[self.cursor])
        } else {
            false
        }
    }

    fn char_p(&self) -> (r: bool)
        ensures
            r == (self.pos() < self.toks().len() && quoted_with(self.toks()[self.pos()], '\'')),
    {
        if self.cursor < self.token_vec.len() {
            self.syntax_table.char_token_p(&self.token_vec[self.cursor])
        } else {
            false
        }
    }

    fn sym_p(&self) -> (r: bool)
        ensures
            r == (self.pos() < self.toks().len() && sym_token(self.ops(), self.toks()[self.pos()])),
    {
        if self.cursor < self.token_vec.len() {
            self.syntax_table.sym_token_p(&self.token_vec[self.cursor])
        } else {
            false
        }
    }

    fn head_check(&self, at: Span, dot: bool) -> (r: Result<bool, ErrorInCtx>)
        ensures
            match head_check(self.stack(), at, dot) {
                Ok(b) => r == Ok::<bool, ErrorInCtx>(b),
                Err(e) => r matches Err(x) && x@ == e,
            },
    {
        let n = self.result_stack.len();
        if n == 0 {
            let e = ErrorInCtx::new()
                .head(if dot { "no-token-before-dot" } else { "no-token-before-arg" })
                .span(at);
            return e.wrap_in_err();
        }
        match &self.result_stack[n - 1] {
            Ok(mexp) => match mexp {
                Mexp::Sym { .. } => Ok(true),
                Mexp::Dot { .. } => Ok(true),
                Mexp::Apply { .. } => Ok(true),
                _ => {
                    let e = ErrorInCtx::new()
                        .head(if dot { "invalid-mexp-before-dot" } else { "invalid-mexp-before-arg" })
                        .span(mexp.span())
                        .note(note_about_surely_exp());
                    proof {
                        assert(e@.notes =~= seq![surely_exp_note()]);
                    }
                    e.wrap_in_err()
                },
            },
            Err(token) => {
                let e = ErrorInCtx::new()
                    .head(if dot { "invalid-token-before-dot" } else { "invalid-token-before-arg" })
                    .span(token.span());
                e.wrap_in_err()
            },
        }
    }

    fn dot_p(&self) -> (r: Result<bool, ErrorInCtx>)
        ensures
            match dot_ahead(self.toks(), self.pos(), self.stack()) {
                Ok(b) => r == Ok::<bool, ErrorInCtx>(b),
                Err(e) => r matches Err(x) && x@ == e,
            },
    {
        if self.cursor < self.token_vec.len() {
            if let Token::Char { ch, span } = self.token_vec[self.cursor] {
                if ch == '.' {
                    return self.head_check(span, true);
                }
            }
        }
        Ok(false)
    }

    fn apply_p(&self) -> (r: Result<bool, ErrorInCtx>)
        ensures
            match apply_ahead(self.toks(), self.pos(), self.stack()) {
                Ok(b) => r == Ok::<bool, ErrorInCtx>(b),
                Err(e) => r matches Err(x) && x@ == e,
            },
    {
        if self.cursor < self.token_vec.len() {
            if let Token::Char { ch, span } = self.token_vec[self.cursor] {
                if arg_start_char_p(ch) {
                    return self.head_check(span, false);
                }
            }
        }
        Ok(false)
    }

    fn array_p(&self) -> (r: bool)
        ensures
            r == (self.pos() < self.toks().len() && char_is(self.toks()[self.pos()], '[')),
    {
        if self.cursor < self.token_vec.len() {
            if let Token::Char { ch, .. } = self.token_vec[self.cursor] {
                return ch == '[';
            }
        }
        false
    }

    fn arrow_p(&self) -> (r: bool)
        ensures
            r == (self.pos() < self.toks().len() && word_is(self.toks()[self.pos()], "--"@)),
    {
        if self.cursor < self.token_vec.len() {
            self.syntax_table.arrow_start_token_p(&self.token_vec[self.cursor])
        } else {
            false
        }
    }

    fn infix_p(&self) -> (r: bool)
        requires
            self.wf(),
        ensures
            r == infix_ahead(self.toks(), self.ops(), self.pos()),
    {
        if self.cursor < self.token_vec.len() {
            if self.syntax_table.op_token_p(&self.token_vec[self.cursor]) {
                if self.cursor + 1 < self.token_vec.len() {
                    if let Token::Char { ch, .. } = self.token_vec[self.cursor + 1] {
                        return !arg_start_char_p(ch);
                    }
                }
                return true;
            }
        }
        false
    }

    fn infix_apply_p(&self) -> (r: bool)
        requires
            self.wf(),
        ensures
            r == infix_apply_ahead(self.toks(), self.ops(), self.pos()),
    {
        if self.cursor < self.token_vec.len() {
            if self.syntax_table.op_token_p(&self.token_vec[self.cursor]) {
                if self.cursor + 1 < self.token_vec.len() {
                    if let Token::Char { ch, .. } = self.token_vec[self.cursor + 1] {
                        return arg_start_char_p(ch);
                    }
                }
                return false;
            }
        }
        false
    }
}

impl<'a, 'b> Parsing<'a, 'b> {
    fn collect_str(&mut self) -> (r: Result<(), ErrorInCtx>)
        requires
            old(self).wf(),
            old(self).pos() < old(self).toks().len(),
            quoted_with(old(self).toks()[old(self).pos()], '"'),
        ensures
            final(self).wf(),
            final(self).same_input(*old(self)),
            r is Ok,
            step_at(collect_mexp(old(self).toks(), old(self).ops(), old(self).pos(), old(self).stack()), *final(self)),
    {
        if let Token::Quotation { span, string, .. } = self.token_vec[self.cursor] {
            self.cursor = self.cursor + 1;
            let mexp = Mexp::Str { span, string };
            proof {
                lemma_items_push(self.result_stack@, Ok::<Mexp<'a>, Token<'a>>(mexp));
            }
            self.result_stack.push(Ok(mexp));
            Ok(())
        } else {
            ErrorInCtx::new().head("internal-error").line("Parsing::collect_str").wrap_in_err()
        }
    }

    fn collect_char(&mut self) -> (r: Result<(), ErrorInCtx>)
        requires
            old(self).wf(),
            old(self).pos() < old(self).toks().len(),
            !quoted_with(old(self).toks()[old(self).pos()], '"'),
            quoted_with(old(self).toks()[old(self).pos()], '\''),
        ensures
            final(self).wf(),
            final(self).same_input(*old(self)),
            r is Ok,
            step_at(collect_mexp(old(self).toks(), old(self).ops(), old(self).pos(), old(self).stack()), *final(self)),
    {
        if let Token::Quotation { span, string, .. } = self.token_vec[self.cursor] {
            self.cursor = self.cursor + 1;
            let mexp = Mexp::Char { span, ch: string };
            proof {
                lemma_items_push(self.result_stack@, Ok::<Mexp<'a>, Token<'a>>(mexp));
            }
            self.result_stack.push(Ok(mexp));
            Ok(())
        } else {
            ErrorInCtx::new().head("internal-error").line("Parsing::collect_char").wrap_in_err()
        }
    }

    fn collect_sym(&mut self) -> (r: Result<(), ErrorInCtx>)
        requires
            old(self).wf(),
        ensures
            final(self).wf(),
            final(self).same_input(*old(self)),
            old(self).pos() < old(self).toks().len() && old(self).toks()[old(self).pos()] is Word ==> {
                &&& r is Ok
                &&& final(self).cursor == old(self).cursor + 1
                &&& (old(self).toks()[old(self).pos()] matches TokenView::Word { span, word }
                    && final(self).stack() == old(self).stack().push(Ok(MexpView::Sym { span, symbol: word })))
            },
            !(old(self).pos() < old(self).toks().len() && old(self).toks()[old(self).pos()] is Word) ==> {
                &&& r matches Err(e) && e@ == internal_error("Parsing::collect_sym"@)
                &&& final(self).cursor == old(self).cursor
            },
    {
        if self.cursor < self.token_vec.len() {
            if let Token::Word { span, word } = self.token_vec[self.cursor] {
                self.cursor = self.cursor + 1;
                let mexp = Mexp::Sym { span, symbol: word };
                proof {
                    lemma_items_push(self.result_stack@, Ok::<Mexp<'a>, Token<'a>>(mexp));
                }
                self.result_stack.push(Ok(mexp));
                return Ok(());
            }
        }
        let e = ErrorInCtx::new().head("internal-error").line("Parsing::collect_sym");
        proof {
            assert(e@.msg.lines =~= seq!["Parsing::collect_sym"@]);
        }
        e.wrap_in_err()
    }

    fn collect_dot(&mut self) -> (r: Result<(), Stop>)
        requires
            old(self).wf(),
            dot_ahead(old(self).toks(), old(self).pos(), old(self).stack()) == Ok::<bool, ErrorInCtxView>(true),
        ensures
            final(self).wf(),
            final(self).same_input(*old(self)),
            step_ends(collect_dot(old(self).toks(), old(self).pos(), old(self).stack()), r),
            r is Ok ==> {
                &&& step_at(collect_dot(old(self).toks(), old(self).pos(), old(self).stack()), *final(self))
                &&& old(self).cursor < final(self).cursor
                &&& pushed_over(old(self).stack(), final(self).stack())
                &&& final(self).stack().len() <= old(self).stack().len()
            },
    {
        let ghost st0 = self.stack();
        self.cursor = self.cursor + 1;
        match self.collect_sym() {
            Err(error) => {
                if self.cursor < self.token_vec.len() {
                    let token = self.token_vec[self.cursor];
                    let e = error.head("non-symbol-after-dot").span(Span { lo: token.span().lo, hi: token.span().hi });
                    return Err(Stop::Error(e));
                } else {
                    let span = self.token_vec[self.cursor - 1].span();
                    let e = error.head("no-token-after-dot").span(span);
                    return Err(Stop::Error(e));
                }
            },
            Ok(()) => {},
        }
        let ghost st1 = self.result_stack@;
        proof {
            assert(self.cursor == old(self).cursor + 2);
            assert(self.stack().len() == st0.len() + 1);
            assert(st1.len() == st0.len() + 1);
            assert(items_view(st1)[st1.len() - 1] == item_view(st1[st1.len() - 1]));
            assert(items_view(st1)[st1.len() - 2] == item_view(st1[st1.len() - 2]));
            assert(items_view(st1)[st1.len() - 2] == st0[st0.len() - 1]);
        }
        let tail = match self.result_stack.pop() {
            Some(Ok(m)) => m,
            _ => {
                return Err(Stop::Panic);
            },
        };
        let head = match self.result_stack.pop() {
            Some(Ok(m)) => m,
            _ => {
                return Err(Stop::Panic);
            },
        };
        let mexp = Mexp::Dot {
            span: Span { lo: head.span().lo, hi: tail.span().hi },
            head: Box::new(head),
            tail: Box::new(tail),
        };
        proof {
            lemma_items_drop_last(st1);
            lemma_items_drop_last(st1.drop_last());
            lemma_items_push(self.result_stack@, Ok::<Mexp<'a>, Token<'a>>(mexp));
        }
        self.result_stack.push(Ok(mexp));
        proof {
            let st2 = self.stack();
            assert(st2.take(st2.len() - 1) =~= st0.take(st2.len() - 1));
            let t = old(self).toks();
            let p = old(self).pos();
            assert(p + 1 < t.len());
            assert(t[p + 1] is Word);
            assert(top_expr(st0) == Some(head@));
            assert(st2 == st0.drop_last().push(Ok(mexp@)));
            assert(step_at(collect_dot(t, p, st0), *self));
            assert(pushed_over(st0, st2));
        }
        Ok(())
    }

    fn mexp_vec_before_char(&mut self, ch: char) -> (r: Result<Vec<Mexp<'a>>, Stop>)
        requires
            pop_exprs(old(self).stack()).0.len() > 0,
            char_marker(pop_exprs(old(self).stack()).0.last(), ch),
        ensures
            final(self).cursor == old(self).cursor,
            final(self).same_input(*old(self)),
            r matches Ok(v) && mexps_view(v@) == pop_exprs(old(self).stack()).1,
            final(self).stack() == pop_exprs(old(self).stack()).0.drop_last(),
    {
        let mut mexp_vec: Vec<Mexp<'a>> = Vec::new();
        loop
            invariant
                self.cursor == old(self).cursor,
                self.same_input(*old(self)),
                pop_exprs(old(self).stack()).0.len() > 0,
                char_marker(pop_exprs(old(self).stack()).0.last(), ch),
                pop_exprs(self.stack()).0 == pop_exprs(old(self).stack()).0,
                pop_exprs(old(self).stack()).1 == pop_exprs(self.stack()).1
                    + mexp_vec@.map_values(|m: Mexp<'a>| m@).reverse(),
            decreases self.result_stack@.len(),
        {
            let ghost before = self.result_stack@;
            proof {
                if before.len() > 0 {
                    assert(items_view(before)[before.len() - 1] == item_view(before[before.len() - 1]));
                }
            }
            match self.result_stack.pop() {
                Some(Err(Token::Char { ch: tos_ch, .. })) => {
                    if tos_ch == ch {
                        let mexp_vec = reverse_vec(mexp_vec);
                        proof {
                            lemma_items_drop_last(before);
                            let w = mexp_vec@;
                            lemma_mexps_view_map(w);
                            assert(pop_exprs(items_view(before)).1 =~= Seq::<MexpView>::empty());
                            assert(w.map_values(|m: Mexp<'a>| mexp_view(m)) =~= pop_exprs(old(self).stack()).1);
                        }
                        return Ok(mexp_vec);
                    } else {
                        return Err(Stop::Error(ErrorInCtx::new()
                            .head("internal-error")
                            .line("Parsing::mexp_vec_before_char")
                            .line("expecting char in result_stack")));
                    }
                },
                Some(Err(_)) => {
                    return Err(Stop::Error(ErrorInCtx::new()
                        .head("internal-error")
                        .line("Parsing::mexp_vec_before_char")
                        .line("expecting char in result_stack")));
                },
                Some(Ok(mexp)) => {
                    proof {
                        lemma_items_drop_last(before);
                        let ms = mexp_vec@.map_values(|m: Mexp<'a>| m@);
                        let ms2 = mexp_vec@.push(mexp).map_values(|m: Mexp<'a>| m@);
                        assert(ms2 =~= ms.push(mexp@));
                        assert(ms2.reverse() =~= seq![mexp@] + ms.reverse());
                        let p0 = pop_exprs(items_view(before)).1;
                        let p1 = pop_exprs(self.stack()).1;
                        assert(p0 =~= p1.push(mexp@));
                        assert(p0 + ms.reverse() =~= p1 + ms2.reverse());
                    }
                    mexp_vec.push(mexp);
                },
                None => {
                    proof {
                        assert(before.len() == 0);
                        assert(items_view(before).len() == 0);
                        assert(pop_exprs(items_view(before)).0.len() == 0);
                    }
                    return Err(Stop::Error(ErrorInCtx::new()
                        .head("internal-error")
                        .head("Parsing::mexp_vec_before_char")
                        .line("expecting char in result_stack")
                        .line("but result_stack is empty")));
                },
            }
        }
    }

    fn mexp_vec_before_word(&mut self, word: &str) -> (r: Result<Vec<Mexp<'a>>, Stop>)
        requires
            pop_exprs(old(self).stack()).0.len() > 0,
            word_marker(pop_exprs(old(self).stack()).0.last(), word@),
        ensures
            final(self).cursor == old(self).cursor,
            final(self).same_input(*old(self)),
            r matches Ok(v) && mexps_view(v@) == pop_exprs(old(self).stack()).1,
            final(self).stack() == pop_exprs(old(self).stack()).0.drop_last(),
    {
        let mut mexp_vec: Vec<Mexp<'a>> = Vec::new();
        loop
            invariant
                self.cursor == old(self).cursor,
                self.same_input(*old(self)),
                pop_exprs(old(self).stack()).0.len() > 0,
                word_marker(pop_exprs(old(self).stack()).0.last(), word@),
                pop_exprs(self.stack()).0 == pop_exprs(old(self).stack()).0,
                pop_exprs(old(self).stack()).1 == pop_exprs(self.stack()).1
                    + mexp_vec@.map_values(|m: Mexp<'a>| m@).reverse(),
            decreases self.result_stack@.len(),
        {
            let ghost before = self.result_stack@;
            proof {
                if before.len() > 0 {
                    assert(items_view(before)[before.len() - 1] == item_view(before[before.len() - 1]));
                }
            }
            match self.result_stack.pop() {
                Some(Err(Token::Word { word: tos_word, .. })) => {
                    if str_eq(tos_word, word) {
                        let mexp_vec = reverse_vec(mexp_vec);
                        proof {
                            lemma_items_drop_last(before);
                            let w = mexp_vec@;
                            lemma_mexps_view_map(w);
                            assert(pop_exprs(items_view(before)).1 =~= Seq::<MexpView>::empty());
                            assert(w.map_values(|m: Mexp<'a>| mexp_view(m)) =~= pop_exprs(old(self).stack()).1);
                        }
                        return Ok(mexp_vec);
                    } else {
                        return Err(Stop::Error(ErrorInCtx::new()
                            .head("internal-error")
                            .line("Parsing::mexp_vec_before_word")
                            .line("expecting word in result_stack")));
                    }
                },
                Some(Err(_)) => {
                    return Err(Stop::Error(ErrorInCtx::new()
                        .head("internal-error")
                        .line("Parsing::mexp_vec_before_word")
                        .line("expecting word in result_stack")));
                },
                Some(Ok(mexp)) => {
                    proof {
                        lemma_items_drop_last(before);
                        let ms = mexp_vec@.map_values(|m: Mexp<'a>| m@);
                        let ms2 = mexp_vec@.push(mexp).map_values(|m: Mexp<'a>| m@);
                        assert(ms2 =~= ms.push(mexp@));
                        assert(ms2.reverse() =~= seq![mexp@] + ms.reverse());
                        let p0 = pop_exprs(items_view(before)).1;
                        let p1 = pop_exprs(self.stack()).1;
                        assert(p0 =~= p1.push(mexp@));
                        assert(p0 + ms.reverse() =~= p1 + ms2.reverse());
                    }
                    mexp_vec.push(mexp);
                },
                None => {
                    return Err(Stop::Error(ErrorInCtx::new()
                        .head("internal-error")
                        .head("Parsing::mexp_vec_before_word")
                        .line("expecting word in result_stack")
                        .line("but result_stack is empty")));
                },
            }
        }
    }
}

impl<'a, 'b> Parsing<'a, 'b> {
    fn get_body_and_span(&mut self) -> (r: Result<(Vec<Mexp<'a>>, Span), Stop>)
        requires
            old(self).wf(),
            old(self).pos() < old(self).toks().len(),
        ensures
            final(self).wf(),
            final(self).same_input(*old(self)),
            step_ends(get_body(old(self).toks(), old(self).ops(), old(self).pos(), old(self).stack()), r),
            r is Ok ==> {
                &&& step_at(get_body(old(self).toks(), old(self).ops(), old(self).pos(), old(self).stack()), *final(self))
                &&& old(self).cursor < final(self).cursor
                &&& final(self).stack() == old(self).stack()
            },
            r matches Ok(res) ==> {
                &&& mexps_view(res.0@) == get_body(old(self).toks(), old(self).ops(), old(self).pos(), old(self).stack())->val.0
                &&& res.1 == get_body(old(self).toks(), old(self).ops(), old(self).pos(), old(self).stack())->val.1
            },
        decreases old(self).token_vec@.len() - old(self).cursor, 1nat,
    {
        let ghost t = self.toks();
        let ghost o = self.ops();
        let ghost target = get_body(t, o, self.pos(), self.stack());
        let ghost st0 = self.stack();
        let token = self.token_vec[self.cursor];
        self.cursor = self.cursor + 1;
        let bra = match token {
            Token::Char { ch, .. } => ch,
            _ => {
                let e = ErrorInCtx::new()
                    .head("Parsing::get_body_and_span")
                    .line("expecting bra char")
                    .span(token.span());
                proof {
                    assert(e@.msg.lines =~= seq!["expecting bra char"@]);
                }
                return Err(Stop::Error(e));
            },
        };
        let lo = token.span().lo;
        let bra_span = token.span();
        proof {
            lemma_items_push(self.result_stack@, Err::<Mexp<'a>, Token<'a>>(token));
        }
        self.result_stack.push(Err(token));
        let ghost f: int = st0.len() as int + 1;
        proof {
            assert(self.stack().take(f) =~= st0.push(Err(token@)));
        }
        loop
            invariant
                self.wf(),
                self.same_input(*old(self)),
                t == self.toks(),
                o == self.ops(),
                self.cursor > old(self).cursor,
                lo == bra_span.lo,
                token@ == (TokenView::Char { span: bra_span, ch: bra }),
                f == st0.len() + 1,
                st0 == old(self).stack(),
                target == get_body(t, o, old(self).pos(), st0),
                body_loop(t, o, self.pos(), self.stack(), bra, bra_span) == target,
                marked_at(self.stack(), f),
                self.stack().take(f) == st0.push(Err(token@)),
            decreases self.token_vec@.len() - self.cursor,
        {
            if self.finished_p() {
                let e = ErrorInCtx::new().head("ket-mismatching").span(bra_span);
                return Err(Stop::Error(e));
            }
            let ghost prev = self.stack();
            let tok = self.token_vec[self.cursor];
            let mut closing = false;
            if let Token::Char { span, ch } = tok {
                let ket = match ket_of_bra(bra) {
                    Ok(k) => k,
                    Err(e) => {
                        return Err(Stop::Error(e));
                    },
                };
                if ch == ket {
                    let hi = span.hi;
                    self.cursor = self.cursor + 1;
                    proof {
                        lemma_pop_exprs_marked(prev, f);
                        assert(prev.take(f)[f - 1] == prev[f - 1]);
                        assert(prev.take(f).drop_last() =~= st0);
                    }
                    let body = match self.mexp_vec_before_char(bra) {
                        Ok(v) => v,
                        Err(e) => {
                            return Err(e);
                        },
                    };
                    return Ok((body, Span { lo, hi }));
                } else {
                    closing = false;
                }
            }
            if !closing {
                match self.collect_mexp() {
                    Ok(()) => {},
                    Err(e) => {
                        return Err(e);
                    },
                }
                proof {
                    lemma_pushed_marked(prev, self.stack(), f);
                }
            }
        }
    }

    fn get_arg(&mut self) -> (r: Result<MexpArg<'a>, Stop>)
        requires
            old(self).wf(),
        ensures
            final(self).wf(),
            final(self).same_input(*old(self)),
            step_ends(get_arg(old(self).toks(), old(self).ops(), old(self).pos(), old(self).stack()), r),
            r is Ok ==> {
                &&& step_at(get_arg(old(self).toks(), old(self).ops(), old(self).pos(), old(self).stack()), *final(self))
                &&& old(self).cursor < final(self).cursor
                &&& final(self).stack() == old(self).stack()
            },
            r matches Ok(a) ==> a@ == get_arg(old(self).toks(), old(self).ops(), old(self).pos(), old(self).stack())->val,
        decreases old(self).token_vec@.len() - old(self).cursor, 2nat,
    {
        if self.cursor < self.token_vec.len() {
            let token = self.token_vec[self.cursor];
            match token {
                Token::Char { ch, .. } => {
                    if ch == '(' {
                        let (body, span) = match self.get_body_and_span() {
                            Ok(res) => res,
                            Err(e) => {
                                return Err(e);
                            },
                        };
                        return Ok(MexpArg::Tuple { span, body });
                    } else if ch == '{' {
                        let (body, span) = match self.get_body_and_span() {
                            Ok(res) => res,
                            Err(e) => {
                                return Err(e);
                            },
                        };
                        return Ok(MexpArg::Block { span, body });
                    }
                },
                _ => {},
            }
            let e = ErrorInCtx::new()
                .head("Parsing::get_arg")
                .line("expecting '(' or '{'")
                .span(token.span());
            proof {
                assert(e@.msg.lines =~= seq!["expecting '(' or '{'"@]);
            }
            Err(Stop::Error(e))
        } else {
            let e = ErrorInCtx::new().head("internal-error").line("Parsing::get_arg");
            proof {
                assert(e@.msg.lines =~= seq!["Parsing::get_arg"@]);
            }
            Err(Stop::Error(e))
        }
    }

    fn collect_apply(&mut self) -> (r: Result<(), Stop>)
        requires
            old(self).wf(),
            apply_ahead(old(self).toks(), old(self).pos(), old(self).stack()) == Ok::<bool, ErrorInCtxView>(true),
        ensures
            final(self).wf(),
            final(self).same_input(*old(self)),
            step_ends(collect_apply(old(self).toks(), old(self).ops(), old(self).pos(), old(self).stack()), r),
            r is Ok ==> {
                &&& step_at(collect_apply(old(self).toks(), old(self).ops(), old(self).pos(), old(self).stack()), *final(self))
                &&& old(self).cursor < final(self).cursor
                &&& pushed_over(old(self).stack(), final(self).stack())
                &&& final(self).stack().len() <= old(self).stack().len()
            },
        decreases old(self).token_vec@.len() - old(self).cursor, 3nat,
    {
        let ghost st0 = self.stack();
        let arg = match self.get_arg() {
            Ok(a) => a,
            Err(e) => {
                return Err(e);
            },
        };
        let ghost st1 = self.result_stack@;
        proof {
            assert(items_view(st1)[st1.len() - 1] == item_view(st1[st1.len() - 1]));
        }
        let head = match self.result_stack.pop() {
            Some(Ok(m)) => m,
            _ => {
                return Err(Stop::Panic);
            },
        };
        let mexp = Mexp::Apply { span: Span { lo: head.span().lo, hi: arg.span().hi }, head: Box::new(head), arg };
        proof {
            lemma_items_drop_last(st1);
            lemma_items_push(self.result_stack@, Ok::<Mexp<'a>, Token<'a>>(mexp));
        }
        self.result_stack.push(Ok(mexp));
        proof {
            let st2 = self.stack();
            assert(st2.take(st2.len() - 1) =~= st0.take(st2.len() - 1));
            assert(st2 == st0.drop_last().push(Ok(mexp@)));
        }
        Ok(())
    }

    fn collect_array(&mut self) -> (r: Result<(), Stop>)
        requires
            old(self).wf(),
            old(self).pos() < old(self).toks().len(),
        ensures
            final(self).wf(),
            final(self).same_input(*old(self)),
            step_ends(collect_array(old(self).toks(), old(self).ops(), old(self).pos(), old(self).stack()), r),
            r is Ok ==> {
                &&& step_at(collect_array(old(self).toks(), old(self).ops(), old(self).pos(), old(self).stack()), *final(self))
                &&& old(self).cursor < final(self).cursor
                &&& pushed_over(old(self).stack(), final(self).stack())
            },
        decreases old(self).token_vec@.len() - old(self).cursor, 3nat,
    {
        let ghost st0 = self.stack();
        let (body, span) = match self.get_body_and_span() {
            Ok(res) => res,
            Err(e) => {
                return Err(e);
            },
        };
        let mexp = Mexp::Array { span, body };
        proof {
            lemma_items_push(self.result_stack@, Ok::<Mexp<'a>, Token<'a>>(mexp));
        }
        self.result_stack.push(Ok(mexp));
        proof {
            let st2 = self.stack();
            assert(st2.take(st2.len() - 1) =~= st0.take(st2.len() - 1));
        }
        Ok(())
    }

    fn collect_arrow(&mut self) -> (r: Result<(), Stop>)
        requires
            old(self).wf(),
            old(self).pos() < old(self).toks().len(),
            word_is(old(self).toks()[old(self).pos()], "--"@),
        ensures
            final(self).wf(),
            final(self).same_input(*old(self)),
            step_ends(collect_arrow(old(self).toks(), old(self).ops(), old(self).pos(), old(self).stack()), r),
            r is Ok ==> {
                &&& step_at(collect_arrow(old(self).toks(), old(self).ops(), old(self).pos(), old(self).stack()), *final(self))
                &&& old(self).cursor < final(self).cursor
                &&& pushed_over(old(self).stack(), final(self).stack())
            },
        decreases old(self).token_vec@.len() - old(self).cursor, 3nat,
    {
        let ghost t = self.toks();
        let ghost o = self.ops();
        let ghost st0 = self.stack();
        let ghost target = collect_arrow(t, o, self.pos(), st0);
        let token = self.token_vec[self.cursor];
        self.cursor = self.cursor + 1;
        let lo = token.span().lo;
        let arrow_start_span = token.span();
        proof {
            lemma_items_push(self.result_stack@, Err::<Mexp<'a>, Token<'a>>(token));
        }
        self.result_stack.push(Err(token));
        let ghost f: int = st0.len() as int + 1;
        proof {
            assert(self.stack().take(f) =~= st0.push(Err(token@)));
        }
        loop
            invariant
                self.wf(),
                self.same_input(*old(self)),
                t == self.toks(),
                o == self.ops(),
                self.cursor > old(self).cursor,
                lo == arrow_start_span.lo,
                arrow_start_span == token@.span(),
                f == st0.len() + 1,
                st0 == old(self).stack(),
                target == collect_arrow(t, o, old(self).pos(), st0),
                arrow_loop(t, o, self.pos(), self.stack(), arrow_start_span) == target,
                marked_at(self.stack(), f),
                self.stack().take(f) == st0.push(Err(token@)),
                word_is(token@, "--"@),
            decreases self.token_vec@.len() - self.cursor,
        {
            if self.finished_p() {
                let e = ErrorInCtx::new()
                    .head("arrow-end-mismatching")
                    .span(arrow_start_span)
                    .note(note_about_syntax_of_arrow());
                proof {
                    assert(e@.notes =~= seq![arrow_syntax_note()]);
                }
                return Err(Stop::Error(e));
            }
            let ghost prev = self.stack();
            let tok = self.token_vec[self.cursor];
            let mut at_end = false;
            if let Token::Word { word, .. } = tok {
                at_end = str_eq(word, "->");
            }
            if at_end {
                self.cursor = self.cursor + 1;
                let ret = match self.get_mexp() {
                    Ok(m) => m,
                    Err(e) => {
                        return Err(e);
                    },
                };
                let ghost cur = self.stack();
                proof {
                    lemma_popped_marked(prev, cur, f);
                    lemma_pop_exprs_marked(cur, f);
                    assert(cur.take(f)[f - 1] == cur[f - 1]);
                    assert(prev.take(f)[f - 1] == prev[f - 1]);
                    assert(cur.take(f).drop_last() =~= st0);
                }
                let ante = match self.mexp_vec_before_word("--") {
                    Ok(v) => v,
                    Err(e) => {
                        return Err(e);
                    },
                };
                let hi = ret.span().hi;
                let mexp = Mexp::Arrow { span: Span { lo, hi }, ante, ret: Box::new(ret) };
                proof {
                    lemma_items_push(self.result_stack@, Ok::<Mexp<'a>, Token<'a>>(mexp));
                }
                self.result_stack.push(Ok(mexp));
                proof {
                    let st2 = self.stack();
                    assert(st2.take(st2.len() - 1) =~= st0.take(st2.len() - 1));
                }
                return Ok(());
            } else {
                match self.collect_mexp() {
                    Ok(()) => {},
                    Err(e) => {
                        return Err(e);
                    },
                }
                proof {
                    lemma_pushed_marked(prev, self.stack(), f);
                }
            }
        }
    }

    fn collect_infix(&mut self) -> (r: Result<(), Stop>)
        requires
            old(self).wf(),
        ensures
            final(self).wf(),
            final(self).same_input(*old(self)),
            step_ends(collect_infix(old(self).toks(), old(self).ops(), old(self).pos(), old(self).stack()), r),
            r is Ok ==> {
                &&& step_at(collect_infix(old(self).toks(), old(self).ops(), old(self).pos(), old(self).stack()), *final(self))
                &&& old(self).cursor < final(self).cursor
                &&& pushed_over(old(self).stack(), final(self).stack())
                &&& final(self).stack().len() <= old(self).stack().len()
            },
        decreases old(self).token_vec@.len() - old(self).cursor, 3nat,
    {
        let ghost st0 = self.stack();
        if self.cursor < self.token_vec.len() {
            if let Token::Word { word, .. } = self.token_vec[self.cursor] {
                self.cursor = self.cursor + 1;
                let rhs = match self.get_operand() {
                    Ok(m) => m,
                    Err(e) => {
                        return Err(e);
                    },
                };
                let ghost st1 = self.result_stack@;
                proof {
                    if st1.len() > 0 {
                        assert(items_view(st1)[st1.len() - 1] == item_view(st1[st1.len() - 1]));
                    }
                }
                let lhs = match self.result_stack.pop() {
                    Some(Ok(m)) => m,
                    _ => {
                        return Err(Stop::Panic);
                    },
                };
                let mexp = Mexp::Infix {
                    span: Span { lo: lhs.span().lo, hi: rhs.span().hi },
                    op: word,
                    lhs: Box::new(lhs),
                    rhs: Box::new(rhs),
                };
                proof {
                    lemma_items_drop_last(st1);
                    lemma_items_push(self.result_stack@, Ok::<Mexp<'a>, Token<'a>>(mexp));
                }
                self.result_stack.push(Ok(mexp));
                proof {
                    lemma_popped_then_replaced(st0, items_view(st1), Ok(mexp@));
                }
                return Ok(());
            }
        }
        let e = ErrorInCtx::new().head("internal-error").line("Parsing::collect_infix");
        proof {
            assert(e@.msg.lines =~= seq!["Parsing::collect_infix"@]);
        }
        Err(Stop::Error(e))
    }

    fn collect_infix_apply(&mut self) -> (r: Result<(), Stop>)
        requires
            old(self).wf(),
        ensures
            final(self).wf(),
            final(self).same_input(*old(self)),
            step_ends(collect_infix_apply(old(self).toks(), old(self).ops(), old(self).pos(), old(self).stack()), r),
            r is Ok ==> {
                &&& step_at(collect_infix_apply(old(self).toks(), old(self).ops(), old(self).pos(), old(self).stack()), *final(self))
                &&& old(self).cursor < final(self).cursor
                &&& pushed_over(old(self).stack(), final(self).stack())
                &&& final(self).stack().len() <= old(self).stack().len()
            },
        decreases old(self).token_vec@.len() - old(self).cursor, 3nat,
    {
        let ghost st0 = self.stack();
        if self.cursor < self.token_vec.len() {
            if let Token::Word { word, .. } = self.token_vec[self.cursor] {
                self.cursor = self.cursor + 1;
                let arg = match self.get_arg() {
                    Ok(a) => a,
                    Err(e) => {
                        return Err(e);
                    },
                };
                let ghost st1 = self.result_stack@;
                proof {
                    if st1.len() > 0 {
                        assert(items_view(st1)[st1.len() - 1] == item_view(st1[st1.len() - 1]));
                    }
                }
                let lhs = match self.result_stack.pop() {
                    Some(Ok(m)) => m,
                    _ => {
                        return Err(Stop::Panic);
                    },
                };
                let mexp = Mexp::InfixApply {
                    span: Span { lo: lhs.span().lo, hi: arg.span().hi },
                    op: word,
                    lhs: Box::new(lhs),
                    arg,
                };
                proof {
                    lemma_items_drop_last(st1);
                    lemma_items_push(self.result_stack@, Ok::<Mexp<'a>, Token<'a>>(mexp));
                }
                self.result_stack.push(Ok(mexp));
                proof {
                    assert(popped_over(st0, items_view(st1))) by {
                        assert(items_view(st1).take(items_view(st1).len() as int) =~= items_view(st1));
                    }
                    lemma_popped_then_replaced(st0, items_view(st1), Ok(mexp@));
                }
                return Ok(());
            }
        }
        let e = ErrorInCtx::new().head("internal-error").line("Parsing::collect_infix_apply");
        proof {
            assert(e@.msg.lines =~= seq!["Parsing::collect_infix_apply"@]);
        }
        Err(Stop::Error(e))
    }

    fn collect_mexp(&mut self) -> (r: Result<(), Stop>)
        requires
            old(self).wf(),
        ensures
            final(self).wf(),
            final(self).same_input(*old(self)),
            step_ends(collect_mexp(old(self).toks(), old(self).ops(), old(self).pos(), old(self).stack()), r),
            r is Ok ==> {
                &&& step_at(collect_mexp(old(self).toks(), old(self).ops(), old(self).pos(), old(self).stack()), *final(self))
                &&& old(self).cursor < final(self).cursor
                &&& pushed_over(old(self).stack(), final(self).stack())
            },
        decreases old(self).token_vec@.len() - old(self).cursor, 4nat,
    {
        let ghost st0 = self.stack();
        if self.str_p() {
            return match self.collect_str() {
                Ok(()) => {
                    proof {
                        let st2 = self.stack();
                        assert(st2.take(st2.len() - 1) =~= st0.take(st2.len() - 1));
                    }
                    Ok(())
                },
                Err(e) => Err(Stop::Error(e)),
            };
        }
        if self.char_p() {
            return match self.collect_char() {
                Ok(()) => {
                    proof {
                        let st2 = self.stack();
                        assert(st2.take(st2.len() - 1) =~= st0.take(st2.len() - 1));
                    }
                    Ok(())
                },
                Err(e) => Err(Stop::Error(e)),
            };
        }
        if self.sym_p() {
            return match self.collect_sym() {
                Ok(()) => {
                    proof {
                        let st2 = self.stack();
                        assert(st2.take(st2.len() - 1) =~= st0.take(st2.len() - 1));
                    }
                    Ok(())
                },
                Err(e) => Err(Stop::Error(e)),
            };
        }
        let dot = match self.dot_p() {
            Ok(b) => b,
            Err(e) => {
                return Err(Stop::Error(e));
            },
        };
        if dot {
            return self.collect_dot();
        }
        let apply = match self.apply_p() {
            Ok(b) => b,
            Err(e) => {
                return Err(Stop::Error(e));
            },
        };
        if apply {
            return self.collect_apply();
        }
        if self.array_p() {
            return self.collect_array();
        }
        if self.arrow_p() {
            return self.collect_arrow();
        }
        if self.infix_p() {
            return self.collect_infix();
        }
        if self.infix_apply_p() {
            return self.collect_infix_apply();
        }
        let e = ErrorInCtx::new().head("internal-error").line("Parsing::collect_mexp");
        proof {
            assert(e@.msg.lines =~= seq!["Parsing::collect_mexp"@]);
        }
        Err(Stop::Error(e))
    }

    fn get_mexp(&mut self) -> (r: Result<Mexp<'a>, Stop>)
        requires
            old(self).wf(),
        ensures
            final(self).wf(),
            final(self).same_input(*old(self)),
            step_ends(get_mexp(old(self).toks(), old(self).ops(), old(self).pos(), old(self).stack()), r),
            r is Ok ==> {
                &&& step_at(get_mexp(old(self).toks(), old(self).ops(), old(self).pos(), old(self).stack()), *final(self))
                &&& old(self).cursor < final(self).cursor
                &&& popped_over(old(self).stack(), final(self).stack())
            },
            r matches Ok(m) ==> m@ == get_mexp(old(self).toks(), old(self).ops(), old(self).pos(), old(self).stack())->val,
        decreases old(self).token_vec@.len() - old(self).cursor, 6nat,
    {
        let ghost t = self.toks();
        let ghost o = self.ops();
        let ghost st0 = self.stack();
        let ghost target = get_mexp(t, o, self.pos(), st0);
        match self.collect_mexp() {
            Ok(()) => {},
            Err(e) => {
                return Err(e);
            },
        }
        loop
            invariant
                self.wf(),
                self.same_input(*old(self)),
                t == self.toks(),
                o == self.ops(),
                self.cursor > old(self).cursor,
                st0 == old(self).stack(),
                target == get_mexp(t, o, old(self).pos(), st0),
                mexp_loop(t, o, self.pos(), self.stack()) == target,
                pushed_over(st0, self.stack()),
            decreases self.token_vec@.len() - self.cursor,
        {
            let ghost prev = self.stack();
            let dot = match self.dot_p() {
                Ok(b) => b,
                Err(e) => {
                    return Err(Stop::Error(e));
                },
            };
            if dot {
                match self.collect_dot() {
                    Ok(()) => {},
                    Err(e) => {
                        return Err(e);
                    },
                }
            } else {
                let apply = match self.apply_p() {
                    Ok(b) => b,
                    Err(e) => {
                        return Err(Stop::Error(e));
                    },
                };
                if apply {
                    match self.collect_apply() {
                        Ok(()) => {},
                        Err(e) => {
                            return Err(e);
                        },
                    }
                } else if self.infix_p() {
                    match self.collect_infix() {
                        Ok(()) => {},
                        Err(e) => {
                            return Err(e);
                        },
                    }
                } else if self.infix_apply_p() {
                    match self.collect_infix_apply() {
                        Ok(()) => {},
                        Err(e) => {
                            return Err(e);
                        },
                    }
                } else {
                    let ghost st1 = self.result_stack@;
                    proof {
                        assert(items_view(st1)[st1.len() - 1] == item_view(st1[st1.len() - 1]));
                    }
                    let mexp = match self.result_stack.pop() {
                        Some(Ok(m)) => m,
                        _ => {
                            return Err(Stop::Panic);
                        },
                    };
                    proof {
                        lemma_items_drop_last(st1);
                        lemma_pushed_then_popped(st0, items_view(st1));
                    }
                    return Ok(mexp);
                }
            }
            proof {
                lemma_pushed_then_replaced(st0, prev, self.stack());
            }
        }
    }

    fn get_operand(&mut self) -> (r: Result<Mexp<'a>, Stop>)
        requires
            old(self).wf(),
        ensures
            final(self).wf(),
            final(self).same_input(*old(self)),
            step_ends(get_operand(old(self).toks(), old(self).ops(), old(self).pos(), old(self).stack()), r),
            r is Ok ==> {
                &&& step_at(get_operand(old(self).toks(), old(self).ops(), old(self).pos(), old(self).stack()), *final(self))
                &&& old(self).cursor < final(self).cursor
                &&& popped_over(old(self).stack(), final(self).stack())
            },
            r matches Ok(m) ==> m@ == get_operand(old(self).toks(), old(self).ops(), old(self).pos(), old(self).stack())->val,
        decreases old(self).token_vec@.len() - old(self).cursor, 6nat,
    {
        let ghost t = self.toks();
        let ghost o = self.ops();
        let ghost st0 = self.stack();
        let ghost target = get_operand(t, o, self.pos(), st0);
        match self.collect_mexp() {
            Ok(()) => {},
            Err(e) => {
                return Err(e);
            },
        }
        loop
            invariant
                self.wf(),
                self.same_input(*old(self)),
                t == self.toks(),
                o == self.ops(),
                self.cursor > old(self).cursor,
                st0 == old(self).stack(),
                target == get_operand(t, o, old(self).pos(), st0),
                operand_loop(t, o, self.pos(), self.stack()) == target,
                pushed_over(st0, self.stack()),
            decreases self.token_vec@.len() - self.cursor,
        {
            let ghost prev = self.stack();
            let dot = match self.dot_p() {
                Ok(b) => b,
                Err(e) => {
                    return Err(Stop::Error(e));
                },
            };
            if dot {
                match self.collect_dot() {
                    Ok(()) => {},
                    Err(e) => {
                        return Err(e);
                    },
                }
            } else {
                let apply = match self.apply_p() {
                    Ok(b) => b,
                    Err(e) => {
                        return Err(Stop::Error(e));
                    },
                };
                if apply {
                    match self.collect_apply() {
                        Ok(()) => {},
                        Err(e) => {
                            return Err(e);
                        },
                    }
                } else {
                    let ghost st1 = self.result_stack@;
                    proof {
                        assert(items_view(st1)[st1.len() - 1] == item_view(st1[st1.len() - 1]));
                    }
                    let mexp = match self.result_stack.pop() {
                        Some(Ok(m)) => m,
                        _ => {
                            return Err(Stop::Panic);
                        },
                    };
                    proof {
                        lemma_items_drop_last(st1);
                        lemma_pushed_then_popped(st0, items_view(st1));
                    }
                    return Ok(mexp);
                }
            }
            proof {
                lemma_pushed_then_replaced(st0, prev, self.stack());
            }
        }
    }
}

impl<'a, 'b> Parsing<'a, 'b> {
    fn mexp_vec_as_result(self) -> (v: Vec<Mexp<'a>>)
        ensures
            mexps_view(v@) == exprs_of(self.stack()),
    {
        let mut stack = self.result_stack;
        let ghost st0 = items_view(stack@);
        let mut acc: Vec<Mexp<'a>> = Vec::new();
        proof {
            assert(exprs_of(st0) =~= exprs_of(st0) + acc@.map_values(|m: Mexp<'a>| m@).reverse());
        }
        while stack.len() > 0
            invariant
                exprs_of(st0) == exprs_of(items_view(stack@)) + acc@.map_values(|m: Mexp<'a>| m@).reverse(),
            decreases stack@.len(),
        {
            let ghost before = stack@;
            proof {
                assert(items_view(before)[before.len() - 1] == item_view(before[before.len() - 1]));
                lemma_items_drop_last(before);
            }
            match stack.pop() {
                Some(Ok(mexp)) => {
                    proof {
                        let ms = acc@.map_values(|m: Mexp<'a>| m@);
                        let ms2 = acc@.push(mexp).map_values(|m: Mexp<'a>| m@);
                        assert(ms2 =~= ms.push(mexp@));
                        assert(ms2.reverse() =~= seq![mexp@] + ms.reverse());
                        let p1 = exprs_of(items_view(stack@));
                        assert(exprs_of(items_view(before)) == p1.push(mexp@));
                        assert(p1.push(mexp@) + ms.reverse() =~= p1 + ms2.reverse());
                    }
                    acc.push(mexp);
                },
                Some(Err(_)) => {},
                None => {},
            }
        }
        let v = reverse_vec(acc);
        proof {
            lemma_mexps_view_map(v@);
            assert(exprs_of(items_view(stack@)) =~= Seq::<MexpView>::empty());
            assert(v@.map_values(|m: Mexp<'a>| mexp_view(m)) =~= exprs_of(st0));
        }
        v
    }

    fn run(self) -> (r: Result<Vec<Mexp<'a>>, Stop>)
        requires
            self.wf(),
            self.cursor == 0,
            self.result_stack@.len() == 0,
        ensures
            step_ends(parse_tokens(self.toks(), self.ops()), r),
            r matches Ok(v) ==> mexps_view(v@) == parse_tokens(self.toks(), self.ops())->val,
    {
        let mut parsing = self;
        let ghost t = parsing.toks();
        let ghost o = parsing.ops();
        let ghost target = parse_tokens(t, o);
        proof {
            assert(parsing.stack() =~= Seq::<StackItem>::empty());
        }
        loop
            invariant
                parsing.wf(),
                t == parsing.toks(),
                o == parsing.ops(),
                t == self.toks(),
                o == self.ops(),
                target == parse_tokens(t, o),
                run_loop(t, o, parsing.pos(), parsing.stack()) == target,
                forall|i: int| 0 <= i < parsing.stack().len() ==> #[trigger] parsing.stack()[i] is Ok,
            decreases parsing.token_vec@.len() - parsing.cursor,
        {
            if parsing.finished_p() {
                return Ok(parsing.mexp_vec_as_result());
            }
            let ghost prev = parsing.stack();
            match parsing.collect_mexp() {
                Ok(()) => {},
                Err(e) => {
                    return Err(e);
                },
            }
            proof {
                let cur = parsing.stack();
                let k = cur.len() - 1;
                assert forall|i: int| 0 <= i < cur.len() implies #[trigger] cur[i] is Ok by {
                    if i < k {
                        assert(cur.take(k)[i] == cur[i]);
                        assert(prev.take(k)[i] == prev[i]);
                    }
                }
            }
        }
    }
}

/// Whether parsing the text `cs` with the table gives `r`: the error of a
/// quotation that is not closed, or what `parse_tokens` gives on the tokens.
pub open spec fn parsed_as<'a>(table: SyntaxTableView, cs: Seq<char>, r: Result<Vec<Mexp<'a>>, ErrorInCtx>) -> bool {
    match lex_from(table.chars, cs, 0) {
        Err(u) => r matches Err(e) && is_unclosed_error(e@, u, byte_len(cs)),
        Ok(t) => match parse_tokens(t, table.ops) {
            Step::Go { val, .. } => r matches Ok(v) && mexps_view(v@) == val,
            Step::Fail { err } => r matches Err(e) && e@ == err,
            Step::Panic => false,
            Step::Stuck => false,
        },
    }
}

/// Whether parsing the text `cs` with the table takes the left side of an
/// operator from where there is no expression: as the first thing of the
/// text, of a bracket or of an arrow, or after an expression that the
/// right side took to itself.
pub open spec fn parse_panics(table: SyntaxTableView, cs: Seq<char>) -> bool {
    lex_from(table.chars, cs, 0) matches Ok(t) && parse_tokens(t, table.ops) is Panic
}

impl SyntaxTable {
    /// The expressions of `input`, or `None` where an operator finds no
    /// expression before it (see `parse_panics`).
    pub fn try_parse<'a>(&self, input: &'a str) -> (r: Option<Result<Vec<Mexp<'a>>, ErrorInCtx>>)
        requires
            byte_len(input@) <= usize::MAX,
        ensures
            r is None <==> parse_panics(self@, input@),
            r matches Some(x) ==> parsed_as(self@, input@, x),
    {
        let token_vec = match self.char_table.lex(input) {
            Ok(v) => v,
            Err(e) => {
                return Some(Err(e));
            },
        };
        let n = token_vec.len();
        let parsing = Parsing { cursor: 0, syntax_table: self, token_vec, result_stack: Vec::new() };
        match parsing.run() {
            Ok(v) => Some(Ok(v)),
            Err(Stop::Error(e)) => Some(Err(e)),
            Err(Stop::Panic) => None,
        }
    }

    /// The expressions of `input`: the tokens of the table's lexer, read
    /// one expression after another.
    pub fn parse<'a>(&self, input: &'a str) -> (r: Result<Vec<Mexp<'a>>, ErrorInCtx>)
        requires
            byte_len(input@) <= usize::MAX,
            !parse_panics(self@, input@),
        ensures
            parsed_as(self@, input@, r),
    {
        match self.try_parse(input) {
            Some(r) => r,
            None => {
                proof {
                    assert(false);
                }
                Ok(Vec::new())
            },
        }
    }
}

/// The operators that the infix expressions within an expression use, as
/// far as the inference goes: the tail of a dot and the expressions other
/// than dots, applications, arrays, arrows and infixes are not looked into.
pub open spec fn inferred_ops(m: MexpView) -> Set<Seq<char>>
    decreases m, 1nat,
{
    match m {
        MexpView::Dot { head, .. } => inferred_ops(*head),
        MexpView::Apply { head, arg, .. } => inferred_ops(*head).union(inferred_arg_ops(arg)),
        MexpView::Array { body, .. } => inferred_list_ops(body),
        MexpView::Arrow { ante, ret, .. } => inferred_list_ops(ante).union(inferred_ops(*ret)),
        MexpView::Infix { op, lhs, rhs, .. } => set![op].union(inferred_ops(*lhs)).union(inferred_ops(*rhs)),
        MexpView::InfixApply { op, lhs, arg, .. } => set![op].union(inferred_ops(*lhs)).union(inferred_arg_ops(arg)),
        _ => Set::empty(),
    }
}

/// The operators inferred from the expressions of an argument.
pub open spec fn inferred_arg_ops(a: ArgView) -> Set<Seq<char>>
    decreases a, 1nat,
{
    match a {
        ArgView::Tuple { body, .. } => inferred_list_ops(body),
        ArgView::Block { body, .. } => inferred_list_ops(body),
    }
}

/// The operators inferred from a list of expressions.
pub open spec fn inferred_list_ops(ms: Seq<MexpView>) -> Set<Seq<char>>
    decreases ms, 0nat,
{
    if ms.len() == 0 {
        Set::empty()
    } else {
        inferred_list_ops(ms.drop_last()).union(inferred_ops(ms.last()))
    }
}

fn extend_op_set_by_inferring<'a>(op_set: &mut Vec<String>, mexp: &Mexp<'a>)
    ensures
        strings_view(final(op_set)@).to_set() == strings_view(old(op_set)@).to_set().union(inferred_ops(mexp@)),
    decreases mexp, 0nat,
{
    let ghost s0 = strings_view(op_set@).to_set();
    match mexp {
        Mexp::Dot { head, .. } => {
            extend_op_set_by_inferring(op_set, head);
        },
        Mexp::Apply { head, arg, .. } => {
            extend_op_set_by_inferring(op_set, head);
            extend_op_set_by_inferring_arg(op_set, arg);
        },
        Mexp::Array { body, .. } => {
            extend_op_set_by_inferring_list(op_set, body);
        },
        Mexp::Arrow { ante, ret, .. } => {
            extend_op_set_by_inferring_list(op_set, ante);
            extend_op_set_by_inferring(op_set, ret);
        },
        Mexp::Infix { op, lhs, rhs, .. } => {
            add_word(op_set, op);
            extend_op_set_by_inferring(op_set, lhs);
            extend_op_set_by_inferring(op_set, rhs);
        },
        Mexp::InfixApply { op, lhs, arg, .. } => {
            add_word(op_set, op);
            extend_op_set_by_inferring(op_set, lhs);
            extend_op_set_by_inferring_arg(op_set, arg);
        },
        _ => {},
    }
    proof {
        assert(strings_view(op_set@).to_set() =~= s0.union(inferred_ops(mexp@)));
    }
}

fn extend_op_set_by_inferring_arg<'a>(op_set: &mut Vec<String>, arg: &MexpArg<'a>)
    ensures
        strings_view(final(op_set)@).to_set() == strings_view(old(op_set)@).to_set().union(inferred_arg_ops(arg@)),
    decreases arg, 0nat,
{
    match arg {
        MexpArg::Tuple { body, .. } => extend_op_set_by_inferring_list(op_set, body),
        MexpArg::Block { body, .. } => extend_op_set_by_inferring_list(op_set, body),
    }
}

fn extend_op_set_by_inferring_list<'a>(op_set: &mut Vec<String>, v: &Vec<Mexp<'a>>)
    ensures
        strings_view(final(op_set)@).to_set() == strings_view(old(op_set)@).to_set().union(inferred_list_ops(mexps_view(v@))),
    decreases v, 0nat,
{
    let mut i: usize = 0;
    proof {
        assert(v@.take(0) =~= Seq::<Mexp<'a>>::empty());
        assert(strings_view(old(op_set)@).to_set() =~= strings_view(old(op_set)@).to_set().union(Set::<Seq<char>>::empty()));
    }
    while i < v.len()
        invariant
            i <= v@.len(),
            strings_view(op_set@).to_set() == strings_view(old(op_set)@).to_set().union(inferred_list_ops(mexps_view(v@.take(i as int)))),
        decreases v@.len() - i,
    {
        assert(decreases_to!(v => v@[i as int]));
        extend_op_set_by_inferring(op_set, &v[i]);
        proof {
            let prev = v@.take(i as int);
            assert(v@.take(i + 1) =~= prev.push(v@[i as int]));
            crate::mexp::lemma_mexps_view_push(prev, v@[i as int]);
            assert(mexps_view(prev).push(mexp_view(v@[i as int])).drop_last() =~= mexps_view(prev));
            assert(strings_view(op_set@).to_set() =~= strings_view(old(op_set)@).to_set().union(inferred_list_ops(mexps_view(v@.take(i + 1)))));
        }
        i = i + 1;
    }
    proof {
        assert(v@.take(v@.len() as int) =~= v@);
    }
}

/// The syntax table `SyntaxTable::default` gives.
pub open spec fn default_table() -> SyntaxTableView {
    SyntaxTableView { ops: default_ops(), chars: mexp_lex_table() }
}

/// The expressions laid out on lines, each followed by a newline.
pub open spec fn pretty_lines(ms: Seq<MexpView>) -> Seq<char>
    decreases ms.len(),
{
    if ms.len() == 0 {
        Seq::empty()
    } else {
        pretty_lines(ms.drop_last()) + mexp_pretty(ms.last(), 0) + seq!['\n']
    }
}

/// The parse of the tree format of an expression, with the operators it
/// uses.
pub open spec fn tree_reparse(m: MexpView) -> Result<Seq<TokenView>, Unclosed> {
    lex_from(mexp_lex_table(), mexp_tree(m), 0)
}

impl<'a> Mexp<'a> {
    /// The tree format of the expression, parsed again and laid out on
    /// lines.  The tree format has to read back as one expression with the
    /// syntax of M-expressions and the operators the expression uses.
    pub fn to_pretty_tree_format(&self) -> (s: String)
        requires
            byte_len(mexp_tree(self@)) <= usize::MAX,
            tree_reparse(self@) matches Ok(t)
                && parse_tokens(t, inferred_ops(self@)) matches Step::Go { val, .. }
                && val.len() == 1,
        ensures
            tree_reparse(self@) matches Ok(t)
                && parse_tokens(t, inferred_ops(self@)) matches Step::Go { val, .. }
                && s@ == mexp_pretty(val[0], 0),
    {
        let tree_string = self.to_tree_format();
        let mut syntax_table = SyntaxTable::new();
        extend_op_set_by_inferring(&mut syntax_table.op_set, self);
        proof {
            assert(syntax_table@.ops =~= inferred_ops(self@));
        }
        let mut mexp_vec = match syntax_table.parse(tree_string.as_str()) {
            Ok(v) => v,
            Err(_) => {
                proof {
                    assert(false);
                }
                Vec::new()
            },
        };
        proof {
            lemma_mexps_view_len(mexp_vec@);
        }
        let mexp = mexp_vec.pop().unwrap();
        proof {
            lemma_mexps_view_index(mexp_vec@.push(mexp), 0);
            assert(mexp_vec@.push(mexp)[0] == mexp);
        }
        mexp.to_pretty_string()
    }

    /// Each expression of `input`, with the default syntax table, laid out
    /// on lines and followed by a newline.
    pub fn prettify(input: &str) -> (r: Result<String, ErrorInCtx>)
        requires
            byte_len(input@) <= usize::MAX,
            !parse_panics(default_table(), input@),
        ensures
            match lex_from(mexp_lex_table(), input@, 0) {
                Err(u) => r matches Err(e) && is_unclosed_error(e@, u, byte_len(input@)),
                Ok(t) => match parse_tokens(t, default_ops()) {
                    Step::Go { val, .. } => r matches Ok(s) && s@ == pretty_lines(val),
                    Step::Fail { err } => r matches Err(e) && e@ == err,
                    _ => false,
                },
            },
    {
        let syntax_table = SyntaxTable::default();
        proof {
            assert(syntax_table@ == default_table());
        }
        let mexp_vec = match syntax_table.parse(input) {
            Ok(v) => v,
            Err(e) => {
                return Err(e);
            },
        };
        let mut output = String::new();
        let mut i: usize = 0;
        proof {
            assert(mexp_vec@.take(0) =~= Seq::<Mexp>::empty());
            assert(output@ =~= pretty_lines(mexps_view(mexp_vec@.take(0))));
        }
        while i < mexp_vec.len()
            invariant
                i <= mexp_vec@.len(),
                output@ == pretty_lines(mexps_view(mexp_vec@.take(i as int))),
            decreases mexp_vec@.len() - i,
        {
            let line = mexp_vec[i].to_pretty_string();
            push_str(&mut output, line.as_str());
            push_char(&mut output, '\n');
            proof {
                let prev = mexp_vec@.take(i as int);
                assert(mexp_vec@.take(i + 1) =~= prev.push(mexp_vec@[i as int]));
                crate::mexp::lemma_mexps_view_push(prev, mexp_vec@[i as int]);
                assert(mexps_view(prev).push(mexp_view(mexp_vec@[i as int])).drop_last() =~= mexps_view(prev));
                assert(output@ =~= pretty_lines(mexps_view(mexp_vec@.take(i + 1))));
            }
            i = i + 1;
        }
        proof {
            assert(mexp_vec@.take(mexp_vec@.len() as int) =~= mexp_vec@);
        }
        Ok(output)
    }
}

} // verus!
