//! Printing what the parser read gives back the tokens it read from.
//!
//! The parser keeps every token it reads, in order, in the expressions it
//! builds (`law_parse_keeps_tokens`), and the text of an expression lexes
//! back to those tokens (`lemma_text_lexes`); together they give
//! `law_print_reads_back`.

use vstd::prelude::*;
use crate::lexing::{TokenView, Unclosed, lex_from, token_vec_eq_spec};
use crate::lex_join::{no_span, unspanned, unspanned_all, lexes_to, lexical, all_lexical, separated,
    lemma_lexes_cat, lemma_token_text, lemma_unspanned_cat, lemma_lexed_lexical, lemma_token_vec_eq_unspanned,
    lemma_all_lexical_unspanned, lemma_all_lexical_cat};
use crate::mexp::{MexpView, ArgView, mexp_text, arg_text, mexps_text};
use crate::mexp_syntax::{Step, StackItem, quoted_with, sym_token, char_is, word_is, dot_ahead, apply_ahead, get_operand, operand_loop, operand_loop_next,
    infix_ahead, infix_apply_ahead, top_expr, pop_exprs, exprs_of, char_marker, word_marker, ket_of,
    collect_mexp, collect_dot, collect_apply, get_arg, get_body, body_loop, body_next, collect_array,
    collect_arrow, arrow_loop, arrow_next, collect_infix, collect_infix_apply, get_mexp, mexp_loop,
    mexp_loop_next, run_loop, parse_tokens, mexp_lex_table};

verus! {

/// A word token, without a place.
pub open spec fn word_mark(w: Seq<char>) -> TokenView {
    TokenView::Word { span: no_span(), word: w }
}

/// A character token, without a place.
pub open spec fn char_mark(c: char) -> TokenView {
    TokenView::Char { span: no_span(), ch: c }
}

/// A quotation token, without a place.
pub open spec fn quote_mark(m: char, s: Seq<char>) -> TokenView {
    TokenView::Quotation { span: no_span(), quotation_mark: m, string: s }
}

/// The tokens an expression is made of, in order, without places.
pub open spec fn mexp_marks(m: MexpView) -> Seq<TokenView>
    decreases m, 1nat,
{
    match m {
        MexpView::Str { string, .. } => seq![quote_mark('"', string)],
        MexpView::Char { ch, .. } => seq![quote_mark('\'', ch)],
        MexpView::Sym { symbol, .. } => seq![word_mark(symbol)],
        MexpView::Dot { head, tail, .. } => mexp_marks(*head) + seq![char_mark('.')] + mexp_marks(*tail),
        MexpView::Apply { head, arg, .. } => mexp_marks(*head) + arg_marks(arg),
        MexpView::Array { body, .. } => seq![char_mark('[')] + list_marks(body) + seq![char_mark(']')],
        MexpView::Arrow { ante, ret, .. } =>
            seq![word_mark("--"@)] + list_marks(ante) + seq![word_mark("->"@)] + mexp_marks(*ret),
        MexpView::Infix { op, lhs, rhs, .. } => mexp_marks(*lhs) + seq![word_mark(op)] + mexp_marks(*rhs),
        MexpView::InfixApply { op, lhs, arg, .. } => mexp_marks(*lhs) + seq![word_mark(op)] + arg_marks(arg),
    }
}

/// The tokens an argument is made of, in order, without places.
pub open spec fn arg_marks(a: ArgView) -> Seq<TokenView>
    decreases a, 1nat,
{
    match a {
        ArgView::Tuple { body, .. } => seq![char_mark('(')] + list_marks(body) + seq![char_mark(')')],
        ArgView::Block { body, .. } => seq![char_mark('{')] + list_marks(body) + seq![char_mark('}')],
    }
}

/// The tokens of expressions one after another, without places.
pub open spec fn list_marks(ms: Seq<MexpView>) -> Seq<TokenView>
    decreases ms, 0nat,
{
    if ms.len() == 0 {
        Seq::empty()
    } else {
        list_marks(ms.drop_last()) + mexp_marks(ms.last())
    }
}

/// The tokens from index `p` up to `q`, without places.
pub open spec fn seg(t: Seq<TokenView>, p: int, q: int) -> Seq<TokenView> {
    unspanned_all(t.subrange(p, q))
}

/// Whether the token at `q` starts an expression of its own: a quotation,
/// a symbol, an array or an arrow, none of which takes over the expression
/// before it.
pub open spec fn starts_fresh(t: Seq<TokenView>, ops: Set<Seq<char>>, q: int) -> bool {
    &&& 0 <= q < t.len()
    &&& quoted_with(t[q], '"') || quoted_with(t[q], '\'') || sym_token(ops, t[q]) || char_is(t[q], '[')
        || word_is(t[q], "--"@)
}

/// Whether every right side of an operator, and every result of an arrow,
/// starts an expression of its own.  Where one starts with a dot, an
/// argument or another operator instead, the parser joins it to the
/// expression before the operator or arrow, and the tokens come out of
/// order.
pub open spec fn no_takeover(t: Seq<TokenView>, ops: Set<Seq<char>>) -> bool {
    &&& forall|i: int| 0 <= i && i + 1 < t.len() && #[trigger] infix_ahead(t, ops, i) ==> starts_fresh(t, ops, i + 1)
    &&& forall|i: int| 0 <= i && i + 1 < t.len() && #[trigger] word_is(t[i], "->"@) ==> starts_fresh(t, ops, i + 1)
}

/// Whether `stack` is `st` with one more expression on top, made of `ms`.
pub open spec fn pushed(st: Seq<StackItem>, stack: Seq<StackItem>, ms: Seq<TokenView>) -> bool {
    &&& stack.len() == st.len() + 1
    &&& stack.drop_last() == st
    &&& stack.last() is Ok
    &&& mexp_marks(stack.last()->Ok_0) == ms
}

/// Whether `stack` is `st` with the expression on top extended by `ms`.
pub open spec fn extended(st: Seq<StackItem>, stack: Seq<StackItem>, ms: Seq<TokenView>) -> bool {
    &&& st.len() > 0
    &&& st.last() is Ok
    &&& stack.len() == st.len()
    &&& stack.drop_last() == st.drop_last()
    &&& stack.last() is Ok
    &&& mexp_marks(stack.last()->Ok_0) == mexp_marks(st.last()->Ok_0) + ms
}

/// Whether `stack` is `st` after one expression was read, made of `ms`.
pub open spec fn grown(st: Seq<StackItem>, stack: Seq<StackItem>, ms: Seq<TokenView>) -> bool {
    pushed(st, stack, ms) || extended(st, stack, ms)
}

proof fn lemma_seg_split(t: Seq<TokenView>, p: int, q: int, r: int)
    requires
        0 <= p <= q <= r <= t.len(),
    ensures
        seg(t, p, q) + seg(t, q, r) == seg(t, p, r),
{
    assert(t.subrange(p, r) =~= t.subrange(p, q) + t.subrange(q, r));
    lemma_unspanned_cat(t.subrange(p, q), t.subrange(q, r));
}

proof fn lemma_seg_one(t: Seq<TokenView>, p: int)
    requires
        0 <= p < t.len(),
    ensures
        seg(t, p, p + 1) == seq![unspanned(t[p])],
{
    assert(seg(t, p, p + 1) =~= seq![unspanned(t[p])]);
}

proof fn lemma_seg_empty(t: Seq<TokenView>, p: int)
    requires
        0 <= p <= t.len(),
    ensures
        seg(t, p, p) == Seq::<TokenView>::empty(),
{
    assert(seg(t, p, p) =~= Seq::<TokenView>::empty());
}

proof fn lemma_assoc(a: Seq<TokenView>, b: Seq<TokenView>, c: Seq<TokenView>)
    ensures
        a + b + c == a + (b + c),
{
    assert(a + b + c =~= a + (b + c));
}

proof fn lemma_list_marks_push(ms: Seq<MexpView>, m: MexpView)
    ensures
        list_marks(ms.push(m)) == list_marks(ms) + mexp_marks(m),
{
    assert(ms.push(m).drop_last() =~= ms);
}

proof fn lemma_pushed(st: Seq<StackItem>, m: MexpView, ms: Seq<TokenView>)
    requires
        mexp_marks(m) == ms,
    ensures
        pushed(st, st.push(Ok(m)), ms),
{
    assert(st.push(Ok(m)).drop_last() =~= st);
}

proof fn lemma_extended(st: Seq<StackItem>, m: MexpView, ms: Seq<TokenView>)
    requires
        st.len() > 0,
        st.last() is Ok,
        mexp_marks(m) == mexp_marks(st.last()->Ok_0) + ms,
    ensures
        extended(st, st.drop_last().push(Ok(m)), ms),
{
    assert(st.drop_last().push(Ok(m)).drop_last() =~= st.drop_last());
}

proof fn lemma_pop_err(st: Seq<StackItem>, tok: TokenView)
    ensures
        pop_exprs(st.push(Err(tok))) == (st.push(Err(tok)), Seq::<MexpView>::empty()),
{
}

proof fn lemma_pop_grown(st: Seq<StackItem>, stack: Seq<StackItem>, ms: Seq<TokenView>)
    requires
        grown(st, stack, ms),
    ensures
        pop_exprs(stack).0 == pop_exprs(st).0,
        list_marks(pop_exprs(stack).1) == list_marks(pop_exprs(st).1) + ms,
        list_marks(exprs_of(stack)) == list_marks(exprs_of(st)) + ms,
{
    let m = stack.last()->Ok_0;
    if pushed(st, stack, ms) {
        lemma_list_marks_push(pop_exprs(st).1, m);
        lemma_list_marks_push(exprs_of(st), m);
    } else {
        let x = st.last()->Ok_0;
        let s0 = st.drop_last();
        lemma_list_marks_push(pop_exprs(s0).1, m);
        lemma_list_marks_push(pop_exprs(s0).1, x);
        lemma_list_marks_push(exprs_of(s0), m);
        lemma_list_marks_push(exprs_of(s0), x);
        lemma_assoc(list_marks(pop_exprs(s0).1), mexp_marks(x), ms);
        lemma_assoc(list_marks(exprs_of(s0)), mexp_marks(x), ms);
    }
}

proof fn lemma_collect_dot(t: Seq<TokenView>, p: int, st: Seq<StackItem>)
    requires
        0 <= p < t.len(),
        char_is(t[p], '.'),
    ensures
        collect_dot(t, p, st) matches Step::Go { pos, stack, .. } ==>
            pos == p + 2 && pos <= t.len() && extended(st, stack, seg(t, p, pos)),
{
    if p + 1 < t.len() {
        match t[p + 1] {
            TokenView::Word { span, word } => match top_expr(st) {
                Some(head) => {
                    lemma_seg_one(t, p);
                    lemma_seg_one(t, p + 1);
                    lemma_seg_split(t, p, p + 1, p + 2);
                    let m = MexpView::Dot {
                        span: crate::error_report::Span { lo: crate::mexp::mexp_view_span(head).lo, hi: span.hi },
                        head: Box::new(head),
                        tail: Box::new(MexpView::Sym { span, symbol: word }),
                    };
                    assert(mexp_marks(MexpView::Sym { span, symbol: word }) == seq![word_mark(word)]);
                    assert(unspanned(t[p]) == char_mark('.'));
                    assert(unspanned(t[p + 1]) == word_mark(word));
                    assert(st.last() == Ok::<MexpView, TokenView>(head));
                    lemma_assoc(mexp_marks(head), seq![char_mark('.')], seq![word_mark(word)]);
                    lemma_extended(st, m, seg(t, p, p + 2));
                },
                None => {},
            },
            _ => {},
        }
    }
}

proof fn lemma_collect_mexp(t: Seq<TokenView>, ops: Set<Seq<char>>, p: int, st: Seq<StackItem>)
    requires
        no_takeover(t, ops),
        0 <= p,
    ensures
        collect_mexp(t, ops, p, st) matches Step::Go { pos, stack, .. } ==>
            p < pos <= t.len() && grown(st, stack, seg(t, p, pos))
                && (starts_fresh(t, ops, p) ==> pushed(st, stack, seg(t, p, pos))),
    decreases t.len() - p, 4nat,
{
    if p < t.len() {
        if quoted_with(t[p], '"') || quoted_with(t[p], '\'') || sym_token(ops, t[p]) {
            lemma_seg_one(t, p);
            match t[p] {
                TokenView::Quotation { span, quotation_mark, string } => {
                    if quotation_mark == '"' {
                        lemma_pushed(st, MexpView::Str { span, string }, seg(t, p, p + 1));
                    } else {
                        lemma_pushed(st, MexpView::Char { span, ch: string }, seg(t, p, p + 1));
                    }
                },
                TokenView::Word { span, word } => {
                    lemma_pushed(st, MexpView::Sym { span, symbol: word }, seg(t, p, p + 1));
                },
                _ => {},
            }
        } else {
            match dot_ahead(t, p, st) {
                Err(_) => {},
                Ok(true) => {
                    lemma_collect_dot(t, p, st);
                },
                Ok(false) => match apply_ahead(t, p, st) {
                    Err(_) => {},
                    Ok(true) => {
                        lemma_collect_apply(t, ops, p, st);
                    },
                    Ok(false) => {
                        if char_is(t[p], '[') {
                            lemma_collect_array(t, ops, p, st);
                        } else if word_is(t[p], "--"@) {
                            lemma_collect_arrow(t, ops, p, st);
                        } else if infix_ahead(t, ops, p) {
                            lemma_collect_infix(t, ops, p, st);
                        } else if infix_apply_ahead(t, ops, p) {
                            lemma_collect_infix_apply(t, ops, p, st);
                        }
                    },
                },
            }
        }
    }
}

proof fn lemma_collect_apply(t: Seq<TokenView>, ops: Set<Seq<char>>, p: int, st: Seq<StackItem>)
    requires
        no_takeover(t, ops),
        0 <= p,
    ensures
        collect_apply(t, ops, p, st) matches Step::Go { pos, stack, .. } ==>
            p < pos <= t.len() && extended(st, stack, seg(t, p, pos)),
    decreases t.len() - p, 3nat,
{
    lemma_get_arg(t, ops, p, st);
    match get_arg(t, ops, p, st) {
        Step::Go { pos, stack, val } => match top_expr(stack) {
            Some(head) => {
                let m = MexpView::Apply {
                    span: crate::error_report::Span { lo: crate::mexp::mexp_view_span(head).lo, hi: crate::mexp::arg_view_span(val).hi },
                    head: Box::new(head),
                    arg: val,
                };
                lemma_extended(st, m, seg(t, p, pos));
            },
            None => {},
        },
        _ => {},
    }
}

proof fn lemma_get_arg(t: Seq<TokenView>, ops: Set<Seq<char>>, p: int, st: Seq<StackItem>)
    requires
        no_takeover(t, ops),
        0 <= p,
    ensures
        get_arg(t, ops, p, st) matches Step::Go { pos, stack, val } ==>
            p < pos <= t.len() && stack == st && arg_marks(val) == seg(t, p, pos),
    decreases t.len() - p, 2nat,
{
    if p < t.len() && (char_is(t[p], '(') || char_is(t[p], '{')) {
        lemma_get_body(t, ops, p, st);
    }
}

proof fn lemma_get_body(t: Seq<TokenView>, ops: Set<Seq<char>>, p: int, st: Seq<StackItem>)
    requires
        no_takeover(t, ops),
        0 <= p,
    ensures
        get_body(t, ops, p, st) matches Step::Go { pos, stack, val } ==>
            p < pos <= t.len() && stack == st && t[p] is Char && ket_of(t[p]->Char_ch) is Ok
                && seq![char_mark(t[p]->Char_ch)] + list_marks(val.0) + seq![char_mark(ket_of(t[p]->Char_ch)->Ok_0)]
                    == seg(t, p, pos),
    decreases t.len() - p, 1nat,
{
    if p < t.len() {
        match t[p] {
            TokenView::Char { span, ch } => {
                let st1 = st.push(Err(t[p]));
                lemma_body_loop(t, ops, p + 1, st1, ch, span);
                lemma_pop_err(st, t[p]);
                assert(st1.drop_last() =~= st);
                match body_loop(t, ops, p + 1, st1, ch, span) {
                    Step::Go { pos, stack, val } => {
                        lemma_seg_one(t, p);
                        lemma_seg_split(t, p, p + 1, pos);
                        assert(list_marks(Seq::<MexpView>::empty()) =~= Seq::<TokenView>::empty());
                        let k = seq![char_mark(ket_of(ch)->Ok_0)];
                        assert(Seq::<TokenView>::empty() + seg(t, p + 1, pos) =~= seg(t, p + 1, pos));
                        lemma_assoc(seq![char_mark(ch)], list_marks(val.0), k);
                    },
                    _ => {},
                }
            },
            _ => {},
        }
    }
}

proof fn lemma_body_loop(t: Seq<TokenView>, ops: Set<Seq<char>>, p: int, st: Seq<StackItem>, bra: char, bs: crate::error_report::Span)
    requires
        no_takeover(t, ops),
        0 <= p,
    ensures
        body_loop(t, ops, p, st, bra, bs) matches Step::Go { pos, stack, val } ==> {
            &&& p < pos <= t.len()
            &&& ket_of(bra) is Ok
            &&& pop_exprs(st).0.len() > 0
            &&& char_marker(pop_exprs(st).0.last(), bra)
            &&& stack == pop_exprs(st).0.drop_last()
            &&& list_marks(val.0) + seq![char_mark(ket_of(bra)->Ok_0)] == list_marks(pop_exprs(st).1) + seg(t, p, pos)
        },
    decreases t.len() - p, 6nat,
{
    if p < t.len() {
        match t[p] {
            TokenView::Char { span, ch } => match ket_of(bra) {
                Err(_) => {},
                Ok(ket) => {
                    if ch == ket {
                        lemma_seg_one(t, p);
                    } else {
                        lemma_body_next(t, ops, p, st, bra, bs);
                    }
                },
            },
            _ => {
                lemma_body_next(t, ops, p, st, bra, bs);
            },
        }
    }
}

proof fn lemma_body_next(t: Seq<TokenView>, ops: Set<Seq<char>>, p: int, st: Seq<StackItem>, bra: char, bs: crate::error_report::Span)
    requires
        no_takeover(t, ops),
        0 <= p,
    ensures
        body_next(t, ops, p, st, bra, bs) matches Step::Go { pos, stack, val } ==> {
            &&& p < pos <= t.len()
            &&& ket_of(bra) is Ok
            &&& pop_exprs(st).0.len() > 0
            &&& char_marker(pop_exprs(st).0.last(), bra)
            &&& stack == pop_exprs(st).0.drop_last()
            &&& list_marks(val.0) + seq![char_mark(ket_of(bra)->Ok_0)] == list_marks(pop_exprs(st).1) + seg(t, p, pos)
        },
    decreases t.len() - p, 5nat,
{
    lemma_collect_mexp(t, ops, p, st);
    match collect_mexp(t, ops, p, st) {
        Step::Go { pos, stack, .. } => {
            if p < pos <= t.len() {
                lemma_body_loop(t, ops, pos, stack, bra, bs);
                lemma_pop_grown(st, stack, seg(t, p, pos));
                match body_loop(t, ops, pos, stack, bra, bs) {
                    Step::Go { pos: pos2, .. } => {
                        lemma_seg_split(t, p, pos, pos2);
                        lemma_assoc(list_marks(pop_exprs(st).1), seg(t, p, pos), seg(t, pos, pos2));
                    },
                    _ => {},
                }
            }
        },
        _ => {},
    }
}

proof fn lemma_collect_array(t: Seq<TokenView>, ops: Set<Seq<char>>, p: int, st: Seq<StackItem>)
    requires
        no_takeover(t, ops),
        0 <= p < t.len(),
        char_is(t[p], '['),
    ensures
        collect_array(t, ops, p, st) matches Step::Go { pos, stack, .. } ==>
            p < pos <= t.len() && pushed(st, stack, seg(t, p, pos)),
    decreases t.len() - p, 3nat,
{
    lemma_get_body(t, ops, p, st);
    match get_body(t, ops, p, st) {
        Step::Go { pos, stack, val } => {
            lemma_pushed(st, MexpView::Array { span: val.1, body: val.0 }, seg(t, p, pos));
        },
        _ => {},
    }
}

proof fn lemma_collect_arrow(t: Seq<TokenView>, ops: Set<Seq<char>>, p: int, st: Seq<StackItem>)
    requires
        no_takeover(t, ops),
        0 <= p < t.len(),
        word_is(t[p], "--"@),
    ensures
        collect_arrow(t, ops, p, st) matches Step::Go { pos, stack, .. } ==>
            p < pos <= t.len() && pushed(st, stack, seg(t, p, pos)),
    decreases t.len() - p, 3nat,
{
    let st1 = st.push(Err(t[p]));
    lemma_arrow_loop(t, ops, p + 1, st1, t[p].span());
    lemma_pop_err(st, t[p]);
    assert(st1.drop_last() =~= st);
    match arrow_loop(t, ops, p + 1, st1, t[p].span()) {
        Step::Go { pos, stack, .. } => {
            lemma_seg_one(t, p);
            lemma_seg_split(t, p, p + 1, pos);
            assert(list_marks(Seq::<MexpView>::empty()) =~= Seq::<TokenView>::empty());
            assert(seq![word_mark("--"@)] + Seq::<TokenView>::empty() =~= seq![word_mark("--"@)]);
        },
        _ => {},
    }
}

proof fn lemma_arrow_loop(t: Seq<TokenView>, ops: Set<Seq<char>>, p: int, st: Seq<StackItem>, start: crate::error_report::Span)
    requires
        no_takeover(t, ops),
        0 <= p,
    ensures
        arrow_loop(t, ops, p, st, start) matches Step::Go { pos, stack, .. } ==> {
            &&& p < pos <= t.len()
            &&& pop_exprs(st).0.len() > 0
            &&& word_marker(pop_exprs(st).0.last(), "--"@)
            &&& stack.len() == pop_exprs(st).0.len()
            &&& stack.drop_last() == pop_exprs(st).0.drop_last()
            &&& stack.last() is Ok
            &&& mexp_marks(stack.last()->Ok_0) == seq![word_mark("--"@)] + list_marks(pop_exprs(st).1) + seg(t, p, pos)
        },
    decreases t.len() - p, 6nat,
{
    if p < t.len() {
        if word_is(t[p], "->"@) {
            lemma_get_mexp(t, ops, p + 1, st);
            match get_mexp(t, ops, p + 1, st) {
                Step::Go { pos, stack, val } => {
                    let r = pop_exprs(stack);
                    if r.0.len() > 0 && word_marker(r.0.last(), "--"@) {
                        lemma_seg_one(t, p);
                        lemma_seg_split(t, p, p + 1, pos);
                        let m = MexpView::Arrow {
                            span: crate::error_report::Span { lo: start.lo, hi: crate::mexp::mexp_view_span(val).hi },
                            ante: r.1,
                            ret: Box::new(val),
                        };
                        let hd = seq![word_mark("--"@)] + list_marks(r.1);
                        lemma_assoc(hd, seq![word_mark("->"@)], mexp_marks(val));
                        assert(r.0.drop_last().push(Ok(m)).drop_last() =~= r.0.drop_last());
                    }
                },
                _ => {},
            }
        } else {
            lemma_arrow_next(t, ops, p, st, start);
        }
    }
}

proof fn lemma_arrow_next(t: Seq<TokenView>, ops: Set<Seq<char>>, p: int, st: Seq<StackItem>, start: crate::error_report::Span)
    requires
        no_takeover(t, ops),
        0 <= p,
    ensures
        arrow_next(t, ops, p, st, start) matches Step::Go { pos, stack, .. } ==> {
            &&& p < pos <= t.len()
            &&& pop_exprs(st).0.len() > 0
            &&& word_marker(pop_exprs(st).0.last(), "--"@)
            &&& stack.len() == pop_exprs(st).0.len()
            &&& stack.drop_last() == pop_exprs(st).0.drop_last()
            &&& stack.last() is Ok
            &&& mexp_marks(stack.last()->Ok_0) == seq![word_mark("--"@)] + list_marks(pop_exprs(st).1) + seg(t, p, pos)
        },
    decreases t.len() - p, 5nat,
{
    lemma_collect_mexp(t, ops, p, st);
    match collect_mexp(t, ops, p, st) {
        Step::Go { pos, stack, .. } => {
            if p < pos <= t.len() {
                lemma_arrow_loop(t, ops, pos, stack, start);
                lemma_pop_grown(st, stack, seg(t, p, pos));
                match arrow_loop(t, ops, pos, stack, start) {
                    Step::Go { pos: pos2, .. } => {
                        lemma_seg_split(t, p, pos, pos2);
                        let hd = seq![word_mark("--"@)] + list_marks(pop_exprs(st).1);
                        lemma_assoc(seq![word_mark("--"@)], list_marks(pop_exprs(st).1), seg(t, p, pos));
                        lemma_assoc(hd, seg(t, p, pos), seg(t, pos, pos2));
                    },
                    _ => {},
                }
            }
        },
        _ => {},
    }
}

proof fn lemma_collect_infix(t: Seq<TokenView>, ops: Set<Seq<char>>, p: int, st: Seq<StackItem>)
    requires
        no_takeover(t, ops),
        0 <= p,
        infix_ahead(t, ops, p),
    ensures
        collect_infix(t, ops, p, st) matches Step::Go { pos, stack, .. } ==>
            p < pos <= t.len() && extended(st, stack, seg(t, p, pos)),
    decreases t.len() - p, 3nat,
{
    match t[p] {
        TokenView::Word { word, .. } => {
            lemma_get_operand(t, ops, p + 1, st);
            match get_operand(t, ops, p + 1, st) {
                Step::Go { pos, stack, val } => match top_expr(stack) {
                    Some(lhs) => {
                        lemma_seg_one(t, p);
                        lemma_seg_split(t, p, p + 1, pos);
                        let m = MexpView::Infix {
                            span: crate::error_report::Span { lo: crate::mexp::mexp_view_span(lhs).lo, hi: crate::mexp::mexp_view_span(val).hi },
                            op: word,
                            lhs: Box::new(lhs),
                            rhs: Box::new(val),
                        };
                        lemma_assoc(mexp_marks(lhs), seq![word_mark(word)], mexp_marks(val));
                        lemma_extended(st, m, seg(t, p, pos));
                    },
                    None => {},
                },
                _ => {},
            }
        },
        _ => {},
    }
}

proof fn lemma_collect_infix_apply(t: Seq<TokenView>, ops: Set<Seq<char>>, p: int, st: Seq<StackItem>)
    requires
        no_takeover(t, ops),
        0 <= p,
        infix_apply_ahead(t, ops, p),
    ensures
        collect_infix_apply(t, ops, p, st) matches Step::Go { pos, stack, .. } ==>
            p < pos <= t.len() && extended(st, stack, seg(t, p, pos)),
    decreases t.len() - p, 3nat,
{
    match t[p] {
        TokenView::Word { word, .. } => {
            lemma_get_arg(t, ops, p + 1, st);
            match get_arg(t, ops, p + 1, st) {
                Step::Go { pos, stack, val } => match top_expr(stack) {
                    Some(lhs) => {
                        lemma_seg_one(t, p);
                        lemma_seg_split(t, p, p + 1, pos);
                        let m = MexpView::InfixApply {
                            span: crate::error_report::Span { lo: crate::mexp::mexp_view_span(lhs).lo, hi: crate::mexp::arg_view_span(val).hi },
                            op: word,
                            lhs: Box::new(lhs),
                            arg: val,
                        };
                        lemma_assoc(mexp_marks(lhs), seq![word_mark(word)], arg_marks(val));
                        lemma_extended(st, m, seg(t, p, pos));
                    },
                    None => {},
                },
                _ => {},
            }
        },
        _ => {},
    }
}

proof fn lemma_get_mexp(t: Seq<TokenView>, ops: Set<Seq<char>>, p: int, st: Seq<StackItem>)
    requires
        no_takeover(t, ops),
        0 <= p,
        p < t.len() ==> starts_fresh(t, ops, p),
    ensures
        get_mexp(t, ops, p, st) matches Step::Go { pos, stack, val } ==>
            p < pos <= t.len() && stack == st && mexp_marks(val) == seg(t, p, pos),
    decreases t.len() - p, 6nat,
{
    lemma_collect_mexp(t, ops, p, st);
    match collect_mexp(t, ops, p, st) {
        Step::Go { pos, stack, .. } => {
            if p < pos <= t.len() {
                lemma_mexp_loop(t, ops, pos, stack);
                match mexp_loop(t, ops, pos, stack) {
                    Step::Go { pos: pos2, .. } => {
                        lemma_seg_split(t, p, pos, pos2);
                    },
                    _ => {},
                }
            }
        },
        _ => {},
    }
}

proof fn lemma_mexp_loop(t: Seq<TokenView>, ops: Set<Seq<char>>, p: int, st: Seq<StackItem>)
    requires
        no_takeover(t, ops),
        0 <= p <= t.len(),
    ensures
        mexp_loop(t, ops, p, st) matches Step::Go { pos, stack, val } ==> {
            &&& p <= pos <= t.len()
            &&& st.len() > 0
            &&& st.last() is Ok
            &&& stack == st.drop_last()
            &&& mexp_marks(val) == mexp_marks(st.last()->Ok_0) + seg(t, p, pos)
        },
    decreases t.len() - p, 5nat,
{
    match dot_ahead(t, p, st) {
        Err(_) => {},
        Ok(true) => {
            lemma_collect_dot(t, p, st);
            lemma_mexp_loop_next(t, ops, p, st, collect_dot(t, p, st));
        },
        Ok(false) => match apply_ahead(t, p, st) {
            Err(_) => {},
            Ok(true) => {
                lemma_collect_apply(t, ops, p, st);
                lemma_mexp_loop_next(t, ops, p, st, collect_apply(t, ops, p, st));
            },
            Ok(false) => {
                if infix_ahead(t, ops, p) {
                    lemma_collect_infix(t, ops, p, st);
                    lemma_mexp_loop_next(t, ops, p, st, collect_infix(t, ops, p, st));
                } else if infix_apply_ahead(t, ops, p) {
                    lemma_collect_infix_apply(t, ops, p, st);
                    lemma_mexp_loop_next(t, ops, p, st, collect_infix_apply(t, ops, p, st));
                } else {
                    lemma_seg_empty(t, p);
                    assert(mexp_marks(st.last()->Ok_0) + Seq::<TokenView>::empty() =~= mexp_marks(st.last()->Ok_0));
                }
            },
        },
    }
}

proof fn lemma_mexp_loop_next(t: Seq<TokenView>, ops: Set<Seq<char>>, p: int, st: Seq<StackItem>, s: Step<()>)
    requires
        no_takeover(t, ops),
        0 <= p <= t.len(),
        s matches Step::Go { pos, stack, .. } ==> p < pos <= t.len() && extended(st, stack, seg(t, p, pos)),
    ensures
        mexp_loop_next(t, ops, p, s) matches Step::Go { pos, stack, val } ==> {
            &&& p <= pos <= t.len()
            &&& st.len() > 0
            &&& st.last() is Ok
            &&& stack == st.drop_last()
            &&& mexp_marks(val) == mexp_marks(st.last()->Ok_0) + seg(t, p, pos)
        },
    decreases t.len() - p, 4nat,
{
    match s {
        Step::Go { pos, stack, .. } => {
            if p < pos <= t.len() {
                lemma_mexp_loop(t, ops, pos, stack);
                match mexp_loop(t, ops, pos, stack) {
                    Step::Go { pos: pos2, .. } => {
                        lemma_seg_split(t, p, pos, pos2);
                        lemma_assoc(mexp_marks(st.last()->Ok_0), seg(t, p, pos), seg(t, pos, pos2));
                    },
                    _ => {},
                }
            }
        },
        _ => {},
    }
}

proof fn lemma_get_operand(t: Seq<TokenView>, ops: Set<Seq<char>>, p: int, st: Seq<StackItem>)
    requires
        no_takeover(t, ops),
        0 <= p,
        p < t.len() ==> starts_fresh(t, ops, p),
    ensures
        get_operand(t, ops, p, st) matches Step::Go { pos, stack, val } ==>
            p < pos <= t.len() && stack == st && mexp_marks(val) == seg(t, p, pos),
    decreases t.len() - p, 6nat,
{
    lemma_collect_mexp(t, ops, p, st);
    match collect_mexp(t, ops, p, st) {
        Step::Go { pos, stack, .. } => {
            if p < pos <= t.len() {
                lemma_operand_loop(t, ops, pos, stack);
                match operand_loop(t, ops, pos, stack) {
                    Step::Go { pos: pos2, .. } => {
                        lemma_seg_split(t, p, pos, pos2);
                    },
                    _ => {},
                }
            }
        },
        _ => {},
    }
}

proof fn lemma_operand_loop(t: Seq<TokenView>, ops: Set<Seq<char>>, p: int, st: Seq<StackItem>)
    requires
        no_takeover(t, ops),
        0 <= p <= t.len(),
    ensures
        operand_loop(t, ops, p, st) matches Step::Go { pos, stack, val } ==> {
            &&& p <= pos <= t.len()
            &&& st.len() > 0
            &&& st.last() is Ok
            &&& stack == st.drop_last()
            &&& mexp_marks(val) == mexp_marks(st.last()->Ok_0) + seg(t, p, pos)
        },
    decreases t.len() - p, 5nat,
{
    match dot_ahead(t, p, st) {
        Err(_) => {},
        Ok(true) => {
            lemma_collect_dot(t, p, st);
            lemma_operand_loop_next(t, ops, p, st, collect_dot(t, p, st));
        },
        Ok(false) => match apply_ahead(t, p, st) {
            Err(_) => {},
            Ok(true) => {
                lemma_collect_apply(t, ops, p, st);
                lemma_operand_loop_next(t, ops, p, st, collect_apply(t, ops, p, st));
            },
            Ok(false) => {
                lemma_seg_empty(t, p);
                assert(mexp_marks(st.last()->Ok_0) + Seq::<TokenView>::empty() =~= mexp_marks(st.last()->Ok_0));
            },
        },
    }
}

proof fn lemma_operand_loop_next(t: Seq<TokenView>, ops: Set<Seq<char>>, p: int, st: Seq<StackItem>, s: Step<()>)
    requires
        no_takeover(t, ops),
        0 <= p <= t.len(),
        s matches Step::Go { pos, stack, .. } ==> p < pos <= t.len() && extended(st, stack, seg(t, p, pos)),
    ensures
        operand_loop_next(t, ops, p, s) matches Step::Go { pos, stack, val } ==> {
            &&& p <= pos <= t.len()
            &&& st.len() > 0
            &&& st.last() is Ok
            &&& stack == st.drop_last()
            &&& mexp_marks(val) == mexp_marks(st.last()->Ok_0) + seg(t, p, pos)
        },
    decreases t.len() - p, 4nat,
{
    match s {
        Step::Go { pos, stack, .. } => {
            if p < pos <= t.len() {
                lemma_operand_loop(t, ops, pos, stack);
                match operand_loop(t, ops, pos, stack) {
                    Step::Go { pos: pos2, .. } => {
                        lemma_seg_split(t, p, pos, pos2);
                        lemma_assoc(mexp_marks(st.last()->Ok_0), seg(t, p, pos), seg(t, pos, pos2));
                    },
                    _ => {},
                }
            }
        },
        _ => {},
    }
}

proof fn lemma_run_loop(t: Seq<TokenView>, ops: Set<Seq<char>>, p: int, st: Seq<StackItem>)
    requires
        no_takeover(t, ops),
        0 <= p <= t.len(),
    ensures
        run_loop(t, ops, p, st) matches Step::Go { val, .. } ==>
            list_marks(val) == list_marks(exprs_of(st)) + seg(t, p, t.len() as int),
    decreases t.len() - p, 5nat,
{
    if p < t.len() {
        lemma_collect_mexp(t, ops, p, st);
        match collect_mexp(t, ops, p, st) {
            Step::Go { pos, stack, .. } => {
                if p < pos <= t.len() {
                    lemma_run_loop(t, ops, pos, stack);
                    lemma_pop_grown(st, stack, seg(t, p, pos));
                    lemma_seg_split(t, p, pos, t.len() as int);
                    lemma_assoc(list_marks(exprs_of(st)), seg(t, p, pos), seg(t, pos, t.len() as int));
                }
            },
            _ => {},
        }
    } else {
        lemma_seg_empty(t, p);
        assert(list_marks(exprs_of(st)) + Seq::<TokenView>::empty() =~= list_marks(exprs_of(st)));
    }
}

/// The parser keeps every token it reads, in order: where no expression
/// after an operator or after the end of an arrow takes over the one
/// before it, the expressions read from a list of tokens are made of
/// exactly those tokens, places aside.
pub proof fn law_parse_keeps_tokens(t: Seq<TokenView>, ops: Set<Seq<char>>)
    requires
        no_takeover(t, ops),
    ensures
        parse_tokens(t, ops) matches Step::Go { val, .. } ==> list_marks(val) == unspanned_all(t),
{
    lemma_run_loop(t, ops, 0, Seq::empty());
    assert(t.subrange(0, t.len() as int) =~= t);
    assert(list_marks(exprs_of(Seq::<StackItem>::empty())) =~= Seq::<TokenView>::empty());
    assert(Seq::<TokenView>::empty() + seg(t, 0, t.len() as int) =~= seg(t, 0, t.len() as int));
}

proof fn lemma_space_piece()
    ensures
        lexes_to(mexp_lex_table(), seq![' '], Seq::<TokenView>::empty()),
{
    let t = mexp_lex_table();
    let cs = seq![' '];
    assert(t.spaces.contains(' '));
    assert(lex_from(t, cs, 1) == Ok::<Seq<TokenView>, Unclosed>(Seq::empty()));
    assert(lex_from(t, cs, 0) == Ok::<Seq<TokenView>, Unclosed>(Seq::empty()));
    assert(unspanned_all(Seq::<TokenView>::empty()) =~= Seq::<TokenView>::empty());
}

proof fn lemma_char_piece(c: char)
    requires
        mexp_lex_table().chars.contains(c),
        !mexp_lex_table().spaces.contains(c),
    ensures
        lexes_to(mexp_lex_table(), seq![c], seq![char_mark(c)]),
{
    lemma_token_text(mexp_lex_table(), char_mark(c));
}

proof fn lemma_word_piece(w: Seq<char>)
    requires
        lexical(mexp_lex_table(), word_mark(w)),
    ensures
        lexes_to(mexp_lex_table(), w, seq![word_mark(w)]),
{
    lemma_token_text(mexp_lex_table(), word_mark(w));
}

proof fn lemma_cat(a: Seq<char>, b: Seq<char>, ma: Seq<TokenView>, mb: Seq<TokenView>)
    requires
        lexes_to(mexp_lex_table(), a, ma),
        lexes_to(mexp_lex_table(), b, mb),
        separated(mexp_lex_table(), a, b),
    ensures
        lexes_to(mexp_lex_table(), a + b, ma + mb),
{
    lemma_lexes_cat(mexp_lex_table(), a, b, ma, mb);
}

proof fn lemma_then_space(a: Seq<char>, ma: Seq<TokenView>)
    requires
        lexes_to(mexp_lex_table(), a, ma),
    ensures
        lexes_to(mexp_lex_table(), a + seq![' '], ma),
{
    lemma_space_piece();
    lemma_cat(a, seq![' '], ma, Seq::empty());
    assert(ma + Seq::<TokenView>::empty() =~= ma);
}

proof fn lemma_space_then(b: Seq<char>, mb: Seq<TokenView>)
    requires
        lexes_to(mexp_lex_table(), b, mb),
    ensures
        lexes_to(mexp_lex_table(), seq![' '] + b, mb),
{
    lemma_space_piece();
    lemma_cat(seq![' '], b, Seq::empty(), mb);
    assert(Seq::<TokenView>::empty() + mb =~= mb);
}

proof fn lemma_last_of(a: Seq<char>, b: Seq<char>)
    requires
        b.len() > 0,
    ensures
        (a + b).last() == b.last(),
        (a + b).len() > 0,
{
}

proof fn lemma_arrow_pieces()
    ensures
        lexes_to(mexp_lex_table(), "-- "@, seq![word_mark("--"@)]),
        lexes_to(mexp_lex_table(), " -> "@, seq![word_mark("->"@)]),
        "-- "@.last() == ' ',
        " -> "@.last() == ' ',
        " -> "@[0] == ' ',
        " -> "@.len() > 0,
        "-- "@.len() > 0,
{
    reveal_strlit("--");
    reveal_strlit("->");
    reveal_strlit("-- ");
    reveal_strlit(" -> ");
    let t = mexp_lex_table();
    assert(lexical(t, word_mark("--"@)));
    assert(lexical(t, word_mark("->"@)));
    lemma_word_piece("--"@);
    lemma_word_piece("->"@);
    lemma_then_space("--"@, seq![word_mark("--"@)]);
    assert("-- "@ =~= "--"@ + seq![' ']);
    lemma_then_space("->"@, seq![word_mark("->"@)]);
    lemma_space_then("->"@ + seq![' '], seq![word_mark("->"@)]);
    assert(" -> "@ =~= seq![' '] + ("->"@ + seq![' ']));
}

proof fn lemma_block_pieces()
    ensures
        lexes_to(mexp_lex_table(), "{}"@, seq![char_mark('{'), char_mark('}')]),
        lexes_to(mexp_lex_table(), "{ "@, seq![char_mark('{')]),
        lexes_to(mexp_lex_table(), " }"@, seq![char_mark('}')]),
        "{ "@.last() == ' ',
        " }"@[0] == ' ',
        " }"@.len() > 0,
        "{ "@.len() > 0,
{
    reveal_strlit("{}");
    reveal_strlit("{ ");
    reveal_strlit(" }");
    lemma_char_piece('{');
    lemma_char_piece('}');
    lemma_cat(seq!['{'], seq!['}'], seq![char_mark('{')], seq![char_mark('}')]);
    assert("{}"@ =~= seq!['{'] + seq!['}']);
    assert(seq![char_mark('{')] + seq![char_mark('}')] =~= seq![char_mark('{'), char_mark('}')]);
    lemma_then_space(seq!['{'], seq![char_mark('{')]);
    assert("{ "@ =~= seq!['{'] + seq![' ']);
    lemma_space_then(seq!['}'], seq![char_mark('}')]);
    assert(" }"@ =~= seq![' '] + seq!['}']);
}

/// The text of an expression whose tokens the lexer can give lexes back to
/// the tokens of the expression.
pub proof fn lemma_text_lexes(m: MexpView)
    requires
        all_lexical(mexp_lex_table(), mexp_marks(m)),
    ensures
        lexes_to(mexp_lex_table(), mexp_text(m), mexp_marks(m)),
    decreases m, 1nat,
{
    let t = mexp_lex_table();
    match m {
        MexpView::Str { string, .. } => {
            assert(lexical(t, mexp_marks(m)[0]));
            lemma_token_text(t, quote_mark('"', string));
        },
        MexpView::Char { ch, .. } => {
            assert(lexical(t, mexp_marks(m)[0]));
            lemma_token_text(t, quote_mark('\'', ch));
        },
        MexpView::Sym { symbol, .. } => {
            assert(lexical(t, mexp_marks(m)[0]));
            lemma_token_text(t, word_mark(symbol));
        },
        MexpView::Dot { head, tail, .. } => {
            let mh = mexp_marks(*head);
            let mt = mexp_marks(*tail);
            let th = mexp_text(*head);
            lemma_all_lexical_cat(t, mh + seq![char_mark('.')], mt);
            lemma_all_lexical_cat(t, mh, seq![char_mark('.')]);
            lemma_text_lexes(*head);
            lemma_text_lexes(*tail);
            lemma_char_piece('.');
            lemma_cat(th, seq!['.'], mh, seq![char_mark('.')]);
            lemma_last_of(th, seq!['.']);
            lemma_cat(th + seq!['.'], mexp_text(*tail), mh + seq![char_mark('.')], mt);
        },
        MexpView::Apply { head, arg, .. } => {
            let mh = mexp_marks(*head);
            let th = mexp_text(*head);
            lemma_all_lexical_cat(t, mh, arg_marks(arg));
            lemma_text_lexes(*head);
            lemma_arg_text(arg);
            lemma_then_space(th, mh);
            lemma_last_of(th, seq![' ']);
            lemma_cat(th + seq![' '], arg_text(arg), mh, arg_marks(arg));
        },
        MexpView::Array { body, .. } => {
            let lb = list_marks(body);
            let tb = mexps_text(body);
            lemma_all_lexical_cat(t, seq![char_mark('[')] + lb, seq![char_mark(']')]);
            lemma_all_lexical_cat(t, seq![char_mark('[')], lb);
            lemma_list_text(body);
            lemma_char_piece('[');
            lemma_char_piece(']');
            lemma_cat(seq!['['], tb, seq![char_mark('[')], lb);
            lemma_cat(seq!['['] + tb, seq![']'], seq![char_mark('[')] + lb, seq![char_mark(']')]);
        },
        MexpView::Arrow { ante, ret, .. } => {
            let la = list_marks(ante);
            let ta = mexps_text(ante);
            let mr = mexp_marks(*ret);
            let hd = seq![word_mark("--"@)] + la;
            lemma_all_lexical_cat(t, hd + seq![word_mark("->"@)], mr);
            lemma_all_lexical_cat(t, hd, seq![word_mark("->"@)]);
            lemma_all_lexical_cat(t, seq![word_mark("--"@)], la);
            lemma_list_text(ante);
            lemma_text_lexes(*ret);
            lemma_arrow_pieces();
            lemma_cat("-- "@, ta, seq![word_mark("--"@)], la);
            lemma_cat("-- "@ + ta, " -> "@, hd, seq![word_mark("->"@)]);
            lemma_last_of("-- "@ + ta, " -> "@);
            lemma_cat("-- "@ + ta + " -> "@, mexp_text(*ret), hd + seq![word_mark("->"@)], mr);
        },
        MexpView::Infix { op, lhs, rhs, .. } => {
            let ml = mexp_marks(*lhs);
            let mr = mexp_marks(*rhs);
            let tl = mexp_text(*lhs);
            lemma_all_lexical_cat(t, ml + seq![word_mark(op)], mr);
            lemma_all_lexical_cat(t, ml, seq![word_mark(op)]);
            assert(lexical(t, seq![word_mark(op)][0]));
            lemma_text_lexes(*lhs);
            lemma_text_lexes(*rhs);
            lemma_word_piece(op);
            lemma_then_space(tl, ml);
            lemma_last_of(tl, seq![' ']);
            lemma_cat(tl + seq![' '], op, ml, seq![word_mark(op)]);
            lemma_then_space(tl + seq![' '] + op, ml + seq![word_mark(op)]);
            lemma_last_of(tl + seq![' '] + op, seq![' ']);
            lemma_cat(tl + seq![' '] + op + seq![' '], mexp_text(*rhs), ml + seq![word_mark(op)], mr);
        },
        MexpView::InfixApply { op, lhs, arg, .. } => {
            let ml = mexp_marks(*lhs);
            let tl = mexp_text(*lhs);
            lemma_all_lexical_cat(t, ml + seq![word_mark(op)], arg_marks(arg));
            lemma_all_lexical_cat(t, ml, seq![word_mark(op)]);
            assert(lexical(t, seq![word_mark(op)][0]));
            lemma_text_lexes(*lhs);
            lemma_arg_text(arg);
            lemma_word_piece(op);
            lemma_then_space(tl, ml);
            lemma_last_of(tl, seq![' ']);
            lemma_cat(tl + seq![' '], op, ml, seq![word_mark(op)]);
            lemma_then_space(tl + seq![' '] + op, ml + seq![word_mark(op)]);
            lemma_last_of(tl + seq![' '] + op, seq![' ']);
            lemma_cat(tl + seq![' '] + op + seq![' '], arg_text(arg), ml + seq![word_mark(op)], arg_marks(arg));
        },
    }
}

/// The text of an argument whose tokens the lexer can give lexes back to
/// the tokens of the argument.
pub proof fn lemma_arg_text(a: ArgView)
    requires
        all_lexical(mexp_lex_table(), arg_marks(a)),
    ensures
        lexes_to(mexp_lex_table(), arg_text(a), arg_marks(a)),
    decreases a, 1nat,
{
    let t = mexp_lex_table();
    match a {
        ArgView::Tuple { body, .. } => {
            let lb = list_marks(body);
            let tb = mexps_text(body);
            lemma_all_lexical_cat(t, seq![char_mark('(')] + lb, seq![char_mark(')')]);
            lemma_all_lexical_cat(t, seq![char_mark('(')], lb);
            lemma_list_text(body);
            lemma_char_piece('(');
            lemma_char_piece(')');
            lemma_cat(seq!['('], tb, seq![char_mark('(')], lb);
            lemma_cat(seq!['('] + tb, seq![')'], seq![char_mark('(')] + lb, seq![char_mark(')')]);
        },
        ArgView::Block { body, .. } => {
            let lb = list_marks(body);
            let tb = mexps_text(body);
            lemma_block_pieces();
            if body.len() == 0 {
                assert(lb =~= Seq::<TokenView>::empty());
                assert(seq![char_mark('{')] + lb + seq![char_mark('}')] =~= seq![char_mark('{'), char_mark('}')]);
            } else {
                lemma_all_lexical_cat(t, seq![char_mark('{')] + lb, seq![char_mark('}')]);
                lemma_all_lexical_cat(t, seq![char_mark('{')], lb);
                lemma_list_text(body);
                lemma_cat("{ "@, tb, seq![char_mark('{')], lb);
                lemma_cat("{ "@ + tb, " }"@, seq![char_mark('{')] + lb, seq![char_mark('}')]);
            }
        },
    }
}

/// The text of expressions whose tokens the lexer can give lexes back to
/// their tokens, one expression after another.
pub proof fn lemma_list_text(ms: Seq<MexpView>)
    requires
        all_lexical(mexp_lex_table(), list_marks(ms)),
    ensures
        lexes_to(mexp_lex_table(), mexps_text(ms), list_marks(ms)),
    decreases ms, 0nat,
{
    let t = mexp_lex_table();
    if ms.len() == 0 {
        let none = Seq::<char>::empty();
        assert(lex_from(t, none, 0) == Ok::<Seq<TokenView>, Unclosed>(Seq::empty()));
        assert(unspanned_all(Seq::<TokenView>::empty()) =~= Seq::<TokenView>::empty());
    } else {
        let init = ms.drop_last();
        let last = ms.last();
        lemma_all_lexical_cat(t, list_marks(init), mexp_marks(last));
        lemma_text_lexes(last);
        if ms.len() == 1 {
            assert(init.len() == 0);
            assert(list_marks(init) + mexp_marks(last) =~= mexp_marks(last));
            assert(ms[0] == last);
        } else {
            lemma_list_text(init);
            lemma_then_space(mexps_text(init), list_marks(init));
            lemma_last_of(mexps_text(init), seq![' ']);
            lemma_cat(mexps_text(init) + seq![' '], mexp_text(last), list_marks(init), mexp_marks(last));
        }
    }
}

/// Printing what the parser read gives back what it read: for a text that
/// lexes with the lexer of M-expressions and parses with any operators,
/// where no expression after an operator or after the `->` of an arrow
/// takes over the expression before it (`no_takeover`), the printed
/// expressions lex to the same tokens as the text, places aside.
pub proof fn law_print_reads_back(cs: Seq<char>, ops: Set<Seq<char>>)
    requires
        lex_from(mexp_lex_table(), cs, 0) matches Ok(t) && no_takeover(t, ops) && parse_tokens(t, ops) is Go,
    ensures
        lex_from(mexp_lex_table(), cs, 0) matches Ok(t) && parse_tokens(t, ops) matches Step::Go { val, .. }
            && lex_from(mexp_lex_table(), mexps_text(val), 0) matches Ok(t2) && token_vec_eq_spec(t2, t),
{
    let tab = mexp_lex_table();
    let t = lex_from(tab, cs, 0)->Ok_0;
    law_parse_keeps_tokens(t, ops);
    let val = parse_tokens(t, ops)->Go_val;
    lemma_lexed_lexical(tab, cs, 0);
    lemma_all_lexical_unspanned(tab, t);
    lemma_list_text(val);
    let t2 = lex_from(tab, mexps_text(val), 0)->Ok_0;
    lemma_token_vec_eq_unspanned(t2, t);
}

} // verus!
