//! How the lexer treats texts put together: lexing a concatenation, and
//! lexing the text a token is written as.

use vstd::prelude::*;
use crate::error_report::Span;
use crate::lexing::{LexTableView, TokenView, lex_from, word_end, quote_end, line_end, stops_word, token_eq_spec,
    token_vec_eq_spec, lemma_word_end, lemma_quote_end};

verus! {

/// The span that tokens compared without their places carry.
pub open spec fn no_span() -> Span {
    Span { lo: 0, hi: 0 }
}

/// The token without its place in the text.
pub open spec fn unspanned(tok: TokenView) -> TokenView {
    match tok {
        TokenView::Quotation { quotation_mark, string, .. } => TokenView::Quotation { span: no_span(), quotation_mark, string },
        TokenView::Word { word, .. } => TokenView::Word { span: no_span(), word },
        TokenView::Char { ch, .. } => TokenView::Char { span: no_span(), ch },
    }
}

/// The tokens without their places.
pub open spec fn unspanned_all(ts: Seq<TokenView>) -> Seq<TokenView> {
    ts.map_values(|tok: TokenView| unspanned(tok))
}

/// Whether the lexer knows no line comments.
pub open spec fn no_comments(t: LexTableView) -> bool {
    t.comment_words == Set::<Seq<char>>::empty()
}

/// Whether `cs` lexes with the table to the tokens `marks`, places aside.
pub open spec fn lexes_to(t: LexTableView, cs: Seq<char>, marks: Seq<TokenView>) -> bool {
    lex_from(t, cs, 0) matches Ok(ts) && unspanned_all(ts) == marks
}

/// Whether no word can run on from `a` into `b`: one of them is empty, or
/// the last character of `a` or the first of `b` ends words.
pub open spec fn separated(t: LexTableView, a: Seq<char>, b: Seq<char>) -> bool {
    a.len() == 0 || b.len() == 0 || stops_word(t, a.last()) || stops_word(t, b[0])
}

/// Whether the token is one the lexer can give with the table: a word of
/// characters that end no word, a character of the table that is no space,
/// or a quotation between two of the table's marks whose text reaches up to
/// the closing mark.
pub open spec fn lexical(t: LexTableView, tok: TokenView) -> bool {
    match tok {
        TokenView::Word { word, .. } =>
            word.len() > 0 && forall|k: int| 0 <= k < word.len() ==> !stops_word(t, #[trigger] word[k]),
        TokenView::Char { ch, .. } => t.chars.contains(ch) && !t.spaces.contains(ch),
        TokenView::Quotation { quotation_mark, string, .. } => {
            &&& t.quotation_marks.contains(quotation_mark)
            &&& !t.spaces.contains(quotation_mark)
            &&& !t.chars.contains(quotation_mark)
            &&& quote_end(string.push(quotation_mark), quotation_mark, 0) == Some(string.len() as int)
        },
    }
}

/// The text a token is written as.
pub open spec fn token_text(tok: TokenView) -> Seq<char> {
    match tok {
        TokenView::Quotation { quotation_mark, string, .. } => seq![quotation_mark] + string + seq![quotation_mark],
        TokenView::Word { word, .. } => word,
        TokenView::Char { ch, .. } => seq![ch],
    }
}

proof fn lemma_token_eq_unspanned(x: TokenView, y: TokenView)
    ensures
        token_eq_spec(x, y) <==> unspanned(x) == unspanned(y),
{
}

/// Two lists of tokens are equal without their spans exactly when they are
/// the same once their places are left out.
pub proof fn lemma_token_vec_eq_unspanned(a: Seq<TokenView>, b: Seq<TokenView>)
    ensures
        token_vec_eq_spec(a, b) <==> unspanned_all(a) == unspanned_all(b),
{
    if token_vec_eq_spec(a, b) {
        assert forall|i: int| 0 <= i < a.len() implies unspanned_all(a)[i] == unspanned_all(b)[i] by {
            lemma_token_eq_unspanned(a[i], b[i]);
        }
        assert(unspanned_all(a) =~= unspanned_all(b));
    }
    if unspanned_all(a) == unspanned_all(b) {
        assert(a.len() == unspanned_all(a).len());
        assert forall|i: int| 0 <= i < a.len() implies token_eq_spec(#[trigger] a[i], b[i]) by {
            assert(unspanned_all(a)[i] == unspanned_all(b)[i]);
            lemma_token_eq_unspanned(a[i], b[i]);
        }
    }
}

/// Leaving out places commutes with putting lists together.
pub proof fn lemma_unspanned_cat(a: Seq<TokenView>, b: Seq<TokenView>)
    ensures
        unspanned_all(a + b) == unspanned_all(a) + unspanned_all(b),
{
    assert(unspanned_all(a + b) =~= unspanned_all(a) + unspanned_all(b));
}

proof fn lemma_unspanned_cons(x: TokenView, r: Seq<TokenView>)
    ensures
        unspanned_all(seq![x] + r) == seq![unspanned(x)] + unspanned_all(r),
{
    assert(unspanned_all(seq![x] + r) =~= seq![unspanned(x)] + unspanned_all(r));
}

proof fn lemma_word_end_shift(t: LexTableView, a: Seq<char>, b: Seq<char>, q: int)
    requires
        0 <= q <= b.len(),
    ensures
        word_end(t, a + b, a.len() + q) == a.len() + word_end(t, b, q),
    decreases b.len() - q,
{
    if q < b.len() {
        assert((a + b)[a.len() + q] == b[q]);
        if !stops_word(t, b[q]) {
            lemma_word_end_shift(t, a, b, q + 1);
        }
    }
}

proof fn lemma_quote_end_shift(a: Seq<char>, b: Seq<char>, m: char, q: int)
    requires
        0 <= q,
    ensures
        quote_end(a + b, m, a.len() + q) == (match quote_end(b, m, q) {
            Some(e) => Some(a.len() + e),
            None => None::<int>,
        }),
    decreases b.len() - q,
{
    if q < b.len() {
        assert((a + b)[a.len() + q] == b[q]);
        if b[q] != m {
            if b[q] == '\\' {
                if q + 1 < b.len() {
                    lemma_quote_end_shift(a, b, m, q + 2);
                }
            } else {
                lemma_quote_end_shift(a, b, m, q + 1);
            }
        }
    }
}

proof fn lemma_quote_end_extend(a: Seq<char>, b: Seq<char>, m: char, q: int)
    requires
        0 <= q,
        quote_end(a, m, q) is Some,
    ensures
        quote_end(a + b, m, q) == quote_end(a, m, q),
    decreases a.len() - q,
{
    assert((a + b)[q] == a[q]);
    if a[q] != m {
        if a[q] == '\\' {
            lemma_quote_end_extend(a, b, m, q + 2);
        } else {
            lemma_quote_end_extend(a, b, m, q + 1);
        }
    }
}

proof fn lemma_word_end_extend(t: LexTableView, a: Seq<char>, b: Seq<char>, p: int)
    requires
        0 <= p <= a.len(),
        word_end(t, a, p) < a.len() || b.len() == 0 || stops_word(t, b[0]),
    ensures
        word_end(t, a + b, p) == word_end(t, a, p),
    decreases a.len() - p,
{
    if p < a.len() {
        assert((a + b)[p] == a[p]);
        if !stops_word(t, a[p]) {
            lemma_word_end_extend(t, a, b, p + 1);
        }
    } else if b.len() > 0 {
        assert((a + b)[p] == b[0]);
    }
}

#[verifier::spinoff_prover]
#[verifier::rlimit(60)]
proof fn lemma_lex_shift(t: LexTableView, a: Seq<char>, b: Seq<char>, q: int)
    requires
        no_comments(t),
        0 <= q,
    ensures
        (lex_from(t, a + b, a.len() + q) is Ok) == (lex_from(t, b, q) is Ok),
        lex_from(t, b, q) is Ok ==>
            unspanned_all(lex_from(t, a + b, a.len() + q)->Ok_0) == unspanned_all(lex_from(t, b, q)->Ok_0),
    decreases b.len() - q,
{
    let cs = a + b;
    let p = a.len() + q;
    if q < b.len() {
        let c = b[q];
        assert(cs[p] == c);
        if t.spaces.contains(c) {
            lemma_lex_shift(t, a, b, q + 1);
        } else if t.chars.contains(c) {
            lemma_lex_shift(t, a, b, q + 1);
            if lex_from(t, b, q + 1) is Ok {
                let tb = TokenView::Char { span: Span { lo: crate::lexing::offset(b, q) as usize, hi: crate::lexing::offset(b, q + 1) as usize }, ch: c };
                let tc = TokenView::Char { span: Span { lo: crate::lexing::offset(cs, p) as usize, hi: crate::lexing::offset(cs, p + 1) as usize }, ch: c };
                lemma_unspanned_cons(tb, lex_from(t, b, q + 1)->Ok_0);
                lemma_unspanned_cons(tc, lex_from(t, cs, p + 1)->Ok_0);
            }
        } else if t.quotation_marks.contains(c) {
            lemma_quote_end_shift(a, b, c, q + 1);
            match quote_end(b, c, q + 1) {
                None => {},
                Some(e) => {
                    lemma_quote_end(b, c, q + 1);
                    lemma_lex_shift(t, a, b, e + 1);
                    assert(cs.subrange(p + 1, a.len() + e) =~= b.subrange(q + 1, e));
                    if lex_from(t, b, e + 1) is Ok {
                        let tb = TokenView::Quotation {
                            span: Span { lo: crate::lexing::offset(b, q) as usize, hi: crate::lexing::offset(b, e + 1) as usize },
                            quotation_mark: c,
                            string: b.subrange(q + 1, e),
                        };
                        let tc = TokenView::Quotation {
                            span: Span { lo: crate::lexing::offset(cs, p) as usize, hi: crate::lexing::offset(cs, a.len() + e + 1) as usize },
                            quotation_mark: c,
                            string: cs.subrange(p + 1, a.len() + e),
                        };
                        lemma_unspanned_cons(tb, lex_from(t, b, e + 1)->Ok_0);
                        lemma_unspanned_cons(tc, lex_from(t, cs, a.len() + e + 1)->Ok_0);
                    }
                },
            }
        } else {
            lemma_word_end_shift(t, a, b, q);
            lemma_word_end(t, b, q);
            let e = word_end(t, b, q);
            assert(cs.subrange(p, a.len() + e) =~= b.subrange(q, e));
            lemma_lex_shift(t, a, b, e);
            if lex_from(t, b, e) is Ok {
                let tb = TokenView::Word {
                    span: Span { lo: crate::lexing::offset(b, q) as usize, hi: crate::lexing::offset(b, e) as usize },
                    word: b.subrange(q, e),
                };
                let tc = TokenView::Word {
                    span: Span { lo: crate::lexing::offset(cs, p) as usize, hi: crate::lexing::offset(cs, a.len() + e) as usize },
                    word: cs.subrange(p, a.len() + e),
                };
                lemma_unspanned_cons(tb, lex_from(t, b, e)->Ok_0);
                lemma_unspanned_cons(tc, lex_from(t, cs, a.len() + e)->Ok_0);
            }
        }
    }
}

proof fn lemma_cons_assoc(x: TokenView, u: Seq<TokenView>, v: Seq<TokenView>)
    ensures
        seq![x] + (u + v) == seq![x] + u + v,
{
    assert(seq![x] + (u + v) =~= seq![x] + u + v);
}

proof fn lemma_prefix_step(ta: TokenView, tc: TokenView, ra: Seq<TokenView>, rc: Seq<TokenView>, rb: Seq<TokenView>)
    requires
        unspanned(ta) == unspanned(tc),
        unspanned_all(rc) == unspanned_all(ra) + rb,
    ensures
        unspanned_all(seq![tc] + rc) == unspanned_all(seq![ta] + ra) + rb,
{
    lemma_unspanned_cons(ta, ra);
    lemma_unspanned_cons(tc, rc);
    lemma_cons_assoc(unspanned(ta), unspanned_all(ra), rb);
}

#[verifier::spinoff_prover]
#[verifier::rlimit(60)]
proof fn lemma_lex_prefix(t: LexTableView, a: Seq<char>, b: Seq<char>, p: int)
    requires
        no_comments(t),
        0 <= p <= a.len(),
        lex_from(t, a, p) is Ok,
        lex_from(t, b, 0) is Ok,
        separated(t, a, b),
    ensures
        lex_from(t, a + b, p) is Ok,
        unspanned_all(lex_from(t, a + b, p)->Ok_0)
            == unspanned_all(lex_from(t, a, p)->Ok_0) + unspanned_all(lex_from(t, b, 0)->Ok_0),
    decreases a.len() - p,
{
    let cs = a + b;
    let rb = unspanned_all(lex_from(t, b, 0)->Ok_0);
    if p == a.len() {
        lemma_lex_shift(t, a, b, 0);
        assert(unspanned_all(Seq::<TokenView>::empty()) =~= Seq::<TokenView>::empty());
        assert(Seq::<TokenView>::empty() + rb =~= rb);
    } else {
        let c = a[p];
        assert(cs[p] == c);
        if t.spaces.contains(c) {
            lemma_lex_prefix(t, a, b, p + 1);
        } else if t.chars.contains(c) {
            lemma_lex_prefix(t, a, b, p + 1);
            let ta = TokenView::Char { span: Span { lo: crate::lexing::offset(a, p) as usize, hi: crate::lexing::offset(a, p + 1) as usize }, ch: c };
            let tc = TokenView::Char { span: Span { lo: crate::lexing::offset(cs, p) as usize, hi: crate::lexing::offset(cs, p + 1) as usize }, ch: c };
            let ra = lex_from(t, a, p + 1)->Ok_0;
            let rc = lex_from(t, cs, p + 1)->Ok_0;
            assert(lex_from(t, a, p) == Ok::<Seq<TokenView>, crate::lexing::Unclosed>(seq![ta] + ra));
            assert(lex_from(t, cs, p) == Ok::<Seq<TokenView>, crate::lexing::Unclosed>(seq![tc] + rc));
            lemma_prefix_step(ta, tc, ra, rc, rb);
        } else if t.quotation_marks.contains(c) {
            let e = quote_end(a, c, p + 1)->Some_0;
            lemma_quote_end(a, c, p + 1);
            lemma_quote_end_extend(a, b, c, p + 1);
            assert(cs.subrange(p + 1, e) =~= a.subrange(p + 1, e));
            lemma_lex_prefix(t, a, b, e + 1);
            let ta = TokenView::Quotation {
                span: Span { lo: crate::lexing::offset(a, p) as usize, hi: crate::lexing::offset(a, e + 1) as usize },
                quotation_mark: c,
                string: a.subrange(p + 1, e),
            };
            let tc = TokenView::Quotation {
                span: Span { lo: crate::lexing::offset(cs, p) as usize, hi: crate::lexing::offset(cs, e + 1) as usize },
                quotation_mark: c,
                string: cs.subrange(p + 1, e),
            };
            let ra = lex_from(t, a, e + 1)->Ok_0;
            let rc = lex_from(t, cs, e + 1)->Ok_0;
            assert(lex_from(t, a, p) == Ok::<Seq<TokenView>, crate::lexing::Unclosed>(seq![ta] + ra));
            assert(lex_from(t, cs, p) == Ok::<Seq<TokenView>, crate::lexing::Unclosed>(seq![tc] + rc));
            lemma_prefix_step(ta, tc, ra, rc, rb);
        } else {
            lemma_word_end(t, a, p);
            let e = word_end(t, a, p);
            if e == a.len() {
                assert(!stops_word(t, a[a.len() - 1]));
            }
            lemma_word_end_extend(t, a, b, p);
            assert(cs.subrange(p, e) =~= a.subrange(p, e));
            lemma_lex_prefix(t, a, b, e);
            let ta = TokenView::Word {
                span: Span { lo: crate::lexing::offset(a, p) as usize, hi: crate::lexing::offset(a, e) as usize },
                word: a.subrange(p, e),
            };
            let tc = TokenView::Word {
                span: Span { lo: crate::lexing::offset(cs, p) as usize, hi: crate::lexing::offset(cs, e) as usize },
                word: cs.subrange(p, e),
            };
            let ra = lex_from(t, a, e)->Ok_0;
            let rc = lex_from(t, cs, e)->Ok_0;
            assert(lex_from(t, a, p) == Ok::<Seq<TokenView>, crate::lexing::Unclosed>(seq![ta] + ra));
            assert(lex_from(t, cs, p) == Ok::<Seq<TokenView>, crate::lexing::Unclosed>(seq![tc] + rc));
            lemma_prefix_step(ta, tc, ra, rc, rb);
        }
    }
}

/// Lexing two texts written one after the other, where no word runs on
/// from the first into the second, gives the tokens of the first and then
/// those of the second, places aside.
pub proof fn law_lex_concat(t: LexTableView, a: Seq<char>, b: Seq<char>)
    requires
        no_comments(t),
        lex_from(t, a, 0) is Ok,
        lex_from(t, b, 0) is Ok,
        separated(t, a, b),
    ensures
        lexes_to(t, a + b, unspanned_all(lex_from(t, a, 0)->Ok_0) + unspanned_all(lex_from(t, b, 0)->Ok_0)),
{
    lemma_lex_prefix(t, a, b, 0);
}

/// `law_lex_concat` over the tokens each side lexes to.
pub proof fn lemma_lexes_cat(t: LexTableView, a: Seq<char>, b: Seq<char>, ma: Seq<TokenView>, mb: Seq<TokenView>)
    requires
        no_comments(t),
        lexes_to(t, a, ma),
        lexes_to(t, b, mb),
        separated(t, a, b),
    ensures
        lexes_to(t, a + b, ma + mb),
{
    law_lex_concat(t, a, b);
}

proof fn lemma_quote_body(cs: Seq<char>, m: char, a: int, q: int)
    requires
        0 <= a <= q,
        quote_end(cs, m, q) is Some,
    ensures
        quote_end(cs.subrange(a, quote_end(cs, m, q)->Some_0 + 1), m, q - a) == Some(quote_end(cs, m, q)->Some_0 - a),
    decreases cs.len() - q,
{
    let e = quote_end(cs, m, q)->Some_0;
    lemma_quote_end(cs, m, q);
    let s = cs.subrange(a, e + 1);
    assert(s[q - a] == cs[q]);
    if cs[q] != m {
        if cs[q] == '\\' {
            lemma_quote_end(cs, m, q + 2);
            lemma_quote_body(cs, m, a, q + 2);
        } else {
            lemma_quote_end(cs, m, q + 1);
            lemma_quote_body(cs, m, a, q + 1);
        }
    }
}

/// Whether every token of the list is one the lexer can give.
pub open spec fn all_lexical(t: LexTableView, ts: Seq<TokenView>) -> bool {
    forall|i: int| 0 <= i < ts.len() ==> lexical(t, #[trigger] ts[i])
}

proof fn lemma_all_lexical_cons(t: LexTableView, tok: TokenView, r: Seq<TokenView>)
    requires
        lexical(t, tok),
        all_lexical(t, r),
    ensures
        all_lexical(t, seq![tok] + r),
{
    assert forall|i: int| 0 <= i < (seq![tok] + r).len() implies lexical(t, #[trigger] (seq![tok] + r)[i]) by {
        if i > 0 {
            assert((seq![tok] + r)[i] == r[i - 1]);
        }
    }
}

/// Every token the lexer gives is one it can give: see `lexical`.
#[verifier::spinoff_prover]
pub proof fn lemma_lexed_lexical(t: LexTableView, cs: Seq<char>, p: int)
    requires
        0 <= p,
        lex_from(t, cs, p) is Ok,
    ensures
        all_lexical(t, lex_from(t, cs, p)->Ok_0),
    decreases cs.len() - p,
{
    if p < cs.len() {
        let c = cs[p];
        if t.spaces.contains(c) {
            lemma_lexed_lexical(t, cs, p + 1);
        } else if t.chars.contains(c) {
            lemma_lexed_lexical(t, cs, p + 1);
            let r = lex_from(t, cs, p + 1)->Ok_0;
            let tok = TokenView::Char { span: Span { lo: crate::lexing::offset(cs, p) as usize, hi: crate::lexing::offset(cs, p + 1) as usize }, ch: c };
            assert(lex_from(t, cs, p) == Ok::<Seq<TokenView>, crate::lexing::Unclosed>(seq![tok] + r));
            lemma_all_lexical_cons(t, tok, r);
        } else if t.quotation_marks.contains(c) {
            let e = quote_end(cs, c, p + 1)->Some_0;
            lemma_quote_end(cs, c, p + 1);
            lemma_quote_body(cs, c, p + 1, p + 1);
            assert(cs.subrange(p + 1, e + 1) =~= cs.subrange(p + 1, e).push(c));
            lemma_lexed_lexical(t, cs, e + 1);
            let r = lex_from(t, cs, e + 1)->Ok_0;
            let tok = TokenView::Quotation {
                span: Span { lo: crate::lexing::offset(cs, p) as usize, hi: crate::lexing::offset(cs, e + 1) as usize },
                quotation_mark: c,
                string: cs.subrange(p + 1, e),
            };
            assert(lex_from(t, cs, p) == Ok::<Seq<TokenView>, crate::lexing::Unclosed>(seq![tok] + r));
            lemma_all_lexical_cons(t, tok, r);
        } else {
            lemma_word_end(t, cs, p);
            let e = word_end(t, cs, p);
            if t.comment_words.contains(cs.subrange(p, e)) {
                crate::lexing::lemma_line_end(cs, e);
                lemma_lexed_lexical(t, cs, line_end(cs, e));
            } else {
                lemma_lexed_lexical(t, cs, e);
                let w = cs.subrange(p, e);
                assert forall|k: int| 0 <= k < w.len() implies !stops_word(t, #[trigger] w[k]) by {
                    assert(w[k] == cs[p + k]);
                }
                let r = lex_from(t, cs, e)->Ok_0;
                let tok = TokenView::Word {
                    span: Span { lo: crate::lexing::offset(cs, p) as usize, hi: crate::lexing::offset(cs, e) as usize },
                    word: w,
                };
                assert(lex_from(t, cs, p) == Ok::<Seq<TokenView>, crate::lexing::Unclosed>(seq![tok] + r));
                lemma_all_lexical_cons(t, tok, r);
            }
        }
    }
}

proof fn lemma_word_end_all(t: LexTableView, w: Seq<char>, p: int)
    requires
        0 <= p <= w.len(),
        forall|k: int| 0 <= k < w.len() ==> !stops_word(t, #[trigger] w[k]),
    ensures
        word_end(t, w, p) == w.len(),
    decreases w.len() - p,
{
    if p < w.len() {
        lemma_word_end_all(t, w, p + 1);
    }
}

/// A token the lexer can give lexes back from the text it is written as.
#[verifier::spinoff_prover]
pub proof fn lemma_token_text(t: LexTableView, tok: TokenView)
    requires
        no_comments(t),
        lexical(t, tok),
    ensures
        lexes_to(t, token_text(tok), seq![unspanned(tok)]),
{
    let cs = token_text(tok);
    let none = Seq::<TokenView>::empty();
    assert(unspanned_all(none) =~= none);
    match tok {
        TokenView::Word { word, .. } => {
            lemma_word_end_all(t, word, 0);
            assert(!stops_word(t, word[0]));
            assert(word.subrange(0, word.len() as int) =~= word);
            let tw = TokenView::Word {
                span: Span { lo: crate::lexing::offset(word, 0) as usize, hi: crate::lexing::offset(word, word.len() as int) as usize },
                word: word.subrange(0, word.len() as int),
            };
            assert(lex_from(t, word, word.len() as int) == Ok::<Seq<TokenView>, crate::lexing::Unclosed>(none));
            assert(lex_from(t, cs, 0) == Ok::<Seq<TokenView>, crate::lexing::Unclosed>(seq![tw] + none));
            lemma_unspanned_cons(tw, none);
            assert(seq![unspanned(tw)] + none =~= seq![unspanned(tok)]);
        },
        TokenView::Char { ch, .. } => {
            assert(cs[0] == ch);
            let tw = TokenView::Char { span: Span { lo: crate::lexing::offset(cs, 0) as usize, hi: crate::lexing::offset(cs, 1) as usize }, ch };
            assert(lex_from(t, cs, 1) == Ok::<Seq<TokenView>, crate::lexing::Unclosed>(none));
            assert(lex_from(t, cs, 0) == Ok::<Seq<TokenView>, crate::lexing::Unclosed>(seq![tw] + none));
            lemma_unspanned_cons(tw, none);
            assert(seq![unspanned(tw)] + none =~= seq![unspanned(tok)]);
        },
        TokenView::Quotation { quotation_mark, string, .. } => {
            let m = quotation_mark;
            assert(cs =~= seq![m] + string.push(m));
            assert(cs[0] == m);
            lemma_quote_end_shift(seq![m], string.push(m), m, 0);
            let e: int = string.len() as int + 1;
            assert(quote_end(cs, m, 1) == Some(e));
            assert(cs.subrange(1, e) =~= string);
            let tw = TokenView::Quotation {
                span: Span { lo: crate::lexing::offset(cs, 0) as usize, hi: crate::lexing::offset(cs, e + 1) as usize },
                quotation_mark: m,
                string: cs.subrange(1, e),
            };
            assert(lex_from(t, cs, e + 1) == Ok::<Seq<TokenView>, crate::lexing::Unclosed>(none));
            assert(lex_from(t, cs, 0) == Ok::<Seq<TokenView>, crate::lexing::Unclosed>(seq![tw] + none));
            lemma_unspanned_cons(tw, none);
            assert(seq![unspanned(tw)] + none =~= seq![unspanned(tok)]);
        },
    }
}

/// Leaving out places keeps tokens the lexer can give.
pub proof fn lemma_all_lexical_unspanned(t: LexTableView, ts: Seq<TokenView>)
    requires
        all_lexical(t, ts),
    ensures
        all_lexical(t, unspanned_all(ts)),
{
    assert forall|i: int| 0 <= i < unspanned_all(ts).len() implies lexical(t, #[trigger] unspanned_all(ts)[i]) by {
        assert(lexical(t, ts[i]));
    }
}

/// The tokens of a list put together are ones the lexer can give exactly
/// when those of each part are.
pub proof fn lemma_all_lexical_cat(t: LexTableView, a: Seq<TokenView>, b: Seq<TokenView>)
    requires
        all_lexical(t, a + b),
    ensures
        all_lexical(t, a),
        all_lexical(t, b),
{
    assert forall|i: int| 0 <= i < a.len() implies lexical(t, #[trigger] a[i]) by {
        assert((a + b)[i] == a[i]);
    }
    assert forall|i: int| 0 <= i < b.len() implies lexical(t, #[trigger] b[i]) by {
        assert((a + b)[a.len() + i] == b[i]);
    }
}

} // verus!
