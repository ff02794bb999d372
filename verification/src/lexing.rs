use vstd::prelude::*;
use crate::error_report::{Span, ErrorInCtx, ErrorInCtxView, ErrorMsgView, strings_view};
use crate::text::{chars_of, byte_len, char_width, len_utf8, str_eq, string_from, push_str,
    lemma_str_len, lemma_byte_len_push};

verus! {

/// A token of some source text, pointing into it.
#[derive(Clone, Copy, Debug, PartialEq, Eq)]
pub enum Token<'a> {
    Quotation { span: Span, quotation_mark: char, string: &'a str },
    Word { span: Span, word: &'a str },
    Char { span: Span, ch: char },
}

/// What a token holds, its text as characters.
pub enum TokenView {
    Quotation { span: Span, quotation_mark: char, string: Seq<char> },
    Word { span: Span, word: Seq<char> },
    Char { span: Span, ch: char },
}

impl<'a> View for Token<'a> {
    type V = TokenView;

    open spec fn view(&self) -> TokenView {
        match *self {
            Token::Quotation { span, quotation_mark, string } => TokenView::Quotation { span, quotation_mark, string: string@ },
            Token::Word { span, word } => TokenView::Word { span, word: word@ },
            Token::Char { span, ch } => TokenView::Char { span, ch },
        }
    }
}

impl TokenView {
    /// Where the token stands in its source text.
    pub open spec fn span(self) -> Span {
        match self {
            TokenView::Quotation { span, .. } => span,
            TokenView::Word { span, .. } => span,
            TokenView::Char { span, .. } => span,
        }
    }
}

/// The views of a list of tokens.
pub open spec fn tokens_view<'a>(v: Seq<Token<'a>>) -> Seq<TokenView> {
    v.map_values(|t: Token<'a>| t@)
}

impl<'a> Token<'a> {
    /// Where the token stands in its source text.
    pub fn span(&self) -> (s: Span)
        ensures
            s == self@.span(),
    {
        match self {
            Token::Quotation { span, .. } => *span,
            Token::Word { span, .. } => *span,
            Token::Char { span, .. } => *span,
        }
    }

    /// Number of bytes the token takes in its source text.
    pub fn len(&self) -> (n: usize)
        requires
            self@.span().lo <= self@.span().hi,
        ensures
            n == self@.span().hi - self@.span().lo,
    {
        self.span().len()
    }
}

/// The characters a lexer treats specially.
#[derive(Clone, Debug, PartialEq, Eq)]
pub struct LexTable {
    pub quotation_mark_set: Vec<char>,
    pub space_set: Vec<char>,
    pub char_set: Vec<char>,
    pub line_comment_word_set: Vec<String>,
}

/// The sets of a lex table.
pub struct LexTableView {
    pub quotation_marks: Set<char>,
    pub spaces: Set<char>,
    pub chars: Set<char>,
    pub comment_words: Set<Seq<char>>,
}

impl View for LexTable {
    type V = LexTableView;

    open spec fn view(&self) -> LexTableView {
        LexTableView {
            quotation_marks: self.quotation_mark_set@.to_set(),
            spaces: self.space_set@.to_set(),
            chars: self.char_set@.to_set(),
            comment_words: strings_view(self.line_comment_word_set@).to_set(),
        }
    }
}

fn vec_contains(v: &Vec<char>, c: char) -> (r: bool)
    ensures
        r == v@.contains(c),
{
    let mut i: usize = 0;
    while i < v.len()
        invariant
            i <= v@.len(),
            forall|j: int| 0 <= j < i ==> v@[j] != c,
        decreases v@.len() - i,
    {
        if v[i] == c {
            return true;
        }
        i = i + 1;
    }
    false
}

fn add_char(v: &mut Vec<char>, c: char)
    ensures
        final(v)@.to_set() == old(v)@.to_set().insert(c),
{
    if !vec_contains(v, c) {
        let ghost before = v@;
        v.push(c);
        proof {
            assert(v@.to_set() =~= before.to_set().insert(c)) by {
                assert forall|x: char| v@.to_set().contains(x) <==> before.to_set().insert(c).contains(x) by {
                    if x != c && v@.contains(x) {
                        let k = choose|k: int| 0 <= k < v@.len() && v@[k] == x;
                        assert(before[k] == x);
                    }
                    if before.contains(x) {
                        let k = choose|k: int| 0 <= k < before.len() && before[k] == x;
                        assert(v@[k] == x);
                    }
                    if x == c {
                        assert(v@[v@.len() - 1] == c);
                    }
                }
            }
        }
    } else {
        proof {
            assert(v@.to_set() =~= v@.to_set().insert(c));
        }
    }
}

impl LexTable {
    /// A table with no special characters.
    pub fn new() -> (t: Self)
        ensures
            t@.quotation_marks == Set::<char>::empty(),
            t@.spaces == Set::<char>::empty(),
            t@.chars == Set::<char>::empty(),
            t@.comment_words == Set::<Seq<char>>::empty(),
    {
        let t = LexTable {
            quotation_mark_set: Vec::new(),
            space_set: Vec::new(),
            char_set: Vec::new(),
            line_comment_word_set: Vec::new(),
        };
        proof {
            assert(t@.quotation_marks =~= Set::<char>::empty());
            assert(t@.spaces =~= Set::<char>::empty());
            assert(t@.chars =~= Set::<char>::empty());
            assert(t@.comment_words =~= Set::<Seq<char>>::empty());
        }
        t
    }

    /// The same table, with `ch` a quotation mark.
    pub fn quotation_mark(self, ch: char) -> (t: Self)
        ensures
            t@.quotation_marks == self@.quotation_marks.insert(ch),
            t@.spaces == self@.spaces,
            t@.chars == self@.chars,
            t@.comment_words == self@.comment_words,
    {
        let mut t = self;
        add_char(&mut t.quotation_mark_set, ch);
        t
    }

    /// Whether `ch` is a quotation mark.
    pub fn quotation_mark_p(&self, ch: char) -> (r: bool)
        ensures
            r == self@.quotation_marks.contains(ch),
    {
        vec_contains(&self.quotation_mark_set, ch)
    }

    /// The same table, with `ch` a space.
    pub fn space(self, ch: char) -> (t: Self)
        ensures
            t@.quotation_marks == self@.quotation_marks,
            t@.spaces == self@.spaces.insert(ch),
            t@.chars == self@.chars,
            t@.comment_words == self@.comment_words,
    {
        let mut t = self;
        add_char(&mut t.space_set, ch);
        t
    }

    /// Whether `ch` is a space.
    pub fn space_p(&self, ch: char) -> (r: bool)
        ensures
            r == self@.spaces.contains(ch),
    {
        vec_contains(&self.space_set, ch)
    }

    /// The same table, with `ch` a token of its own.
    pub fn char(self, ch: char) -> (t: Self)
        ensures
            t@.quotation_marks == self@.quotation_marks,
            t@.spaces == self@.spaces,
            t@.chars == self@.chars.insert(ch),
            t@.comment_words == self@.comment_words,
    {
        let mut t = self;
        add_char(&mut t.char_set, ch);
        t
    }

    /// Whether `ch` is a token of its own.
    pub fn char_p(&self, ch: char) -> (r: bool)
        ensures
            r == self@.chars.contains(ch),
    {
        vec_contains(&self.char_set, ch)
    }

    /// The same table, with `word` starting a line comment.
    pub fn line_comment_word(self, word: &str) -> (t: Self)
        ensures
            t@.quotation_marks == self@.quotation_marks,
            t@.spaces == self@.spaces,
            t@.chars == self@.chars,
            t@.comment_words == self@.comment_words.insert(word@),
    {
        let mut t = self;
        if !t.line_comment_word_p(word) {
            let ghost before = t.line_comment_word_set@;
            t.line_comment_word_set.push(string_from(word));
            proof {
                assert(strings_view(t.line_comment_word_set@) =~= strings_view(before).push(word@));
                assert(strings_view(before).push(word@).to_set() =~= strings_view(before).to_set().insert(word@)) by {
                    let a = strings_view(before);
                    assert forall|x: Seq<char>| a.push(word@).to_set().contains(x) <==> a.to_set().insert(word@).contains(x) by {
                        if a.push(word@).contains(x) && x != word@ {
                            let k = choose|k: int| 0 <= k < a.push(word@).len() && a.push(word@)[k] == x;
                            assert(a[k] == x);
                        }
                        if a.contains(x) {
                            let k = choose|k: int| 0 <= k < a.len() && a[k] == x;
                            assert(a.push(word@)[k] == x);
                        }
                        if x == word@ {
                            assert(a.push(word@)[a.len() as int] == x);
                        }
                    }
                }
            }
        } else {
            proof {
                assert(t@.comment_words =~= t@.comment_words.insert(word@));
            }
        }
        t
    }

    /// Whether `word` starts a line comment.
    pub fn line_comment_word_p(&self, word: &str) -> (r: bool)
        ensures
            r == self@.comment_words.contains(word@),
    {
        let mut i: usize = 0;
        while i < self.line_comment_word_set.len()
            invariant
                i <= self.line_comment_word_set@.len(),
                forall|j: int| 0 <= j < i ==> self.line_comment_word_set@[j]@ != word@,
            decreases self.line_comment_word_set@.len() - i,
        {
            if str_eq(self.line_comment_word_set[i].as_str(), word) {
                proof {
                    let a = strings_view(self.line_comment_word_set@);
                    assert(a[i as int] == word@);
                }
                return true;
            }
            i = i + 1;
        }
        proof {
            let a = strings_view(self.line_comment_word_set@);
            if a.contains(word@) {
                let k = choose|k: int| 0 <= k < a.len() && a[k] == word@;
                assert(self.line_comment_word_set@[k]@ == word@);
            }
        }
        false
    }
}

/// Byte offset of the character at index `k`.
pub open spec fn offset(cs: Seq<char>, k: int) -> nat {
    byte_len(cs.take(k))
}

/// Whether `c` ends a word.
pub open spec fn stops_word(t: LexTableView, c: char) -> bool {
    t.spaces.contains(c) || t.chars.contains(c) || t.quotation_marks.contains(c)
}

/// Index of the first character at or after `p` that ends a word.
pub open spec fn word_end(t: LexTableView, cs: Seq<char>, p: int) -> int
    decreases cs.len() - p,
{
    if 0 <= p < cs.len() && !stops_word(t, cs[p]) {
        word_end(t, cs, p + 1)
    } else {
        p
    }
}

/// Index of the closing `mark` of a quotation whose text starts at `p`; a
/// backslash makes the character after it part of the text.
pub open spec fn quote_end(cs: Seq<char>, mark: char, p: int) -> Option<int>
    decreases cs.len() - p,
{
    if p < 0 || p >= cs.len() {
        None
    } else if cs[p] == mark {
        Some(p)
    } else if cs[p] == '\\' {
        if p + 1 >= cs.len() {
            None
        } else {
            quote_end(cs, mark, p + 2)
        }
    } else {
        quote_end(cs, mark, p + 1)
    }
}

/// Index just after the next newline at or after `p`, or the end.
pub open spec fn line_end(cs: Seq<char>, p: int) -> int
    decreases cs.len() - p,
{
    if 0 <= p < cs.len() {
        if cs[p] == '\n' {
            p + 1
        } else {
            line_end(cs, p + 1)
        }
    } else {
        p
    }
}

pub(crate) proof fn lemma_word_end(t: LexTableView, cs: Seq<char>, p: int)
    requires
        0 <= p <= cs.len(),
    ensures
        p <= word_end(t, cs, p) <= cs.len(),
        forall|k: int| p <= k < word_end(t, cs, p) ==> !stops_word(t, #[trigger] cs[k]),
        word_end(t, cs, p) < cs.len() ==> stops_word(t, cs[word_end(t, cs, p)]),
    decreases cs.len() - p,
{
    if p < cs.len() && !stops_word(t, cs[p]) {
        lemma_word_end(t, cs, p + 1);
    }
}

pub(crate) proof fn lemma_quote_end(cs: Seq<char>, mark: char, p: int)
    requires
        0 <= p,
    ensures
        quote_end(cs, mark, p) matches Some(e) ==> p <= e < cs.len() && cs[e] == mark,
    decreases cs.len() - p,
{
    if 0 <= p < cs.len() && cs[p] != mark {
        if cs[p] == '\\' {
            if p + 1 < cs.len() {
                lemma_quote_end(cs, mark, p + 2);
            }
        } else {
            lemma_quote_end(cs, mark, p + 1);
        }
    }
}

pub(crate) proof fn lemma_line_end(cs: Seq<char>, p: int)
    requires
        0 <= p <= cs.len(),
    ensures
        p <= line_end(cs, p) <= cs.len(),
    decreases cs.len() - p,
{
    if p < cs.len() && cs[p] != '\n' {
        lemma_line_end(cs, p + 1);
    }
}

/// A quotation mark that has no closing mark, and the offset where its
/// quotation starts.
pub struct Unclosed {
    pub mark: char,
    pub lo: nat,
}

/// The tokens of `cs` from index `p` on, or the first quotation that is
/// not closed.
pub open spec fn lex_from(t: LexTableView, cs: Seq<char>, p: int) -> Result<Seq<TokenView>, Unclosed>
    decreases cs.len() - p, 
{
    if p < 0 || p >= cs.len() {
        Ok(Seq::empty())
    } else {
        let c = cs[p];
        if t.spaces.contains(c) {
            lex_from(t, cs, p + 1)
        } else if t.chars.contains(c) {
            let tok = TokenView::Char { span: Span { lo: offset(cs, p) as usize, hi: offset(cs, p + 1) as usize }, ch: c };
            match lex_from(t, cs, p + 1) {
                Ok(rest) => Ok(seq![tok] + rest),
                Err(e) => Err(e),
            }
        } else if t.quotation_marks.contains(c) {
            match quote_end(cs, c, p + 1) {
                None => Err(Unclosed { mark: c, lo: offset(cs, p) }),
                Some(e) => {
                    if p < e + 1 <= cs.len() {
                        let tok = TokenView::Quotation {
                            span: Span { lo: offset(cs, p) as usize, hi: offset(cs, e + 1) as usize },
                            quotation_mark: c,
                            string: cs.subrange(p + 1, e),
                        };
                        match lex_from(t, cs, e + 1) {
                            Ok(rest) => Ok(seq![tok] + rest),
                            Err(u) => Err(u),
                        }
                    } else {
                        Ok(Seq::empty())
                    }
                },
            }
        } else {
            let e = word_end(t, cs, p);
            let w = cs.subrange(p, e);
            if p < e <= cs.len() {
                if t.comment_words.contains(w) {
                    let l = line_end(cs, e);
                    if e <= l <= cs.len() {
                        lex_from(t, cs, l)
                    } else {
                        Ok(Seq::empty())
                    }
                } else {
                    let tok = TokenView::Word { span: Span { lo: offset(cs, p) as usize, hi: offset(cs, e) as usize }, word: w };
                    match lex_from(t, cs, e) {
                        Ok(rest) => Ok(seq![tok] + rest),
                        Err(u) => Err(u),
                    }
                }
            } else {
                Ok(Seq::empty())
            }
        }
    }
}

/// How `{:?}` writes a character.
pub uninterp spec fn char_debug(c: char) -> Seq<char>;

/// The character as `format!("{:?}", c)` writes it.
#[verifier::external_body]
fn debug_char(c: char) -> (s: String)
    ensures
        s@ == char_debug(c),
{
    format!("{:?}", c)
}

/// The error `lex` gives for a quotation that is not closed, in a text of
/// `n` bytes.
pub open spec fn is_unclosed_error(e: ErrorInCtxView, u: Unclosed, n: nat) -> bool {
    &&& e.msg.head == Some("quotation-mark-mismatching"@)
    &&& e.msg.lines == seq!["quotation_mark = "@ + char_debug(u.mark)]
    &&& e.infos == Seq::<ErrorMsgView>::empty()
    &&& e.notes == Seq::<ErrorMsgView>::empty()
    &&& e.span == Some(Span { lo: u.lo as usize, hi: n as usize })
}

/// `lex_from` at `p`, with `done` in front of the tokens.
pub open spec fn lexed_after(t: LexTableView, cs: Seq<char>, done: Seq<TokenView>, p: int) -> Result<Seq<TokenView>, Unclosed> {
    match lex_from(t, cs, p) {
        Ok(rest) => Ok(done + rest),
        Err(u) => Err(u),
    }
}

proof fn lemma_offset_step(cs: Seq<char>, k: int)
    requires
        0 <= k < cs.len(),
    ensures
        offset(cs, k + 1) == offset(cs, k) + char_width(cs[k]),
{
    assert(cs.take(k + 1) =~= cs.take(k).push(cs[k]));
    lemma_byte_len_push(cs.take(k), cs[k]);
}

proof fn lemma_offset_mono(cs: Seq<char>, i: int, j: int)
    requires
        0 <= i <= j <= cs.len(),
    ensures
        offset(cs, i) <= offset(cs, j),
    decreases j - i,
{
    if i < j {
        lemma_offset_mono(cs, i, j - 1);
        lemma_offset_step(cs, j - 1);
    }
}

proof fn lemma_offset_end(cs: Seq<char>)
    ensures
        offset(cs, cs.len() as int) == byte_len(cs),
{
    assert(cs.take(cs.len() as int) =~= cs);
}

struct Lexing<'a, 't> {
    cursor: usize,
    byte: usize,
    input: &'a str,
    cs: Vec<char>,
    lex_table: &'t LexTable,
    token_vec: Vec<Token<'a>>,
}

impl<'a, 't> Lexing<'a, 't> {
    spec fn wf(&self) -> bool {
        &&& self.cs@ == self.input@
        &&& self.cursor <= self.cs@.len()
        &&& self.byte == offset(self.cs@, self.cursor as int)
        &&& byte_len(self.cs@) <= usize::MAX
    }

    /// The tokens the whole text lexes to, given the tokens found so far.
    spec fn outcome(&self) -> Result<Seq<TokenView>, Unclosed> {
        lexed_after(self.lex_table@, self.cs@, tokens_view(self.token_vec@), self.cursor as int)
    }

    fn finished_p(&self) -> (r: bool)
        requires
            self.wf(),
        ensures
            r == (self.cursor == self.cs@.len()),
    {
        self.cursor == self.cs.len()
    }

    /// Moves the cursor one character on.
    fn advance(&mut self)
        requires
            old(self).wf(),
            old(self).cursor < old(self).cs@.len(),
        ensures
            final(self).wf(),
            final(self).cursor == old(self).cursor + 1,
            final(self).cs == old(self).cs,
            final(self).input == old(self).input,
            final(self).lex_table == old(self).lex_table,
            final(self).token_vec == old(self).token_vec,
    {
        proof {
            lemma_offset_step(self.cs@, self.cursor as int);
            lemma_offset_mono(self.cs@, self.cursor + 1, self.cs@.len() as int);
            lemma_offset_end(self.cs@);
        }
        let n = self.cs.len();
        let w = len_utf8(self.cs[self.cursor]);
        self.byte = self.byte + w;
        self.cursor = self.cursor + 1;
    }

    fn ignore_space(&mut self)
        requires
            old(self).wf(),
        ensures
            final(self).wf(),
            final(self).outcome() == old(self).outcome(),
            final(self).cursor >= old(self).cursor,
            final(self).cursor < final(self).cs@.len() ==> !final(self).lex_table@.spaces.contains(final(self).cs@[final(self).cursor as int]),
            final(self).cs == old(self).cs,
            final(self).input == old(self).input,
            final(self).lex_table == old(self).lex_table,
            final(self).token_vec == old(self).token_vec,
    {
        while self.cursor < self.cs.len() && self.lex_table.space_p(self.cs[self.cursor])
            invariant
                self.wf(),
                self.outcome() == old(self).outcome(),
                self.cursor >= old(self).cursor,
                self.cs == old(self).cs,
                self.input == old(self).input,
                self.lex_table == old(self).lex_table,
                self.token_vec == old(self).token_vec,
            decreases self.cs@.len() - self.cursor,
        {
            self.advance();
        }
    }

    fn ignore_rest_line(&mut self)
        requires
            old(self).wf(),
        ensures
            final(self).wf(),
            final(self).cursor == line_end(old(self).cs@, old(self).cursor as int),
            final(self).cs == old(self).cs,
            final(self).input == old(self).input,
            final(self).lex_table == old(self).lex_table,
            final(self).token_vec == old(self).token_vec,
    {
        let ghost start = self.cursor as int;
        loop
            invariant
                self.wf(),
                start <= self.cursor,
                start == old(self).cursor,
                line_end(self.cs@, start) == line_end(self.cs@, self.cursor as int),
                self.cs == old(self).cs,
                self.input == old(self).input,
                self.lex_table == old(self).lex_table,
                self.token_vec == old(self).token_vec,
            ensures
                self.wf(),
                self.cursor == line_end(self.cs@, start),
                self.cs == old(self).cs,
                self.input == old(self).input,
                self.lex_table == old(self).lex_table,
                self.token_vec == old(self).token_vec,
            decreases self.cs@.len() - self.cursor,
        {
            if self.cursor < self.cs.len() {
                let ch = self.cs[self.cursor];
                let ghost c0 = self.cursor as int;
                self.advance();
                assert(line_end(self.cs@, c0) == if ch == '\n' { c0 + 1 } else { line_end(self.cs@, c0 + 1) });
                if ch == '\n' {
                    return;
                }
            } else {
                assert(line_end(self.cs@, self.cursor as int) == self.cursor);
                return;
            }
        }
    }

    fn goto_word_end(&mut self)
        requires
            old(self).wf(),
        ensures
            final(self).wf(),
            final(self).cursor == word_end(old(self).lex_table@, old(self).cs@, old(self).cursor as int),
            final(self).cs == old(self).cs,
            final(self).input == old(self).input,
            final(self).lex_table == old(self).lex_table,
            final(self).token_vec == old(self).token_vec,
    {
        let ghost start = self.cursor as int;
        while self.cursor < self.cs.len()
            && !self.lex_table.space_p(self.cs[self.cursor])
            && !self.lex_table.char_p(self.cs[self.cursor])
            && !self.lex_table.quotation_mark_p(self.cs[self.cursor])
            invariant
                self.wf(),
                start <= self.cursor,
                start == old(self).cursor,
                word_end(self.lex_table@, self.cs@, start) == word_end(self.lex_table@, self.cs@, self.cursor as int),
                self.cs == old(self).cs,
                self.input == old(self).input,
                self.lex_table == old(self).lex_table,
                self.token_vec == old(self).token_vec,
            decreases self.cs@.len() - self.cursor,
        {
            self.advance();
        }
    }

    fn next_char(&mut self, ch: char)
        requires
            old(self).wf(),
            old(self).cursor < old(self).cs@.len(),
            old(self).cs@[old(self).cursor as int] == ch,
            old(self).lex_table@.chars.contains(ch),
            !old(self).lex_table@.spaces.contains(ch),
        ensures
            final(self).wf(),
            final(self).outcome() == old(self).outcome(),
            final(self).cursor > old(self).cursor,
            final(self).cs == old(self).cs,
            final(self).input == old(self).input,
            final(self).lex_table == old(self).lex_table,
    {
        let lo = self.byte;
        self.advance();
        let hi = self.byte;
        let token = Token::Char { span: Span { lo, hi }, ch };
        let ghost before = tokens_view(self.token_vec@);
        self.token_vec.push(token);
        proof {
            assert(tokens_view(self.token_vec@) =~= before.push(token@));
            let p = self.cursor - 1;
            assert(lex_from(self.lex_table@, self.cs@, p as int) == match lex_from(self.lex_table@, self.cs@, p + 1) {
                Ok(rest) => Ok(seq![token@] + rest),
                Err(e) => Err(e),
            });
            match lex_from(self.lex_table@, self.cs@, p + 1) {
                Ok(rest) => {
                    assert(before + (seq![token@] + rest) =~= before.push(token@) + rest);
                },
                Err(e) => {},
            }
        }
    }
}

/// Index of the closing `quotation_mark` of a quotation whose text starts
/// at index `start` of `cs`.
fn find_quote_end(cs: &Vec<char>, start: usize, quotation_mark: char) -> (r: Option<usize>)
    requires
        start <= cs@.len(),
    ensures
        match r {
            Some(e) => quote_end(cs@, quotation_mark, start as int) == Some(e as int),
            None => quote_end(cs@, quotation_mark, start as int) is None,
        },
{
    let mut cursor = start;
    loop
        invariant
            start <= cursor <= cs@.len(),
            quote_end(cs@, quotation_mark, start as int) == quote_end(cs@, quotation_mark, cursor as int),
        decreases cs@.len() - cursor,
    {
        if cursor < cs.len() {
            let ch = cs[cursor];
            if ch == quotation_mark {
                return Some(cursor);
            } else if ch == '\\' {
                if cursor + 1 < cs.len() {
                    cursor = cursor + 2;
                } else {
                    return None;
                }
            } else {
                cursor = cursor + 1;
            }
        } else {
            return None;
        }
    }
}

impl<'a, 't> Lexing<'a, 't> {
    fn next_quote(&mut self, quotation_mark: char) -> (r: Result<(), ErrorInCtx>)
        requires
            old(self).wf(),
            old(self).cursor < old(self).cs@.len(),
            old(self).cs@[old(self).cursor as int] == quotation_mark,
            old(self).lex_table@.quotation_marks.contains(quotation_mark),
            !old(self).lex_table@.chars.contains(quotation_mark),
            !old(self).lex_table@.spaces.contains(quotation_mark),
        ensures
            final(self).cs == old(self).cs,
            final(self).input == old(self).input,
            final(self).lex_table == old(self).lex_table,
            match r {
                Ok(_) => {
                    &&& final(self).wf()
                    &&& final(self).outcome() == old(self).outcome()
                    &&& final(self).cursor > old(self).cursor
                },
                Err(e) => old(self).outcome() matches Err(u) && is_unclosed_error(e@, u, byte_len(old(self).cs@)),
            },
    {
        let ghost p = self.cursor as int;
        let lo = self.byte;
        let start = self.cursor;
        self.advance();
        match find_quote_end(&self.cs, self.cursor, quotation_mark) {
            Some(e) => {
                proof {
                    lemma_quote_end(self.cs@, quotation_mark, p + 1);
                }
                let string = self.input.substring_char(start + 1, e);
                while self.cursor <= e
                    invariant
                        self.wf(),
                        start < self.cursor <= e + 1,
                        e < self.cs@.len(),
                        self.cs == old(self).cs,
                        self.input == old(self).input,
                        self.lex_table == old(self).lex_table,
                        self.token_vec == old(self).token_vec,
                    decreases e + 1 - self.cursor,
                {
                    self.advance();
                }
                let hi = self.byte;
                let token = Token::Quotation { span: Span { lo, hi }, quotation_mark, string };
                let ghost before = tokens_view(self.token_vec@);
                self.token_vec.push(token);
                proof {
                    assert(tokens_view(self.token_vec@) =~= before.push(token@));
                    match lex_from(self.lex_table@, self.cs@, e + 1) {
                        Ok(rest) => {
                            assert(before + (seq![token@] + rest) =~= before.push(token@) + rest);
                        },
                        Err(u) => {},
                    }
                }
                Ok(())
            },
            None => {
                let mut line = string_from("quotation_mark = ");
                let d = debug_char(quotation_mark);
                push_str(&mut line, d.as_str());
                proof {
                    lemma_str_len(self.input);
                    lemma_offset_end(self.cs@);
                }
                let n = self.input.len();
                let err = ErrorInCtx::new()
                    .head("quotation-mark-mismatching")
                    .line(line.as_str())
                    .span(Span { lo, hi: n });
                proof {
                    assert(err@.msg.lines =~= seq!["quotation_mark = "@ + char_debug(quotation_mark)]);
                }
                Err(err)
            },
        }
    }

    fn next_word(&mut self)
        requires
            old(self).wf(),
            old(self).cursor < old(self).cs@.len(),
            !stops_word(old(self).lex_table@, old(self).cs@[old(self).cursor as int]),
        ensures
            final(self).wf(),
            final(self).outcome() == old(self).outcome(),
            final(self).cursor > old(self).cursor,
            final(self).cs == old(self).cs,
            final(self).input == old(self).input,
            final(self).lex_table == old(self).lex_table,
    {
        let ghost p = self.cursor as int;
        let lo = self.byte;
        let start = self.cursor;
        self.goto_word_end();
        proof {
            lemma_word_end(self.lex_table@, self.cs@, p);
            assert(word_end(self.lex_table@, self.cs@, p) == word_end(self.lex_table@, self.cs@, p + 1));
            lemma_word_end(self.lex_table@, self.cs@, p + 1);
        }
        let hi = self.byte;
        let end = self.cursor;
        let word = self.input.substring_char(start, end);
        if self.lex_table.line_comment_word_p(word) {
            self.ignore_rest_line();
            proof {
                lemma_line_end(self.cs@, end as int);
            }
        } else {
            let token = Token::Word { span: Span { lo, hi }, word };
            let ghost before = tokens_view(self.token_vec@);
            self.token_vec.push(token);
            proof {
                assert(tokens_view(self.token_vec@) =~= before.push(token@));
                match lex_from(self.lex_table@, self.cs@, end as int) {
                    Ok(rest) => {
                        assert(before + (seq![token@] + rest) =~= before.push(token@) + rest);
                    },
                    Err(u) => {},
                }
            }
        }
    }

    fn next_token(&mut self) -> (r: Result<(), ErrorInCtx>)
        requires
            old(self).wf(),
            old(self).cursor < old(self).cs@.len(),
            !old(self).lex_table@.spaces.contains(old(self).cs@[old(self).cursor as int]),
        ensures
            final(self).cs == old(self).cs,
            final(self).input == old(self).input,
            final(self).lex_table == old(self).lex_table,
            match r {
                Ok(_) => {
                    &&& final(self).wf()
                    &&& final(self).outcome() == old(self).outcome()
                    &&& final(self).cursor > old(self).cursor
                },
                Err(e) => old(self).outcome() matches Err(u) && is_unclosed_error(e@, u, byte_len(old(self).cs@)),
            },
    {
        let ch = self.cs[self.cursor];
        if self.lex_table.char_p(ch) {
            self.next_char(ch);
            Ok(())
        } else if self.lex_table.quotation_mark_p(ch) {
            self.next_quote(ch)
        } else {
            self.next_word();
            Ok(())
        }
    }

    fn run(self) -> (r: Result<Vec<Token<'a>>, ErrorInCtx>)
        requires
            self.wf(),
        ensures
            match r {
                Ok(v) => self.outcome() == Ok::<Seq<TokenView>, Unclosed>(tokens_view(v@)),
                Err(e) => self.outcome() matches Err(u) && is_unclosed_error(e@, u, byte_len(self.cs@)),
            },
    {
        let ghost whole = self.outcome();
        let ghost cs = self.cs@;
        let mut lexing = self;
        loop
            invariant
                lexing.wf(),
                lexing.outcome() == whole,
                lexing.cs@ == cs,
                whole == self.outcome(),
                cs == self.cs@,
            decreases cs.len() - lexing.cursor,
        {
            lexing.ignore_space();
            if lexing.finished_p() {
                proof {
                    assert(lex_from(lexing.lex_table@, cs, lexing.cursor as int) == Ok::<Seq<TokenView>, Unclosed>(Seq::empty()));
                    assert(tokens_view(lexing.token_vec@) + Seq::<TokenView>::empty() =~= tokens_view(lexing.token_vec@));
                }
                return Ok(lexing.token_vec);
            }
            match lexing.next_token() {
                Ok(_) => {},
                Err(e) => {
                    return Err(e);
                },
            }
        }
    }
}

impl LexTable {
    /// The tokens of `input`: quotations, words, and characters that are
    /// tokens of their own, with their spans in bytes, after dropping
    /// spaces and the rest of each line from a line comment word on.  A
    /// quotation that is not closed is an error.
    pub fn lex<'a>(&self, input: &'a str) -> (r: Result<Vec<Token<'a>>, ErrorInCtx>)
        requires
            byte_len(input@) <= usize::MAX,
        ensures
            match r {
                Ok(v) => lex_from(self@, input@, 0) == Ok::<Seq<TokenView>, Unclosed>(tokens_view(v@)),
                Err(e) => lex_from(self@, input@, 0) matches Err(u) && is_unclosed_error(e@, u, byte_len(input@)),
            },
    {
        let cs = chars_of(input);
        let lexing = Lexing { cursor: 0, byte: 0, input, cs, lex_table: self, token_vec: Vec::new() };
        proof {
            assert(cs@.take(0) =~= Seq::<char>::empty());
            assert(tokens_view(lexing.token_vec@) =~= Seq::<TokenView>::empty());
            match lex_from(self@, input@, 0) {
                Ok(rest) => {
                    assert(Seq::<TokenView>::empty() + rest =~= rest);
                },
                Err(u) => {},
            }
        }
        lexing.run()
    }
}

/// Equality of tokens without their spans.
pub open spec fn token_eq_spec(lhs: TokenView, rhs: TokenView) -> bool {
    match (lhs, rhs) {
        (TokenView::Quotation { quotation_mark: l1, string: l2, .. },
         TokenView::Quotation { quotation_mark: r1, string: r2, .. }) => l1 == r1 && l2 == r2,
        (TokenView::Word { word: l1, .. }, TokenView::Word { word: r1, .. }) => l1 == r1,
        (TokenView::Char { ch: l1, .. }, TokenView::Char { ch: r1, .. }) => l1 == r1,
        _ => false,
    }
}

/// Equality without metadata -- without `span`.
pub fn token_eq<'a>(lhs: &Token<'a>, rhs: &Token<'a>) -> (r: bool)
    ensures
        r == token_eq_spec(lhs@, rhs@),
{
    match (lhs, rhs) {
        (Token::Quotation { quotation_mark: l1, string: l2, .. },
         Token::Quotation { quotation_mark: r1, string: r2, .. }) => *l1 == *r1 && str_eq(l2, r2),
        (Token::Word { word: l1, .. }, Token::Word { word: r1, .. }) => str_eq(l1, r1),
        (Token::Char { ch: l1, .. }, Token::Char { ch: r1, .. }) => *l1 == *r1,
        _ => false,
    }
}

/// Equality of token lists without spans.
pub open spec fn token_vec_eq_spec(lhs: Seq<TokenView>, rhs: Seq<TokenView>) -> bool {
    lhs.len() == rhs.len() && forall|i: int| 0 <= i < lhs.len() ==> token_eq_spec(#[trigger] lhs[i], rhs[i])
}

/// Equality without metadata -- without `span`.
pub fn token_vec_eq<'a>(lhs: &Vec<Token<'a>>, rhs: &Vec<Token<'a>>) -> (r: bool)
    ensures
        r == token_vec_eq_spec(tokens_view(lhs@), tokens_view(rhs@)),
{
    if lhs.len() != rhs.len() {
        return false;
    }
    let mut i: usize = 0;
    assert(tokens_view(lhs@).len() == lhs@.len());
    while i < lhs.len()
        invariant
            lhs@.len() == rhs@.len(),
            i <= lhs@.len(),
            forall|j: int| 0 <= j < i ==> token_eq_spec(#[trigger] tokens_view(lhs@)[j], tokens_view(rhs@)[j]),
        decreases lhs@.len() - i,
    {
        if !token_eq(&lhs[i], &rhs[i]) {
            proof {
                assert(tokens_view(lhs@)[i as int] == lhs@[i as int]@);
                assert(!token_eq_spec(tokens_view(lhs@)[i as int], tokens_view(rhs@)[i as int]));
            }
            return false;
        }
        i = i + 1;
    }
    true
}

/// Where a token stands in a text: at the characters from index `a` up to
/// index `b`, its span the byte offsets of `a` and `b`, and its text the
/// text there, less the marks around a quotation.
pub open spec fn token_at(cs: Seq<char>, tok: TokenView, a: int, b: int) -> bool {
    &&& 0 <= a < b <= cs.len()
    &&& tok.span() == Span { lo: offset(cs, a) as usize, hi: offset(cs, b) as usize }
    &&& match tok {
        TokenView::Word { word, .. } => word == cs.subrange(a, b),
        TokenView::Char { ch, .. } => b == a + 1 && cs[a] == ch,
        TokenView::Quotation { quotation_mark, string, .. } => {
            &&& b >= a + 2
            &&& cs[a] == quotation_mark
            &&& cs[b - 1] == quotation_mark
            &&& string == cs.subrange(a + 1, b - 1)
        },
    }
}

/// The character indices where the tokens of `cs` from `p` on stand, as
/// `lex_from` finds them.
pub open spec fn token_places(t: LexTableView, cs: Seq<char>, p: int) -> Seq<(int, int)>
    decreases cs.len() - p,
{
    if p < 0 || p >= cs.len() {
        Seq::empty()
    } else {
        let c = cs[p];
        if t.spaces.contains(c) {
            token_places(t, cs, p + 1)
        } else if t.chars.contains(c) {
            seq![(p, p + 1)] + token_places(t, cs, p + 1)
        } else if t.quotation_marks.contains(c) {
            match quote_end(cs, c, p + 1) {
                None => Seq::empty(),
                Some(e) => if p < e + 1 <= cs.len() {
                    seq![(p, e + 1)] + token_places(t, cs, e + 1)
                } else {
                    Seq::empty()
                },
            }
        } else {
            let e = word_end(t, cs, p);
            if p < e <= cs.len() {
                if t.comment_words.contains(cs.subrange(p, e)) {
                    let l = line_end(cs, e);
                    if e <= l <= cs.len() { token_places(t, cs, l) } else { Seq::empty() }
                } else {
                    seq![(p, e)] + token_places(t, cs, e)
                }
            } else {
                Seq::empty()
            }
        }
    }
}

/// Whether the tokens `toks` stand at the places `ps` of `cs`, at or after
/// index `p`, each after the one before it.
pub open spec fn laid_out(cs: Seq<char>, toks: Seq<TokenView>, ps: Seq<(int, int)>, p: int) -> bool {
    &&& ps.len() == toks.len()
    &&& forall|i: int| 0 <= i < toks.len() ==> token_at(cs, #[trigger] toks[i], ps[i].0, ps[i].1)
    &&& forall|i: int| 0 <= i < ps.len() ==> p <= #[trigger] ps[i].0
    &&& forall|i: int, j: int| 0 <= i < j < ps.len() ==> #[trigger] ps[i].1 <= #[trigger] ps[j].0
}

proof fn lemma_laid_out_cons(cs: Seq<char>, tok: TokenView, a: int, b: int, toks: Seq<TokenView>, ps: Seq<(int, int)>, p: int)
    requires
        p <= a,
        token_at(cs, tok, a, b),
        laid_out(cs, toks, ps, b),
    ensures
        laid_out(cs, seq![tok] + toks, seq![(a, b)] + ps, p),
{
    let t2 = seq![tok] + toks;
    let p2 = seq![(a, b)] + ps;
    assert forall|i: int| 0 <= i < t2.len() implies token_at(cs, #[trigger] t2[i], p2[i].0, p2[i].1) by {
        if i > 0 {
            assert(t2[i] == toks[i - 1]);
            assert(p2[i] == ps[i - 1]);
        }
    }
    assert forall|i: int| 0 <= i < p2.len() implies p <= #[trigger] p2[i].0 by {
        if i > 0 {
            assert(p2[i] == ps[i - 1]);
        }
    }
    assert forall|i: int, j: int| 0 <= i < j < p2.len() implies #[trigger] p2[i].1 <= #[trigger] p2[j].0 by {
        assert(p2[j] == ps[j - 1]);
        if i > 0 {
            assert(p2[i] == ps[i - 1]);
        }
    }
}

proof fn lemma_laid_out_from(t: LexTableView, cs: Seq<char>, p: int)
    requires
        0 <= p,
        lex_from(t, cs, p) is Ok,
    ensures
        laid_out(cs, lex_from(t, cs, p)->Ok_0, token_places(t, cs, p), p),
    decreases cs.len() - p,
{
    if p >= cs.len() {
        assert(laid_out(cs, Seq::<TokenView>::empty(), Seq::<(int, int)>::empty(), p));
    } else {
        let c = cs[p];
        if t.spaces.contains(c) {
            lemma_laid_out_from(t, cs, p + 1);
        } else if t.chars.contains(c) {
            lemma_laid_out_from(t, cs, p + 1);
            let tok = TokenView::Char { span: Span { lo: offset(cs, p) as usize, hi: offset(cs, p + 1) as usize }, ch: c };
            lemma_laid_out_cons(cs, tok, p, p + 1, lex_from(t, cs, p + 1)->Ok_0, token_places(t, cs, p + 1), p);
        } else if t.quotation_marks.contains(c) {
            lemma_quote_end(cs, c, p + 1);
            let e = quote_end(cs, c, p + 1)->Some_0;
            lemma_laid_out_from(t, cs, e + 1);
            let tok = TokenView::Quotation {
                span: Span { lo: offset(cs, p) as usize, hi: offset(cs, e + 1) as usize },
                quotation_mark: c,
                string: cs.subrange(p + 1, e),
            };
            lemma_laid_out_cons(cs, tok, p, e + 1, lex_from(t, cs, e + 1)->Ok_0, token_places(t, cs, e + 1), p);
        } else {
            lemma_word_end(t, cs, p);
            let e = word_end(t, cs, p);
            if p < e {
                if t.comment_words.contains(cs.subrange(p, e)) {
                    lemma_line_end(cs, e);
                    let l = line_end(cs, e);
                    lemma_laid_out_from(t, cs, l);
                    let toks = lex_from(t, cs, l)->Ok_0;
                    let ps = token_places(t, cs, l);
                    assert forall|i: int| 0 <= i < ps.len() implies p <= #[trigger] ps[i].0 by {
                        assert(l <= ps[i].0);
                    }
                } else {
                    lemma_laid_out_from(t, cs, e);
                    let tok = TokenView::Word { span: Span { lo: offset(cs, p) as usize, hi: offset(cs, e) as usize }, word: cs.subrange(p, e) };
                    lemma_laid_out_cons(cs, tok, p, e, lex_from(t, cs, e)->Ok_0, token_places(t, cs, e), p);
                }
            }
        }
    }
}

/// The tokens of a text stand in it in order, each where its span says,
/// with the text of the input there (zero copy): a word is the characters
/// its span covers, a character token the one character there, and a
/// quotation the characters between its two marks, as written.
pub proof fn law_tokens_in_text(t: LexTableView, cs: Seq<char>)
    requires
        lex_from(t, cs, 0) is Ok,
    ensures
        laid_out(cs, lex_from(t, cs, 0)->Ok_0, token_places(t, cs, 0), 0),
{
    lemma_laid_out_from(t, cs, 0);
}

} // verus!
