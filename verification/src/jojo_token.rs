use vstd::prelude::*;
use crate::text::{chars_of, push_char};

verus! {

/// A word of S-expression source text.
pub type Word = String;

/// The words of S-expression source text.
pub type WordVec = Vec<Word>;

/// Whether `c` separates words: a space, a newline or a tab.
pub open spec fn is_space(c: char) -> bool {
    c == ' ' || c == '\n' || c == '\t'
}

/// Whether `c` is a word of its own: a bracket, a comma, a backquote or a quote.
pub open spec fn is_delimiter(c: char) -> bool {
    c == '(' || c == ')' || c == '[' || c == ']' || c == '{' || c == '}' || c == ',' || c == '`' || c == '\''
}

/// Whether `c` is a punctuation character.
pub open spec fn is_punctuation(c: char) -> bool {
    c == '~' || c == '@' || c == '#' || c == '$' || c == '%' || c == '^' || c == '&' || c == '*'
        || c == '-' || c == '_' || c == '+' || c == '=' || c == '?' || c == '\\' || c == '/'
        || is_delimiter(c) || is_space(c) || c == ';' || c == ',' || c == '"'
}

/// Whether `c` is a space, a newline or a tab.
pub fn space_char_p(c: char) -> (r: bool)
    ensures
        r == is_space(c),
{
    c == ' ' || c == '\n' || c == '\t'
}

/// Whether `c` is a comma.
pub fn comma_char_p(c: char) -> (r: bool)
    ensures
        r == (c == ','),
{
    c == ','
}

/// Whether `c` is a word of its own.
pub fn delimiter_char_p(c: char) -> (r: bool)
    ensures
        r == is_delimiter(c),
{
    c == '(' || c == ')' || c == '[' || c == ']' || c == '{' || c == '}' || c == ',' || c == '`' || c == '\''
}

/// Whether `c` starts a comment.
pub fn semicolon_char_p(c: char) -> (r: bool)
    ensures
        r == (c == ';'),
{
    c == ';'
}

/// Whether `c` ends a line.
pub fn newline_char_p(c: char) -> (r: bool)
    ensures
        r == (c == '\n'),
{
    c == '\n'
}

/// Whether `c` is a double quote.
pub fn doublequote_char_p(c: char) -> (r: bool)
    ensures
        r == (c == '"'),
{
    c == '"'
}

/// Whether `c` is a tilde.
pub fn tilde_char_p(c: char) -> (r: bool)
    ensures
        r == (c == '~'),
{
    c == '~'
}

/// Whether `c` is a punctuation character.
pub fn punctuation_char_p(c: char) -> (r: bool)
    ensures
        r == is_punctuation(c),
{
    c == '~' || c == '@' || c == '#' || c == '$' || c == '%' || c == '^' || c == '&' || c == '*'
        || c == '-' || c == '_' || c == '+' || c == '=' || c == '?' || c == '\\' || c == '/'
        || delimiter_char_p(c) || space_char_p(c) || semicolon_char_p(c) || comma_char_p(c)
        || doublequote_char_p(c)
}

/// Whether `c` ends a simple word.
pub open spec fn ends_simple(c: char) -> bool {
    is_space(c) || c == '"' || c == ';' || is_delimiter(c)
}

/// Whether `c` ends a word that starts with a tilde.
pub open spec fn ends_tilde(c: char) -> bool {
    !is_punctuation(c) || ends_simple(c)
}

/// Index of the first character at or after `p` that ends a simple word.
pub open spec fn simple_end(cs: Seq<char>, p: int) -> int
    decreases cs.len() - p,
{
    if 0 <= p < cs.len() && !ends_simple(cs[p]) { simple_end(cs, p + 1) } else { p }
}

/// Index of the first character at or after `p` that ends a tilde word.
pub open spec fn tilde_end(cs: Seq<char>, p: int) -> int
    decreases cs.len() - p,
{
    if 0 <= p < cs.len() && !ends_tilde(cs[p]) { tilde_end(cs, p + 1) } else { p }
}

/// Index of the first double quote at or after `p`.
pub open spec fn quote_close(cs: Seq<char>, p: int) -> Option<int>
    decreases cs.len() - p,
{
    if p < 0 || p >= cs.len() {
        None
    } else if cs[p] == '"' {
        Some(p)
    } else {
        quote_close(cs, p + 1)
    }
}

/// Index just after the next newline at or after `p`, or the end.
pub open spec fn comment_end(cs: Seq<char>, p: int) -> int
    decreases cs.len() - p,
{
    if 0 <= p < cs.len() {
        if cs[p] == '\n' { p + 1 } else { comment_end(cs, p + 1) }
    } else {
        p
    }
}

proof fn lemma_simple_end(cs: Seq<char>, p: int)
    requires
        0 <= p <= cs.len(),
    ensures
        p <= simple_end(cs, p) <= cs.len(),
    decreases cs.len() - p,
{
    if p < cs.len() && !ends_simple(cs[p]) {
        lemma_simple_end(cs, p + 1);
    }
}

proof fn lemma_tilde_end(cs: Seq<char>, p: int)
    requires
        0 <= p <= cs.len(),
    ensures
        p <= tilde_end(cs, p) <= cs.len(),
    decreases cs.len() - p,
{
    if p < cs.len() && !ends_tilde(cs[p]) {
        lemma_tilde_end(cs, p + 1);
    }
}

proof fn lemma_quote_close(cs: Seq<char>, p: int)
    requires
        0 <= p,
    ensures
        quote_close(cs, p) matches Some(e) ==> p <= e < cs.len() && cs[e] == '"',
    decreases cs.len() - p,
{
    if 0 <= p < cs.len() && cs[p] != '"' {
        lemma_quote_close(cs, p + 1);
    }
}

proof fn lemma_comment_end(cs: Seq<char>, p: int)
    requires
        0 <= p <= cs.len(),
    ensures
        p <= comment_end(cs, p) <= cs.len(),
    decreases cs.len() - p,
{
    if p < cs.len() && cs[p] != '\n' {
        lemma_comment_end(cs, p + 1);
    }
}

/// The words of `cs` from index `p` on: spaces and commas separate words,
/// a delimiter is a word of its own, `;` starts a comment to the end of the
/// line, a double-quoted string is one word, quotes included, a word that
/// starts with `~` runs over punctuation, and any other word runs to the
/// next space, double quote, semicolon or delimiter.  `None` when a double
/// quote is not closed.
pub open spec fn split_words(cs: Seq<char>, p: int) -> Option<Seq<Seq<char>>>
    decreases cs.len() - p,
{
    if p < 0 || p >= cs.len() {
        Some(Seq::empty())
    } else {
        let c = cs[p];
        if is_space(c) || c == ',' {
            split_words(cs, p + 1)
        } else if is_delimiter(c) {
            match split_words(cs, p + 1) {
                Some(rest) => Some(seq![seq![c]] + rest),
                None => None,
            }
        } else if c == ';' {
            let e = comment_end(cs, p + 1);
            if p < e <= cs.len() { split_words(cs, e) } else { None }
        } else if c == '"' {
            match quote_close(cs, p + 1) {
                None => None,
                Some(e) => {
                    if p < e < cs.len() {
                        match split_words(cs, e + 1) {
                            Some(rest) => Some(seq![cs.subrange(p, e + 1)] + rest),
                            None => None,
                        }
                    } else {
                        None
                    }
                },
            }
        } else {
            let e = if c == '~' { tilde_end(cs, p) } else { simple_end(cs, p) };
            if p < e <= cs.len() {
                match split_words(cs, e) {
                    Some(rest) => Some(seq![cs.subrange(p, e)] + rest),
                    None => None,
                }
            } else {
                None
            }
        }
    }
}

/// Whether `c` is one of the six brackets `( ) [ ] { }`.
pub open spec fn bracket(c: char) -> bool {
    c == '(' || c == ')' || c == '[' || c == ']' || c == '{' || c == '}'
}

/// Whether every character of `w` is a lower-case letter.
pub open spec fn lower_word(w: Seq<char>) -> bool {
    forall|i: int| 0 <= i < w.len() ==> ('a' as u32) <= (#[trigger] w[i] as u32) && (w[i] as u32) <= ('z' as u32)
}

proof fn lemma_simple_run(cs: Seq<char>, p: int, q: int)
    requires
        0 <= p <= q <= cs.len(),
        forall|i: int| p <= i < q ==> ('a' as u32) <= (#[trigger] cs[i] as u32) && (cs[i] as u32) <= ('z' as u32),
        q < cs.len() ==> bracket(cs[q]) || cs[q] == ' ' || cs[q] == ',',
    ensures
        simple_end(cs, p) == q,
    decreases q - p,
{
    if p < q {
        let c = cs[p];
        assert(('a' as u32) <= (c as u32) && (c as u32) <= ('z' as u32));
        assert(!ends_simple(c));
        lemma_simple_run(cs, p + 1, q);
    }
}

/// Each bracket is a word of its own: a word of lower-case letters
/// between two brackets splits into the opening bracket, the word and the
/// closing bracket, in that order.
pub proof fn law_brackets_are_words(open: char, w: Seq<char>, close: char)
    requires
        bracket(open),
        bracket(close),
        w.len() > 0,
        lower_word(w),
    ensures
        split_words(seq![open] + w + seq![close], 0) == Some(seq![seq![open], w, seq![close]]),
{
    let cs = seq![open] + w + seq![close];
    let n = w.len() as int;
    assert(cs[0] == open);
    assert(cs[n + 1] == close);
    assert forall|i: int| 1 <= i < n + 1 implies ('a' as u32) <= (#[trigger] cs[i] as u32) && (cs[i] as u32) <= ('z' as u32) by {
        assert(cs[i] == w[i - 1]);
    }
    lemma_simple_run(cs, 1, n + 1);
    let c1 = cs[1];
    assert(('a' as u32) <= (c1 as u32) && (c1 as u32) <= ('z' as u32));
    assert(!is_space(c1) && c1 != ',' && !is_delimiter(c1) && c1 != ';' && c1 != '"' && c1 != '~');
    assert(split_words(cs, n + 2) == Some(Seq::<Seq<char>>::empty()));
    assert(split_words(cs, n + 1) == Some(seq![seq![close]]));
    assert(cs.subrange(1, n + 1) =~= w);
    assert(split_words(cs, 1) == Some(seq![w] + seq![seq![close]]));
    assert(seq![seq![open]] + (seq![w] + seq![seq![close]]) =~= seq![seq![open], w, seq![close]]);
}

/// Spaces and commas separate words and are no words themselves: two
/// words of lower-case letters with a space or a comma between them split
/// into those two words.
pub proof fn law_space_and_comma_separate_words(w1: Seq<char>, sep: char, w2: Seq<char>)
    requires
        sep == ' ' || sep == ',',
        w1.len() > 0,
        w2.len() > 0,
        lower_word(w1),
        lower_word(w2),
    ensures
        split_words(w1 + seq![sep] + w2, 0) == Some(seq![w1, w2]),
{
    let cs = w1 + seq![sep] + w2;
    let n = w1.len() as int;
    let k = w2.len() as int;
    assert(cs.len() == n + 1 + k);
    assert(cs[n] == sep);
    assert forall|i: int| 0 <= i < n implies ('a' as u32) <= (#[trigger] cs[i] as u32) && (cs[i] as u32) <= ('z' as u32) by {
        assert(cs[i] == w1[i]);
    }
    assert forall|i: int| n + 1 <= i < n + 1 + k implies ('a' as u32) <= (#[trigger] cs[i] as u32) && (cs[i] as u32) <= ('z' as u32) by {
        assert(cs[i] == w2[i - n - 1]);
    }
    lemma_simple_run(cs, 0, n);
    lemma_simple_run(cs, n + 1, n + 1 + k);
    let c0 = cs[0];
    let c1 = cs[n + 1];
    assert(('a' as u32) <= (c0 as u32) && (c0 as u32) <= ('z' as u32));
    assert(('a' as u32) <= (c1 as u32) && (c1 as u32) <= ('z' as u32));
    assert(!is_space(c0) && c0 != ',' && !is_delimiter(c0) && c0 != ';' && c0 != '"' && c0 != '~');
    assert(!is_space(c1) && c1 != ',' && !is_delimiter(c1) && c1 != ';' && c1 != '"' && c1 != '~');
    assert(split_words(cs, n + 1 + k) == Some(Seq::<Seq<char>>::empty()));
    assert(cs.subrange(n + 1, n + 1 + k) =~= w2);
    assert(split_words(cs, n + 1) == Some(seq![w2] + Seq::<Seq<char>>::empty()));
    assert(split_words(cs, n) == split_words(cs, n + 1));
    assert(cs.subrange(0, n) =~= w1);
    assert(seq![w1] + (seq![w2] + Seq::<Seq<char>>::empty()) =~= seq![w1, w2]);
}

fn ends_word(c: char, tilde: bool) -> (r: bool)
    ensures
        r == (if tilde { ends_tilde(c) } else { ends_simple(c) }),
{
    if tilde {
        !punctuation_char_p(c) || space_char_p(c) || doublequote_char_p(c) || semicolon_char_p(c)
            || delimiter_char_p(c)
    } else {
        space_char_p(c) || doublequote_char_p(c) || semicolon_char_p(c) || delimiter_char_p(c)
    }
}

/// The word from `*pos` on that starts with a tilde.
fn collect_tilde_word(cs: &Vec<char>, pos: &mut usize) -> (w: Word)
    requires
        *old(pos) <= cs@.len(),
    ensures
        *final(pos) == tilde_end(cs@, *old(pos) as int),
        w@ == cs@.subrange(*old(pos) as int, *final(pos) as int),
{
    collect_run(cs, pos, true)
}

/// The simple word from `*pos` on.
fn collect_simple_word(cs: &Vec<char>, pos: &mut usize) -> (w: Word)
    requires
        *old(pos) <= cs@.len(),
    ensures
        *final(pos) == simple_end(cs@, *old(pos) as int),
        w@ == cs@.subrange(*old(pos) as int, *final(pos) as int),
{
    collect_run(cs, pos, false)
}

/// Collects characters from `*pos` on up to the end of the word.
fn collect_run(cs: &Vec<char>, pos: &mut usize, tilde: bool) -> (w: Word)
    requires
        *old(pos) <= cs@.len(),
    ensures
        *final(pos) == (if tilde { tilde_end(cs@, *old(pos) as int) } else { simple_end(cs@, *old(pos) as int) }),
        w@ == cs@.subrange(*old(pos) as int, *final(pos) as int),
{
    let ghost start = *pos as int;
    let mut word = String::new();
    while *pos < cs.len() && !ends_word(cs[*pos], tilde)
        invariant
            start <= *pos <= cs@.len(),
            start == *old(pos),
            word@ == cs@.subrange(start, *pos as int),
            (if tilde { tilde_end(cs@, start) } else { simple_end(cs@, start) })
                == (if tilde { tilde_end(cs@, *pos as int) } else { simple_end(cs@, *pos as int) }),
        decreases cs@.len() - *pos,
    {
        push_char(&mut word, cs[*pos]);
        proof {
            assert(cs@.subrange(start, *pos + 1) =~= cs@.subrange(start, *pos as int).push(cs@[*pos as int]));
        }
        *pos = *pos + 1;
    }
    word
}

/// The word of the delimiter at `*pos`.
fn collect_delimiter_word(cs: &Vec<char>, pos: &mut usize) -> (w: Word)
    requires
        *old(pos) < cs@.len(),
    ensures
        *final(pos) == *old(pos) + 1,
        w@ == seq![cs@[*old(pos) as int]],
{
    let _len = cs.len();
    let mut word = String::new();
    push_char(&mut word, cs[*pos]);
    *pos = *pos + 1;
    word
}

/// Skips a comment: the semicolon at `*pos`, then up to and including the
/// next newline.
fn ignore_comment(cs: &Vec<char>, pos: &mut usize)
    requires
        *old(pos) < cs@.len(),
    ensures
        *final(pos) == comment_end(cs@, *old(pos) + 1),
{
    let _len = cs.len();
    let ghost start = *pos + 1;
    *pos = *pos + 1;
    loop
        invariant
            start <= *pos <= cs@.len(),
            start == *old(pos) + 1,
            comment_end(cs@, start) == comment_end(cs@, *pos as int),
        ensures
            *pos == comment_end(cs@, start),
        decreases cs@.len() - *pos,
    {
        if *pos < cs.len() {
            let c = cs[*pos];
            *pos = *pos + 1;
            if newline_char_p(c) {
                return;
            }
        } else {
            return;
        }
    }
}

/// The double-quoted word at `*pos`, both quotes included; `None` when the
/// double quote is not closed.
fn collect_doublequote_word(cs: &Vec<char>, pos: &mut usize) -> (w: Option<Word>)
    requires
        *old(pos) < cs@.len(),
    ensures
        match quote_close(cs@, *old(pos) + 1) {
            Some(e) => *final(pos) == e + 1 && (w matches Some(x) && x@ == cs@.subrange(*old(pos) as int, e + 1)),
            None => w is None,
        },
{
    let _len = cs.len();
    let ghost start = *pos as int;
    let mut word = String::new();
    push_char(&mut word, cs[*pos]);
    *pos = *pos + 1;
    proof {
        assert(cs@.subrange(start, start + 1) =~= seq![cs@[start]]);
    }
    loop
        invariant
            start < *pos <= cs@.len(),
            start == *old(pos),
            word@ == cs@.subrange(start, *pos as int),
            quote_close(cs@, start + 1) == quote_close(cs@, *pos as int),
            cs@.len() <= usize::MAX,
        decreases cs@.len() - *pos,
    {
        if *pos >= cs.len() {
            return None;
        }
        let c = cs[*pos];
        push_char(&mut word, c);
        proof {
            assert(cs@.subrange(start, *pos + 1) =~= cs@.subrange(start, *pos as int).push(c));
        }
        *pos = *pos + 1;
        if doublequote_char_p(c) {
            return Some(word);
        }
    }
}

/// The words of `code`: see `split_words`; `None` when a double quote is
/// not closed.
pub fn try_split_to_word_vec(code: &str) -> (r: Option<WordVec>)
    ensures
        match split_words(code@, 0) {
            Some(ws) => r matches Some(v) && crate::error_report::strings_view(v@) == ws,
            None => r is None,
        },
{
    let cs = chars_of(code);
    let mut word_vec: WordVec = Vec::new();
    let mut pos: usize = 0;
    while pos < cs.len()
        invariant
            cs@ == code@,
            pos <= cs@.len(),
            split_words(cs@, 0) == (match split_words(cs@, pos as int) {
                Some(rest) => Some(crate::error_report::strings_view(word_vec@) + rest),
                None => None,
            }),
        decreases cs@.len() - pos,
    {
        let ghost before = crate::error_report::strings_view(word_vec@);
        let ghost p = pos as int;
        let c = cs[pos];
        if space_char_p(c) || comma_char_p(c) {
            pos = pos + 1;
        } else if delimiter_char_p(c) {
            let w = collect_delimiter_word(&cs, &mut pos);
            word_vec.push(w);
            proof {
                assert(crate::error_report::strings_view(word_vec@) =~= before.push(seq![c]));
                if split_words(cs@, pos as int) is Some {
                    assert(before + (seq![seq![c]] + split_words(cs@, pos as int)->0) =~= before.push(seq![c]) + split_words(cs@, pos as int)->0);
                }
            }
        } else if semicolon_char_p(c) {
            proof {
                lemma_comment_end(cs@, p + 1);
            }
            ignore_comment(&cs, &mut pos);
        } else if doublequote_char_p(c) {
            proof {
                lemma_quote_close(cs@, p + 1);
            }
            match collect_doublequote_word(&cs, &mut pos) {
                Some(w) => {
                    word_vec.push(w);
                    proof {
                        assert(crate::error_report::strings_view(word_vec@) =~= before.push(w@));
                        if split_words(cs@, pos as int) is Some {
                            assert(before + (seq![w@] + split_words(cs@, pos as int)->0) =~= before.push(w@) + split_words(cs@, pos as int)->0);
                        }
                    }
                },
                None => {
                    return None;
                },
            }
        } else {
            let tilde = tilde_char_p(c);
            proof {
                lemma_tilde_end(cs@, p);
                lemma_simple_end(cs@, p);
                if tilde {
                    assert(tilde_end(cs@, p) == tilde_end(cs@, p + 1));
                    lemma_tilde_end(cs@, p + 1);
                } else {
                    assert(simple_end(cs@, p) == simple_end(cs@, p + 1));
                    lemma_simple_end(cs@, p + 1);
                }
            }
            let w = if tilde { collect_tilde_word(&cs, &mut pos) } else { collect_simple_word(&cs, &mut pos) };
            word_vec.push(w);
            proof {
                assert(crate::error_report::strings_view(word_vec@) =~= before.push(w@));
                if split_words(cs@, pos as int) is Some {
                    assert(before + (seq![w@] + split_words(cs@, pos as int)->0) =~= before.push(w@) + split_words(cs@, pos as int)->0);
                }
            }
        }
    }
    proof {
        assert(crate::error_report::strings_view(word_vec@) + Seq::<Seq<char>>::empty() =~= crate::error_report::strings_view(word_vec@));
    }
    Some(word_vec)
}

/// The words of `code`: see `split_words`.  A double quote that is not
/// closed is left out by the precondition.
pub fn split_to_word_vec(code: &str) -> (v: WordVec)
    requires
        split_words(code@, 0) is Some,
    ensures
        split_words(code@, 0) == Some(crate::error_report::strings_view(v@)),
{
    match try_split_to_word_vec(code) {
        Some(v) => v,
        None => {
            proof {
                assert(false);
            }
            Vec::new()
        },
    }
}

/// Whether `word` is a double-quoted string: at least two characters,
/// starting and ending with a double quote.
pub fn str_word_p(word: &str) -> (r: bool)
    ensures
        r == (word@.len() >= 2 && word@[0] == '"' && word@[word@.len() - 1] == '"'),
{
    let cs = chars_of(word);
    cs.len() >= 2 && cs[0] == '"' && cs[cs.len() - 1] == '"'
}

/// Whether `word` can be a symbol: any word that is not empty.
pub fn sym_word_p(word: &str) -> (r: bool)
    ensures
        r == (word@.len() > 0),
{
    let cs = chars_of(word);
    cs.len() > 0
}

} // verus!
