use vstd::prelude::*;
use crate::text::{string_from, byte_len, lemma_str_len, chars_of, char_width, len_utf8, push_str, push_char, push_decimal, decimal, decimal_width, lemma_byte_len_push};
use vstd::string::StrSliceExecFns;
use std::collections::VecDeque;
use ansi_term::{Colour, Style};

verus! {

/// A range of byte offsets `lo .. hi` in some source text.
#[derive(Clone, Copy, Debug, PartialEq, Eq, Structural)]
pub struct Span {
    pub lo: usize,
    pub hi: usize,
}

impl Span {
    /// Number of bytes the span covers.
    pub fn len(&self) -> (n: usize)
        requires
            self.lo <= self.hi,
        ensures
            n == self.hi - self.lo,
    {
        self.hi - self.lo
    }
}

/// What an error message says: an optional head line and further lines.
pub struct ErrorMsgView {
    pub head: Option<Seq<char>>,
    pub lines: Seq<Seq<char>>,
}

/// A message: an optional head and a list of lines.
#[derive(Clone, Debug, PartialEq, Eq)]
pub struct ErrorMsg {
    head: Option<String>,
    line_vec: Vec<String>,
}

/// The text of an optional string.
pub open spec fn option_string_view(o: Option<String>) -> Option<Seq<char>> {
    match o {
        Some(s) => Some(s@),
        None => None,
    }
}

/// The texts of strings.
pub open spec fn strings_view(v: Seq<String>) -> Seq<Seq<char>> {
    v.map_values(|s: String| s@)
}

impl View for ErrorMsg {
    type V = ErrorMsgView;

    closed spec fn view(&self) -> ErrorMsgView {
        ErrorMsgView { head: option_string_view(self.head), lines: strings_view(self.line_vec@) }
    }
}

impl ErrorMsg {
    /// A message with no head and no lines.
    pub fn new() -> (m: Self)
        ensures
            m@.head == None::<Seq<char>>,
            m@.lines == Seq::<Seq<char>>::empty(),
    {
        let m = ErrorMsg { head: None, line_vec: Vec::new() };
        proof {
            assert(strings_view(m.line_vec@) =~= Seq::<Seq<char>>::empty());
        }
        m
    }

    /// The same message with its head set to `head`.
    pub fn head(self, head: &str) -> (m: Self)
        ensures
            m@.head == Some(head@),
            m@.lines == self@.lines,
    {
        let mut m = self;
        m.head = Some(string_from(head));
        m
    }

    /// The same message with `line` added after its lines.
    pub fn line(self, line: &str) -> (m: Self)
        ensures
            m@.head == self@.head,
            m@.lines == self@.lines.push(line@),
    {
        let mut m = self;
        m.line_vec.push(string_from(line));
        proof {
            assert(strings_view(m.line_vec@) =~= strings_view(self.line_vec@).push(line@));
        }
        m
    }
}

/// What an error in context says.
pub struct ErrorInCtxView {
    pub msg: ErrorMsgView,
    pub infos: Seq<ErrorMsgView>,
    pub notes: Seq<ErrorMsgView>,
    pub span: Option<Span>,
}

/// An error message with further information, notes, and the span of the
/// source text it is about.
#[derive(Clone, Debug, PartialEq, Eq)]
pub struct ErrorInCtx {
    msg: ErrorMsg,
    info_vec: Vec<ErrorMsg>,
    note_vec: Vec<ErrorMsg>,
    span: Option<Span>,
}

/// The views of messages.
pub open spec fn msgs_view(v: Seq<ErrorMsg>) -> Seq<ErrorMsgView> {
    v.map_values(|m: ErrorMsg| m@)
}

impl View for ErrorInCtx {
    type V = ErrorInCtxView;

    closed spec fn view(&self) -> ErrorInCtxView {
        ErrorInCtxView {
            msg: self.msg@,
            infos: msgs_view(self.info_vec@),
            notes: msgs_view(self.note_vec@),
            span: self.span,
        }
    }
}

impl ErrorInCtx {
    /// An error with an empty message, no information, no notes and no span.
    pub fn new() -> (e: Self)
        ensures
            e@.msg.head == None::<Seq<char>>,
            e@.msg.lines == Seq::<Seq<char>>::empty(),
            e@.infos == Seq::<ErrorMsgView>::empty(),
            e@.notes == Seq::<ErrorMsgView>::empty(),
            e@.span == None::<Span>,
    {
        let e = ErrorInCtx { msg: ErrorMsg::new(), info_vec: Vec::new(), note_vec: Vec::new(), span: None };
        proof {
            assert(msgs_view(e.info_vec@) =~= Seq::<ErrorMsgView>::empty());
            assert(msgs_view(e.note_vec@) =~= Seq::<ErrorMsgView>::empty());
        }
        e
    }

    /// The same error with the head of its message set to `head`.
    pub fn head(self, head: &str) -> (e: Self)
        ensures
            e@.msg.head == Some(head@),
            e@.msg.lines == self@.msg.lines,
            e@.infos == self@.infos,
            e@.notes == self@.notes,
            e@.span == self@.span,
    {
        let ErrorInCtx { msg, info_vec, note_vec, span } = self;
        ErrorInCtx { msg: msg.head(head), info_vec, note_vec, span }
    }

    /// The same error with `line` added to its message.
    pub fn line(self, line: &str) -> (e: Self)
        ensures
            e@.msg.head == self@.msg.head,
            e@.msg.lines == self@.msg.lines.push(line@),
            e@.infos == self@.infos,
            e@.notes == self@.notes,
            e@.span == self@.span,
    {
        let ErrorInCtx { msg, info_vec, note_vec, span } = self;
        ErrorInCtx { msg: msg.line(line), info_vec, note_vec, span }
    }

    /// The same error with `info` added after its information messages.
    pub fn info(self, info: ErrorMsg) -> (e: Self)
        ensures
            e@.msg == self@.msg,
            e@.infos == self@.infos.push(info@),
            e@.notes == self@.notes,
            e@.span == self@.span,
    {
        let mut e = self;
        e.info_vec.push(info);
        proof {
            assert(msgs_view(e.info_vec@) =~= msgs_view(self.info_vec@).push(info@));
        }
        e
    }

    /// The same error with `note` added after its notes.
    pub fn note(self, note: ErrorMsg) -> (e: Self)
        ensures
            e@.msg == self@.msg,
            e@.infos == self@.infos,
            e@.notes == self@.notes.push(note@),
            e@.span == self@.span,
    {
        let mut e = self;
        e.note_vec.push(note);
        proof {
            assert(msgs_view(e.note_vec@) =~= msgs_view(self.note_vec@).push(note@));
        }
        e
    }

    /// The same error located at `span`.
    pub fn span(self, span: Span) -> (e: Self)
        ensures
            e@.msg == self@.msg,
            e@.infos == self@.infos,
            e@.notes == self@.notes,
            e@.span == Some(span),
    {
        let mut e = self;
        e.span = Some(span);
        e
    }

    /// This error, as the error of a `Result`.
    pub fn wrap_in_err<T>(self) -> (r: Result<T, Self>)
        ensures
            r == Err::<T, Self>(self),
    {
        Err(self)
    }
}

/// The source text an error is reported against: where it comes from, and
/// the text itself.
#[derive(Clone, Debug, PartialEq, Eq)]
pub struct ErrorCtx<'a> {
    source: Option<&'a str>,
    body: Option<&'a str>,
}

/// What an error context holds.
pub struct ErrorCtxView {
    pub source: Option<Seq<char>>,
    pub body: Option<Seq<char>>,
}

/// The text of an optional string slice.
pub open spec fn option_str_view(o: Option<&str>) -> Option<Seq<char>> {
    match o {
        Some(s) => Some(s@),
        None => None,
    }
}

impl<'a> View for ErrorCtx<'a> {
    type V = ErrorCtxView;

    closed spec fn view(&self) -> ErrorCtxView {
        ErrorCtxView { source: option_str_view(self.source), body: option_str_view(self.body) }
    }
}

impl<'a> ErrorCtx<'a> {
    /// A context with neither source nor body.
    pub fn new() -> (c: Self)
        ensures
            c@.source == None::<Seq<char>>,
            c@.body == None::<Seq<char>>,
    {
        ErrorCtx { source: None, body: None }
    }

    /// The same context with its source set.
    pub fn source(self, source: &'a str) -> (c: Self)
        ensures
            c@.source == Some(source@),
            c@.body == self@.body,
    {
        ErrorCtx { source: Some(source), body: self.body }
    }

    /// The same context with its body set.
    pub fn body(self, body: &'a str) -> (c: Self)
        ensures
            c@.source == self@.source,
            c@.body == Some(body@),
    {
        ErrorCtx { source: self.source, body: Some(body) }
    }
}

/// A line of a focus: its index, its text, and the part of it that the
/// span covers, if any.
pub type FocusEntry<'a> = (usize, &'a str, Option<Span>);

/// The texts of a list of lines.
pub open spec fn strs_view(lines: Seq<&str>) -> Seq<Seq<char>> {
    lines.map_values(|l: &str| l@)
}

/// Byte offset at which line `i` starts, each line being followed by one
/// newline byte.
pub open spec fn line_offset(vs: Seq<Seq<char>>, i: int) -> int
    decreases i,
{
    if i <= 0 {
        0
    } else {
        line_offset(vs, i - 1) + byte_len(vs[i - 1]) + 1
    }
}

/// The span, relative to the start of line `i`.
pub open spec fn rel_lo(vs: Seq<Seq<char>>, span: Span, i: int) -> int {
    span.lo - line_offset(vs, i)
}

/// Where the span ends, counted from the start of line `i`.
pub open spec fn rel_hi(vs: Seq<Seq<char>>, span: Span, i: int) -> int {
    span.hi - line_offset(vs, i)
}

/// Whether line `i` overlaps the span.
pub open spec fn line_hit(vs: Seq<Seq<char>>, span: Span, i: int) -> bool {
    !(rel_lo(vs, span, i) >= byte_len(vs[i]) || rel_hi(vs, span, i) <= 0)
}

/// The part of line `i` that the span covers, in offsets of that line.
pub open spec fn line_part(vs: Seq<Seq<char>>, span: Span, i: int) -> Span {
    let lo = rel_lo(vs, span, i);
    let hi = rel_hi(vs, span, i);
    let len = byte_len(vs[i]) as int;
    Span {
        lo: (if lo < 0 { 0 } else { lo }) as usize,
        hi: (if hi < len { hi } else { len }) as usize,
    }
}

/// Whether one of the first `n` lines overlaps the span.
pub open spec fn hit_before(vs: Seq<Seq<char>>, span: Span, n: int) -> bool
    decreases n,
{
    if n <= 0 {
        false
    } else {
        hit_before(vs, span, n - 1) || line_hit(vs, span, n - 1)
    }
}

/// The entry of line `i` with nothing marked.
pub open spec fn plain_entry<'a>(lines: Seq<&'a str>, i: int) -> FocusEntry<'a> {
    (i as usize, lines[i], None)
}

/// The entry of line `i` with the part the span covers marked.
pub open spec fn hit_entry<'a>(lines: Seq<&'a str>, span: Span, i: int) -> FocusEntry<'a> {
    (i as usize, lines[i], Some(line_part(strs_view(lines), span, i)))
}

/// Among the first `n` lines, those before the first line the span overlaps.
pub open spec fn lines_before<'a>(lines: Seq<&'a str>, span: Span, n: int) -> Seq<FocusEntry<'a>>
    decreases n,
{
    if n <= 0 {
        Seq::empty()
    } else if !line_hit(strs_view(lines), span, n - 1) && !hit_before(strs_view(lines), span, n - 1) {
        lines_before(lines, span, n - 1).push(plain_entry(lines, n - 1))
    } else {
        lines_before(lines, span, n - 1)
    }
}

/// Among the first `n` lines, those the span overlaps.
pub open spec fn lines_hit<'a>(lines: Seq<&'a str>, span: Span, n: int) -> Seq<FocusEntry<'a>>
    decreases n,
{
    if n <= 0 {
        Seq::empty()
    } else if line_hit(strs_view(lines), span, n - 1) {
        lines_hit(lines, span, n - 1).push(hit_entry(lines, span, n - 1))
    } else {
        lines_hit(lines, span, n - 1)
    }
}

/// Among the first `n` lines, those after the first line the span overlaps
/// that it does not overlap.
pub open spec fn lines_after<'a>(lines: Seq<&'a str>, span: Span, n: int) -> Seq<FocusEntry<'a>>
    decreases n,
{
    if n <= 0 {
        Seq::empty()
    } else if !line_hit(strs_view(lines), span, n - 1) && hit_before(strs_view(lines), span, n - 1) {
        lines_after(lines, span, n - 1).push(plain_entry(lines, n - 1))
    } else {
        lines_after(lines, span, n - 1)
    }
}

/// The lines a span overlaps, with at most `fringe` lines of context on
/// each side.
pub open spec fn focus_of<'a>(lines: Seq<&'a str>, span: Span, fringe: nat) -> Seq<FocusEntry<'a>> {
    let n = lines.len() as int;
    let b = lines_before(lines, span, n);
    let a = lines_after(lines, span, n);
    let kb = if fringe < b.len() { fringe } else { b.len() };
    let ka = if fringe < a.len() { fringe } else { a.len() };
    b.subrange(b.len() - kb, b.len() as int) + lines_hit(lines, span, n) + a.take(ka as int)
}

proof fn lemma_line_offset_nonneg(vs: Seq<Seq<char>>, i: int)
    ensures
        line_offset(vs, i) >= 0,
    decreases i,
{
    if i > 0 {
        lemma_line_offset_nonneg(vs, i - 1);
    }
}

proof fn lemma_line_offset_mono(vs: Seq<Seq<char>>, i: int, j: int)
    requires
        0 <= i <= j <= vs.len(),
    ensures
        line_offset(vs, i) <= line_offset(vs, j),
        line_offset(vs, i) >= 0,
    decreases j - i,
{
    lemma_line_offset_nonneg(vs, i);
    if i < j {
        lemma_line_offset_mono(vs, i, j - 1);
    }
}

impl<'a> ErrorCtx<'a> {
    /// The lines of `line_vec` that `span` overlaps, each with the part of
    /// it the span covers, preceded and followed by at most `fringe` lines
    /// of context.  Offsets count bytes, each line ending in one newline.
    pub fn focus(&self, line_vec: Vec<&'a str>, span: Span, fringe: usize) -> (r: VecDeque<FocusEntry<'a>>)
        requires
            span.lo <= isize::MAX,
            span.hi <= isize::MAX,
            line_offset(strs_view(line_vec@), line_vec@.len() as int) <= isize::MAX,
        ensures
            r@ == focus_of(line_vec@, span, fringe as nat),
    {
        let ghost lines = line_vec@;
        let mut before: VecDeque<FocusEntry<'a>> = VecDeque::new();
        let mut focus: VecDeque<FocusEntry<'a>> = VecDeque::new();
        let mut after: VecDeque<FocusEntry<'a>> = VecDeque::new();
        let mut met_span_p = false;
        let mut lo: isize = span.lo as isize;
        let mut hi: isize = span.hi as isize;
        let n = line_vec.len();
        let mut i: usize = 0;
        while i < n
            invariant
                n == lines.len(),
                lines == line_vec@,
                i <= n,
                span.lo <= isize::MAX,
                span.hi <= isize::MAX,
                line_offset(strs_view(lines), n as int) <= isize::MAX,
                lo == rel_lo(strs_view(lines), span, i as int),
                hi == rel_hi(strs_view(lines), span, i as int),
                met_span_p == hit_before(strs_view(lines), span, i as int),
                before@ == lines_before(lines, span, i as int),
                focus@ == lines_hit(lines, span, i as int),
                after@ == lines_after(lines, span, i as int),
            decreases n - i,
        {
            let line = line_vec[i];
            proof {
                lemma_str_len(line);
                assert(strs_view(lines)[i as int] == line@);
                lemma_line_offset_mono(strs_view(lines), i as int, n as int);
                lemma_line_offset_mono(strs_view(lines), i + 1, n as int);
            }
            let len = line.len() as isize;
            if lo >= len || hi <= 0 {
                if met_span_p {
                    after.push_back((i, line, None));
                } else {
                    before.push_back((i, line, None));
                }
            } else {
                met_span_p = true;
                let part = Span {
                    lo: if lo < 0 { 0 } else { lo as usize },
                    hi: if hi < len { hi as usize } else { len as usize },
                };
                focus.push_back((i, line, Some(part)));
            }
            lo = lo - (line.len() + 1) as isize;
            hi = hi - (line.len() + 1) as isize;
            i = i + 1;
        }
        let ghost b0 = before@;
        let ghost a0 = after@;
        let ghost h0 = focus@;
        let mut k: usize = 0;
        while k < fringe
            invariant
                k <= fringe,
                before@ == b0.take(b0.len() - (if k < b0.len() { k as int } else { b0.len() as int })),
                after@ == a0.skip(if k < a0.len() { k as int } else { a0.len() as int }),
                focus@ == b0.subrange(b0.len() - (if k < b0.len() { k as int } else { b0.len() as int }), b0.len() as int)
                    + h0 + a0.take(if k < a0.len() { k as int } else { a0.len() as int }),
            decreases fringe - k,
        {
            if let Some(x) = before.pop_back() {
                focus.push_front(x);
            }
            if let Some(x) = after.pop_front() {
                focus.push_back(x);
            }
            k = k + 1;
            proof {
                let kb = if k < b0.len() { k as int } else { b0.len() as int };
                let ka = if k < a0.len() { k as int } else { a0.len() as int };
                assert(before@ =~= b0.take(b0.len() - kb));
                assert(after@ =~= a0.skip(ka));
                assert(focus@ =~= b0.subrange(b0.len() - kb, b0.len() as int) + h0 + a0.take(ka));
            }
        }
        proof {
            assert(focus@ =~= focus_of(lines, span, fringe as nat));
        }
        focus
    }
}

/// Index of the first newline at or after `p`, or the length.
pub open spec fn next_newline(cs: Seq<char>, p: int) -> int
    decreases cs.len() - p,
{
    if 0 <= p < cs.len() && cs[p] != '\n' {
        next_newline(cs, p + 1)
    } else {
        p
    }
}

/// The lines from index `p` on, as `str::lines` cuts them: at each `\n`,
/// dropping a `\r` right before it; a final `\n` starts no further line.
pub open spec fn lines_from(cs: Seq<char>, p: int) -> Seq<Seq<char>>
    decreases cs.len() - p,
{
    if !(0 <= p < cs.len()) {
        Seq::empty()
    } else {
        let e = next_newline(cs, p);
        let end = if e < cs.len() && e > p && cs[e - 1] == '\r' { e - 1 } else { e };
        if p <= e < cs.len() {
            seq![cs.subrange(p, end)] + lines_from(cs, e + 1)
        } else {
            seq![cs.subrange(p, end)]
        }
    }
}

/// The lines of a text, as `str::lines` gives them.
pub open spec fn text_lines(cs: Seq<char>) -> Seq<Seq<char>> {
    lines_from(cs, 0)
}

proof fn lemma_next_newline(cs: Seq<char>, p: int)
    requires
        0 <= p <= cs.len(),
    ensures
        p <= next_newline(cs, p) <= cs.len(),
        next_newline(cs, p) < cs.len() ==> cs[next_newline(cs, p)] == '\n',
        forall|k: int| p <= k < next_newline(cs, p) ==> cs[k] != '\n',
    decreases cs.len() - p,
{
    if p < cs.len() && cs[p] != '\n' {
        lemma_next_newline(cs, p + 1);
    }
}

/// The lines of `body`, as `str::lines` cuts them.
fn body_lines<'a>(body: &'a str) -> (v: Vec<&'a str>)
    ensures
        strs_view(v@) == text_lines(body@),
{
    let cs = chars_of(body);
    let n = cs.len();
    let mut start: usize = 0;
    let mut v: Vec<&'a str> = Vec::new();
    proof {
        assert(strs_view(v@) + lines_from(body@, 0) =~= text_lines(body@));
    }
    while start < n
        invariant
            cs@ == body@,
            n == cs@.len(),
            start <= n,
            strs_view(v@) + lines_from(body@, start as int) == text_lines(body@),
        decreases n - start,
    {
        let ghost before = v@;
        let mut e = start;
        while e < n && cs[e] != '\n'
            invariant
                cs@ == body@,
                n == cs@.len(),
                start <= e <= n,
                next_newline(body@, start as int) == next_newline(body@, e as int),
            decreases n - e,
        {
            e = e + 1;
        }
        let mut end = e;
        if e < n && e > start && cs[e - 1] == '\r' {
            end = e - 1;
        }
        let line = body.substring_char(start, end);
        v.push(line);
        proof {
            lemma_next_newline(body@, start as int);
            assert(strs_view(v@) =~= strs_view(before).push(line@));
            if e < n {
                assert(strs_view(v@) + lines_from(body@, e + 1) =~= strs_view(before) + lines_from(body@, start as int));
            } else {
                assert(strs_view(v@) =~= strs_view(before) + lines_from(body@, start as int));
            }
        }
        start = if e < n { e + 1 } else { n };
        proof {
            if e >= n {
                assert(lines_from(body@, n as int) =~= Seq::<Seq<char>>::empty());
            }
        }
    }
    proof {
        assert(lines_from(body@, start as int) =~= Seq::<Seq<char>>::empty());
        assert(strs_view(v@) + Seq::<Seq<char>>::empty() =~= strs_view(v@));
    }
    v
}

/// The styles a report paints with: four foreground colours and reversed
/// colours.
#[derive(Clone, Copy, Debug, PartialEq, Eq, Structural)]
pub enum Paint {
    Red,
    Purple,
    Cyan,
    Blue,
    Reverse,
}

/// The number in the escape code of a style.
pub open spec fn paint_code(p: Paint) -> Seq<char> {
    match p {
        Paint::Red => "31"@,
        Paint::Purple => "35"@,
        Paint::Cyan => "36"@,
        Paint::Blue => "34"@,
        Paint::Reverse => "7"@,
    }
}

/// A text between the escape code of a style and the code that resets the
/// style.
pub open spec fn painted(p: Paint, text: Seq<char>) -> Seq<char> {
    "\x1B["@ + paint_code(p) + "m"@ + text + "\x1B[0m"@
}

/// `ansi_term`'s `Style::paint` on a style with one foreground colour, or
/// with reversed colours only, written out with `{}`: `ansi_term` writes
/// `ESC [`, the colour's code (`31` red, `34` blue, `35` purple, `36`
/// cyan) or `7` for reversed colours, `m`, the text, and the reset code
/// `ESC [0m`.
#[verifier::external_body]
fn paint(p: Paint, text: &str) -> (s: String)
    ensures
        s@ == painted(p, text@),
{
    let style = match p {
        Paint::Red => Style::new().fg(Colour::Red),
        Paint::Purple => Style::new().fg(Colour::Purple),
        Paint::Cyan => Style::new().fg(Colour::Cyan),
        Paint::Blue => Style::new().fg(Colour::Blue),
        Paint::Reverse => Style::new().reverse(),
    };
    format!("{}", style.paint(text))
}

/// The number of characters of `cs` that start before byte `b` of its
/// UTF-8 encoding.
pub open spec fn char_index(cs: Seq<char>, b: int) -> int
    decreases cs.len(),
{
    if b <= 0 || cs.len() == 0 {
        0
    } else {
        1 + char_index(cs.drop_first(), b - char_width(cs[0]))
    }
}

/// Whether byte `b` of the UTF-8 encoding of `cs` starts a character or
/// ends the text: where a `str` may be cut.
pub open spec fn on_boundary(cs: Seq<char>, b: int) -> bool {
    byte_len(cs.take(char_index(cs, b))) == b
}

proof fn lemma_char_index_bounds(cs: Seq<char>, b: int)
    ensures
        0 <= char_index(cs, b) <= cs.len(),
    decreases cs.len(),
{
    if b > 0 && cs.len() > 0 {
        lemma_char_index_bounds(cs.drop_first(), b - char_width(cs[0]));
    }
}

proof fn lemma_char_index_mono(cs: Seq<char>, b1: int, b2: int)
    requires
        b1 <= b2,
    ensures
        char_index(cs, b1) <= char_index(cs, b2),
    decreases cs.len(),
{
    lemma_char_index_bounds(cs, b2);
    if b1 > 0 && cs.len() > 0 {
        lemma_char_index_mono(cs.drop_first(), b1 - char_width(cs[0]), b2 - char_width(cs[0]));
    }
}

fn char_index_of(cs: &Vec<char>, b: usize) -> (k: usize)
    requires
        byte_len(cs@) <= usize::MAX,
    ensures
        k == char_index(cs@, b as int),
{
    let mut k: usize = 0;
    let mut acc: usize = 0;
    proof {
        assert(cs@.skip(0) =~= cs@);
        assert(cs@.take(0) =~= Seq::<char>::empty());
    }
    while k < cs.len() && acc < b
        invariant
            byte_len(cs@) <= usize::MAX,
            k <= cs@.len(),
            acc == byte_len(cs@.take(k as int)),
            char_index(cs@, b as int) == k + char_index(cs@.skip(k as int), b - acc),
        decreases cs@.len() - k,
    {
        proof {
            assert(cs@.take(k + 1) =~= cs@.take(k as int).push(cs@[k as int]));
            lemma_byte_len_push(cs@.take(k as int), cs@[k as int]);
            crate::text::lemma_byte_len_concat(cs@.take(k + 1), cs@.skip(k + 1));
            assert(cs@.take(k + 1) + cs@.skip(k + 1) =~= cs@);
            assert(cs@.skip(k as int).drop_first() =~= cs@.skip(k + 1));
            assert(cs@.skip(k as int)[0] == cs@[k as int]);
        }
        acc = acc + len_utf8(cs[k]);
        k = k + 1;
    }
    proof {
        if k == cs@.len() {
            assert(cs@.skip(k as int).len() == 0);
        }
    }
    k
}

/// Spaces, as many as `n` when `n` is positive.
pub open spec fn spaces(n: int) -> Seq<char> {
    Seq::new(if n > 0 { n as nat } else { 0 }, |i: int| ' ')
}

/// The number `n` right-aligned in `width` columns, as `{:width$}` writes
/// it.
pub open spec fn padded(n: nat, width: nat) -> Seq<char> {
    spaces(width - decimal(n).len()) + decimal(n)
}

/// The painted prefix with the number of a line.
pub open spec fn number_prefix(n: nat, width: nat) -> Seq<char> {
    painted(Paint::Blue, "  "@ + padded(n, width) + " | "@)
}

/// The report of one line, numbered `n`, with the part `part` of it in
/// reversed colours.
pub open spec fn line_report(n: nat, width: nat, line: Seq<char>, part: Option<Span>) -> Seq<char> {
    number_prefix(n, width) + match part {
        Some(sp) => {
            let a = char_index(line, sp.lo as int);
            let b = char_index(line, sp.hi as int);
            line.take(a) + painted(Paint::Reverse, line.subrange(a, b)) + line.skip(b)
        },
        None => line,
    } + seq!['\n']
}

/// Whether the part of a line may be cut out of it: it is in order, and
/// both its ends fall between characters.
pub open spec fn part_fits(line: Seq<char>, part: Span) -> bool {
    part.lo <= part.hi && on_boundary(line, part.lo as int) && on_boundary(line, part.hi as int)
}

fn line_number_prefix(n: usize, width: usize) -> (s: String)
    ensures
        s@ == number_prefix(n as nat, width as nat),
{
    let mut inner = String::new();
    push_str(&mut inner, "  ");
    let w = decimal_width(n as u64);
    let mut k = w;
    while k < width
        invariant
            w <= k <= (if w <= width { width } else { w }),
            w == decimal(n as nat).len(),
            inner@ == "  "@ + spaces(k - w),
        decreases width - k,
    {
        push_char(&mut inner, ' ');
        k = k + 1;
        proof {
            assert(inner@ =~= "  "@ + spaces(k - w));
        }
    }
    push_decimal(&mut inner, n as u64);
    push_str(&mut inner, " | ");
    proof {
        assert(spaces(k - w) =~= spaces(width - w));
        assert(inner@ =~= "  "@ + padded(n as nat, width as nat) + " | "@);
    }
    paint(Paint::Blue, inner.as_str())
}

fn line_report_text(n: usize, width: usize, line: &str, span: Option<Span>) -> (s: String)
    requires
        byte_len(line@) <= usize::MAX,
        span matches Some(sp) ==> part_fits(line@, sp),
    ensures
        s@ == line_report(n as nat, width as nat, line@, span),
{
    let mut s = line_number_prefix(n, width);
    match span {
        Some(sp) => {
            let cs = chars_of(line);
            let a = char_index_of(&cs, sp.lo);
            let b = char_index_of(&cs, sp.hi);
            proof {
                lemma_char_index_mono(line@, sp.lo as int, sp.hi as int);
                lemma_char_index_bounds(line@, sp.hi as int);
            }
            let n_chars = cs.len();
            push_str(&mut s, line.substring_char(0, a));
            let mid = paint(Paint::Reverse, line.substring_char(a, b));
            push_str(&mut s, mid.as_str());
            push_str(&mut s, line.substring_char(b, n_chars));
            proof {
                assert(line@.subrange(0, a as int) =~= line@.take(a as int));
                assert(line@.subrange(b as int, n_chars as int) =~= line@.skip(b as int));
            }
        },
        None => {
            push_str(&mut s, line);
        },
    }
    push_char(&mut s, '\n');
    proof {
        assert(s@ =~= line_report(n as nat, width as nat, line@, span));
    }
    s
}

/// A focus entry with the text of its line.
pub open spec fn entry_view<'a>(e: FocusEntry<'a>) -> (usize, Seq<char>, Option<Span>) {
    (e.0, e.1@, e.2)
}

/// The entries of a focus with the texts of their lines.
pub open spec fn focus_views<'a>(es: Seq<FocusEntry<'a>>) -> Seq<(usize, Seq<char>, Option<Span>)> {
    es.map_values(|e: FocusEntry<'a>| entry_view(e))
}

/// Whether an entry stands for line `e.0` of `lines`, with the part the
/// span covers when it has one.
pub open spec fn entry_ok<'a>(lines: Seq<&'a str>, span: Span, e: FocusEntry<'a>) -> bool {
    &&& 0 <= e.0 < lines.len()
    &&& e.1 == lines[e.0 as int]
    &&& e.2 matches Some(p) ==> line_hit(strs_view(lines), span, e.0 as int)
        && p == line_part(strs_view(lines), span, e.0 as int)
}

proof fn lemma_lines_entries_ok<'a>(lines: Seq<&'a str>, span: Span, n: int)
    requires
        0 <= n <= lines.len(),
        lines.len() <= usize::MAX,
    ensures
        forall|k: int| 0 <= k < lines_before(lines, span, n).len() ==> entry_ok(lines, span, #[trigger] lines_before(lines, span, n)[k]),
        forall|k: int| 0 <= k < lines_hit(lines, span, n).len() ==> entry_ok(lines, span, #[trigger] lines_hit(lines, span, n)[k]),
        forall|k: int| 0 <= k < lines_after(lines, span, n).len() ==> entry_ok(lines, span, #[trigger] lines_after(lines, span, n)[k]),
    decreases n,
{
    if n > 0 {
        lemma_lines_entries_ok(lines, span, n - 1);
        let b = lines_before(lines, span, n);
        let b0 = lines_before(lines, span, n - 1);
        assert forall|k: int| 0 <= k < b.len() implies entry_ok(lines, span, #[trigger] b[k]) by {
            if k < b0.len() {
                assert(b[k] == b0[k]);
            }
        }
        let h = lines_hit(lines, span, n);
        let h0 = lines_hit(lines, span, n - 1);
        assert forall|k: int| 0 <= k < h.len() implies entry_ok(lines, span, #[trigger] h[k]) by {
            if k < h0.len() {
                assert(h[k] == h0[k]);
            }
        }
        let a = lines_after(lines, span, n);
        let a0 = lines_after(lines, span, n - 1);
        assert forall|k: int| 0 <= k < a.len() implies entry_ok(lines, span, #[trigger] a[k]) by {
            if k < a0.len() {
                assert(a[k] == a0[k]);
            }
        }
    }
}

proof fn lemma_focus_entries_ok<'a>(lines: Seq<&'a str>, span: Span, fringe: nat)
    requires
        lines.len() <= usize::MAX,
    ensures
        forall|k: int| 0 <= k < focus_of(lines, span, fringe).len() ==> entry_ok(lines, span, #[trigger] focus_of(lines, span, fringe)[k]),
{
    let n = lines.len() as int;
    lemma_lines_entries_ok(lines, span, n);
    let b = lines_before(lines, span, n);
    let h = lines_hit(lines, span, n);
    let a = lines_after(lines, span, n);
    let kb = if fringe < b.len() { fringe } else { b.len() };
    let ka = if fringe < a.len() { fringe } else { a.len() };
    let f = focus_of(lines, span, fringe);
    assert forall|k: int| 0 <= k < f.len() implies entry_ok(lines, span, #[trigger] f[k]) by {
        let bs = b.subrange(b.len() - kb, b.len() as int);
        if k < bs.len() {
            assert(f[k] == b[b.len() - kb + k]);
        } else if k < bs.len() + h.len() {
            assert(f[k] == h[k - bs.len()]);
        } else {
            assert(f[k] == a[k - bs.len() - h.len()]);
        }
    }
}

proof fn lemma_lines_same_views<'a>(l1: Seq<&'a str>, l2: Seq<&'a str>, span: Span, n: int)
    requires
        strs_view(l1) == strs_view(l2),
        0 <= n <= l1.len(),
    ensures
        focus_views(lines_before(l1, span, n)) == focus_views(lines_before(l2, span, n)),
        focus_views(lines_hit(l1, span, n)) == focus_views(lines_hit(l2, span, n)),
        focus_views(lines_after(l1, span, n)) == focus_views(lines_after(l2, span, n)),
    decreases n,
{
    if n > 0 {
        lemma_lines_same_views(l1, l2, span, n - 1);
        assert(l1.len() == strs_view(l1).len());
        assert(l2.len() == strs_view(l2).len());
        assert(l1[n - 1]@ == strs_view(l1)[n - 1]);
        assert(l2[n - 1]@ == strs_view(l2)[n - 1]);
        let b1 = lines_before(l1, span, n - 1);
        let b2 = lines_before(l2, span, n - 1);
        let h1 = lines_hit(l1, span, n - 1);
        let h2 = lines_hit(l2, span, n - 1);
        let a1 = lines_after(l1, span, n - 1);
        let a2 = lines_after(l2, span, n - 1);
        assert(focus_views(b1.push(plain_entry(l1, n - 1))) =~= focus_views(b1).push(entry_view(plain_entry(l1, n - 1))));
        assert(focus_views(b2.push(plain_entry(l2, n - 1))) =~= focus_views(b2).push(entry_view(plain_entry(l2, n - 1))));
        assert(focus_views(h1.push(hit_entry(l1, span, n - 1))) =~= focus_views(h1).push(entry_view(hit_entry(l1, span, n - 1))));
        assert(focus_views(h2.push(hit_entry(l2, span, n - 1))) =~= focus_views(h2).push(entry_view(hit_entry(l2, span, n - 1))));
        assert(focus_views(a1.push(plain_entry(l1, n - 1))) =~= focus_views(a1).push(entry_view(plain_entry(l1, n - 1))));
        assert(focus_views(a2.push(plain_entry(l2, n - 1))) =~= focus_views(a2).push(entry_view(plain_entry(l2, n - 1))));
    }
}

/// The lines of a focus say the same for two lists of lines with the same
/// texts.
proof fn lemma_focus_same_views<'a>(l1: Seq<&'a str>, l2: Seq<&'a str>, span: Span, fringe: nat)
    requires
        strs_view(l1) == strs_view(l2),
    ensures
        focus_views(focus_of(l1, span, fringe)) == focus_views(focus_of(l2, span, fringe)),
{
    assert(l1.len() == strs_view(l1).len());
    assert(l2.len() == strs_view(l2).len());
    let n = l1.len() as int;
    lemma_lines_same_views(l1, l2, span, n);
    let b1 = lines_before(l1, span, n);
    let b2 = lines_before(l2, span, n);
    let h1 = lines_hit(l1, span, n);
    let h2 = lines_hit(l2, span, n);
    let a1 = lines_after(l1, span, n);
    let a2 = lines_after(l2, span, n);
    assert(b1.len() == focus_views(b1).len());
    assert(b2.len() == focus_views(b2).len());
    assert(a1.len() == focus_views(a1).len());
    assert(a2.len() == focus_views(a2).len());
    let kb = if fringe < b1.len() { fringe } else { b1.len() };
    let ka = if fringe < a1.len() { fringe } else { a1.len() };
    assert(focus_views(focus_of(l1, span, fringe)) =~= focus_views(b1).subrange(b1.len() - kb, b1.len() as int)
        + focus_views(h1) + focus_views(a1).take(ka as int));
    assert(focus_views(focus_of(l2, span, fringe)) =~= focus_views(b2).subrange(b2.len() - kb, b2.len() as int)
        + focus_views(h2) + focus_views(a2).take(ka as int));
}

/// The reports of the lines of a focus, one after another.
pub open spec fn focus_report(es: Seq<(usize, Seq<char>, Option<Span>)>, width: nat) -> Seq<char>
    decreases es.len(),
{
    if es.len() == 0 {
        Seq::empty()
    } else {
        focus_report(es.drop_last(), width) + line_report((es.last().0 + 1) as nat, width, es.last().1, es.last().2)
    }
}

/// The lines of the body of a context; none without a body.
pub open spec fn ctx_lines(ctx: ErrorCtxView) -> Seq<Seq<char>> {
    match ctx.body {
        Some(b) => text_lines(b),
        None => Seq::empty(),
    }
}

/// The first line of the report of a context.
pub open spec fn context_head(source: Option<Seq<char>>) -> Seq<char> {
    "- "@ + painted(Paint::Blue, "context"@) + " - "@ + (match source {
        Some(s) => s,
        None => Seq::empty(),
    }) + seq!['\n']
}

/// The report of a context around `span`, `lines` being the lines of its
/// body: the lines of the focus with three lines of context, numbered from
/// one, in a width fit for the number of the last line of the body.
pub open spec fn context_report<'a>(ctx: ErrorCtxView, lines: Seq<&'a str>, span: Span) -> Seq<char> {
    context_head(ctx.source) + if ctx.body is Some {
        focus_report(focus_views(focus_of(lines, span, 3)), decimal(lines.len() as nat).len())
    } else {
        Seq::empty()
    }
}

/// Whether a report of the lines `vs` around `span` can be made: the span
/// and the lines fit in `isize`, and the part of each line that the span
/// covers is in order and falls between characters.
pub open spec fn report_fits(vs: Seq<Seq<char>>, span: Span) -> bool {
    &&& span.lo <= isize::MAX
    &&& span.hi <= isize::MAX
    &&& line_offset(vs, vs.len() as int) <= isize::MAX
    &&& forall|i: int| 0 <= i < vs.len() && #[trigger] line_hit(vs, span, i) ==> part_fits(vs[i], line_part(vs, span, i))
}

proof fn lemma_line_len_bound(vs: Seq<Seq<char>>, i: int)
    requires
        0 <= i < vs.len(),
    ensures
        byte_len(vs[i]) <= line_offset(vs, vs.len() as int),
{
    lemma_line_offset_mono(vs, i + 1, vs.len() as int);
    lemma_line_offset_nonneg(vs, i);
}

impl<'a> ErrorCtx<'a> {
    /// The text of the report of this context around `span`: its source,
    /// then the lines of its body that the span overlaps, with the parts
    /// it covers in reversed colours and three lines of context on each
    /// side, each line numbered.
    pub fn report(&self, span: Span) -> (s: String)
        requires
            self@.body matches Some(b) ==> report_fits(text_lines(b), span),
        ensures
            forall|ls: Seq<&str>| strs_view(ls) == ctx_lines(self@) ==> s@ == #[trigger] context_report(self@, ls, span),
    {
        let key = paint(Paint::Blue, "context");
        let mut s = String::new();
        push_str(&mut s, "- ");
        push_str(&mut s, key.as_str());
        push_str(&mut s, " - ");
        if let Some(source) = self.source {
            push_str(&mut s, source);
        }
        push_char(&mut s, '\n');
        let ghost head = s@;
        proof {
            assert(head =~= context_head(self@.source));
        }
        match self.body {
            Some(body) => {
                let line_vec = body_lines(body);
                let ghost lines = line_vec@;
                let ghost vs = strs_view(lines);
                let len = line_vec.len();
                let width = decimal_width(len as u64);
                let fringe: usize = 3;
                let focus = self.focus(line_vec, span, fringe);
                proof {
                    lemma_focus_entries_ok(lines, span, 3);
                    assert(focus_views(focus@.take(0)) =~= Seq::<(usize, Seq<char>, Option<Span>)>::empty());
                }
                let n = focus.len();
                let mut k: usize = 0;
                while k < n
                    invariant
                        n == focus@.len(),
                        k <= n,
                        lines.len() == len,
                        focus@ == focus_of(lines, span, 3),
                        vs == strs_view(lines),
                        report_fits(vs, span),
                        width == decimal(lines.len() as nat).len(),
                        forall|j: int| 0 <= j < focus@.len() ==> entry_ok(lines, span, #[trigger] focus@[j]),
                        s@ == head + focus_report(focus_views(focus@.take(k as int)), width as nat),
                    decreases n - k,
                {
                    let (i, line, part) = focus[k];
                    proof {
                        assert(entry_ok(lines, span, focus@[k as int]));
                        assert(vs[i as int] == line@);
                        lemma_line_len_bound(vs, i as int);
                        if part is Some {
                            assert(line_hit(vs, span, i as int));
                        }
                    }
                    let text = line_report_text(i + 1, width, line, part);
                    push_str(&mut s, text.as_str());
                    proof {
                        let pre = focus_views(focus@.take(k + 1));
                        assert(pre.drop_last() =~= focus_views(focus@.take(k as int)));
                        assert(pre.last() == entry_view(focus@[k as int]));
                        assert(s@ =~= head + focus_report(pre, width as nat));
                    }
                    k = k + 1;
                }
                proof {
                    assert(focus@.take(n as int) =~= focus@);
                    assert forall|ls: Seq<&str>| strs_view(ls) == ctx_lines(self@) implies s@ == #[trigger] context_report(self@, ls, span) by {
                        lemma_focus_same_views(lines, ls, span, 3);
                        assert(ls.len() == strs_view(ls).len());
                        assert(lines.len() == strs_view(lines).len());
                    }
                }
            },
            None => {
                proof {
                    assert forall|ls: Seq<&str>| strs_view(ls) == ctx_lines(self@) implies s@ == #[trigger] context_report(self@, ls, span) by {
                        assert(s@ =~= context_report(self@, ls, span));
                    }
                }
            },
        }
        s
    }
}

/// The report of a message: a dash and its head, then each line indented.
pub open spec fn msg_report(m: ErrorMsgView) -> Seq<char> {
    (match m.head {
        Some(h) => "- "@ + h,
        None => "-"@,
    }) + seq!['\n'] + indented_lines(m.lines)
}

/// Each line after two spaces, and a newline after each.
pub open spec fn indented_lines(ls: Seq<Seq<char>>) -> Seq<char>
    decreases ls.len(),
{
    if ls.len() == 0 {
        Seq::empty()
    } else {
        indented_lines(ls.drop_last()) + "  "@ + ls.last() + seq!['\n']
    }
}

/// A dash and a painted key before a message.
pub open spec fn key_report(key: Seq<char>, p: Paint) -> Seq<char> {
    "- "@ + painted(p, key) + seq![' ']
}

/// Messages, each after its key.
pub open spec fn msgs_report(key: Seq<char>, p: Paint, ms: Seq<ErrorMsgView>) -> Seq<char>
    decreases ms.len(),
{
    if ms.len() == 0 {
        Seq::empty()
    } else {
        msgs_report(key, p, ms.drop_last()) + key_report(key, p) + msg_report(ms.last())
    }
}

/// The report of an error in a context whose body has the lines `lines`:
/// the error, its information, the context around its span, its notes,
/// and an empty line.
pub open spec fn error_report<'a>(e: ErrorInCtxView, ctx: ErrorCtxView, lines: Seq<&'a str>) -> Seq<char> {
    key_report("error"@, Paint::Red) + msg_report(e.msg) + msgs_report("info"@, Paint::Purple, e.infos)
        + (match e.span {
            Some(sp) => context_report(ctx, lines, sp),
            None => Seq::empty(),
        })
        + msgs_report("note"@, Paint::Cyan, e.notes) + seq!['\n']
}

/// Whether the report of an error in a context can be made: the error
/// has no span, the context has no body, or the lines of the body and the
/// span meet `report_fits`.
pub open spec fn error_report_fits(e: ErrorInCtxView, ctx: ErrorCtxView) -> bool {
    match (e.span, ctx.body) {
        (Some(sp), Some(b)) => report_fits(text_lines(b), sp),
        _ => true,
    }
}

impl ErrorMsg {
    /// The text of the report of the message.
    pub fn report(&self) -> (s: String)
        ensures
            s@ == msg_report(self@),
    {
        let mut s = String::new();
        match &self.head {
            Some(head) => {
                push_str(&mut s, "- ");
                push_str(&mut s, head.as_str());
            },
            None => {
                push_str(&mut s, "-");
            },
        }
        push_char(&mut s, '\n');
        let ghost first = s@;
        let mut i: usize = 0;
        proof {
            assert(strings_view(self.line_vec@).take(0) =~= Seq::<Seq<char>>::empty());
        }
        while i < self.line_vec.len()
            invariant
                i <= self.line_vec@.len(),
                s@ == first + indented_lines(strings_view(self.line_vec@).take(i as int)),
            decreases self.line_vec@.len() - i,
        {
            push_str(&mut s, "  ");
            push_str(&mut s, self.line_vec[i].as_str());
            push_char(&mut s, '\n');
            proof {
                let pre = strings_view(self.line_vec@).take(i + 1);
                assert(pre.drop_last() =~= strings_view(self.line_vec@).take(i as int));
                assert(pre.last() == self.line_vec@[i as int]@);
                assert(s@ =~= first + indented_lines(pre));
            }
            i = i + 1;
        }
        proof {
            assert(strings_view(self.line_vec@).take(self.line_vec@.len() as int) =~= strings_view(self.line_vec@));
            assert(s@ =~= msg_report(self@));
        }
        s
    }
}

fn push_msgs_report(s: &mut String, key: &str, p: Paint, ms: &Vec<ErrorMsg>)
    ensures
        final(s)@ == old(s)@ + msgs_report(key@, p, msgs_view(ms@)),
{
    let mut i: usize = 0;
    proof {
        assert(msgs_view(ms@).take(0) =~= Seq::<ErrorMsgView>::empty());
        assert(old(s)@ + Seq::<char>::empty() =~= old(s)@);
    }
    while i < ms.len()
        invariant
            i <= ms@.len(),
            s@ == old(s)@ + msgs_report(key@, p, msgs_view(ms@).take(i as int)),
        decreases ms@.len() - i,
    {
        push_str(s, "- ");
        let k = paint(p, key);
        push_str(s, k.as_str());
        push_char(s, ' ');
        let m = ms[i].report();
        push_str(s, m.as_str());
        proof {
            let pre = msgs_view(ms@).take(i + 1);
            assert(pre.drop_last() =~= msgs_view(ms@).take(i as int));
            assert(pre.last() == ms@[i as int]@);
            assert(s@ =~= old(s)@ + msgs_report(key@, p, pre));
        }
        i = i + 1;
    }
    proof {
        assert(msgs_view(ms@).take(ms@.len() as int) =~= msgs_view(ms@));
    }
}

impl<'a> ErrorInCtx {
    /// The text of the report of the error in the context `ctx`.
    pub fn report(&self, ctx: ErrorCtx<'a>) -> (s: String)
        requires
            error_report_fits(self@, ctx@),
        ensures
            forall|ls: Seq<&str>| strs_view(ls) == ctx_lines(ctx@) ==> s@ == #[trigger] error_report(self@, ctx@, ls),
    {
        let mut s = String::new();
        let key = paint(Paint::Red, "error");
        push_str(&mut s, "- ");
        push_str(&mut s, key.as_str());
        push_char(&mut s, ' ');
        let m = self.msg.report();
        push_str(&mut s, m.as_str());
        push_msgs_report(&mut s, "info", Paint::Purple, &self.info_vec);
        let ghost before_ctx = s@;
        let mut ctx_text = String::new();
        if let Some(span) = self.span {
            ctx_text = ctx.report(span);
        }
        push_str(&mut s, ctx_text.as_str());
        let ghost after_ctx = s@;
        push_msgs_report(&mut s, "note", Paint::Cyan, &self.note_vec);
        push_char(&mut s, '\n');
        proof {
            assert forall|ls: Seq<&str>| strs_view(ls) == ctx_lines(ctx@) implies s@ == #[trigger] error_report(self@, ctx@, ls) by {
                if self.span is Some {
                    assert(ctx_text@ == context_report(ctx@, ls, self.span->0));
                }
                assert(s@ =~= error_report(self@, ctx@, ls));
            }
        }
        s
    }
}

proof fn lemma_byte_len_subrange(cs: Seq<char>, a: int, b: int)
    requires
        0 <= a <= b <= cs.len(),
    ensures
        byte_len(cs.subrange(a, b)) <= byte_len(cs),
{
    assert(cs =~= cs.take(a) + (cs.subrange(a, b) + cs.skip(b)));
    crate::text::lemma_byte_len_concat(cs.take(a), cs.subrange(a, b) + cs.skip(b));
    crate::text::lemma_byte_len_concat(cs.subrange(a, b), cs.skip(b));
}

proof fn lemma_lines_from_bound(cs: Seq<char>, p: int)
    requires
        0 <= p,
    ensures
        forall|k: int| 0 <= k < lines_from(cs, p).len() ==> byte_len(#[trigger] lines_from(cs, p)[k]) <= byte_len(cs),
    decreases cs.len() - p,
{
    if p < cs.len() {
        lemma_next_newline(cs, p);
        let e = next_newline(cs, p);
        let end = if e < cs.len() && e > p && cs[e - 1] == '\r' { e - 1 } else { e };
        lemma_byte_len_subrange(cs, p, end);
        if e < cs.len() {
            lemma_lines_from_bound(cs, e + 1);
        }
        let ls = lines_from(cs, p);
        assert forall|k: int| 0 <= k < ls.len() implies byte_len(#[trigger] ls[k]) <= byte_len(cs) by {
            if k > 0 {
                assert(ls[k] == lines_from(cs, e + 1)[k - 1]);
            }
        }
    }
}

fn boundary_p(line: &str, b: usize) -> (r: bool)
    requires
        byte_len(line@) <= usize::MAX,
    ensures
        r == on_boundary(line@, b as int),
{
    let cs = chars_of(line);
    let k = char_index_of(&cs, b);
    let mut acc: usize = 0;
    let mut j: usize = 0;
    proof {
        lemma_char_index_bounds(line@, b as int);
        assert(line@.take(0) =~= Seq::<char>::empty());
    }
    while j < k
        invariant
            cs@ == line@,
            k <= cs@.len(),
            j <= k,
            byte_len(line@) <= usize::MAX,
            acc == byte_len(line@.take(j as int)),
        decreases k - j,
    {
        proof {
            assert(line@.take(j + 1) =~= line@.take(j as int).push(line@[j as int]));
            lemma_byte_len_push(line@.take(j as int), line@[j as int]);
            assert(line@ =~= line@.take(j + 1) + line@.skip(j + 1));
            crate::text::lemma_byte_len_concat(line@.take(j + 1), line@.skip(j + 1));
        }
        acc = acc + len_utf8(cs[j]);
        j = j + 1;
    }
    acc == b
}

impl<'a> ErrorCtx<'a> {
    /// Whether `report` can show `span` in this context: it has no body,
    /// or the lines of its body and `span` meet `report_fits`.
    pub fn report_fits(&self, span: Span) -> (r: bool)
        requires
            self@.body matches Some(b) ==> byte_len(b) <= usize::MAX,
        ensures
            r == (self@.body matches Some(b) ==> report_fits(text_lines(b), span)),
    {
        match self.body {
            None => true,
            Some(body) => {
                let lines = body_lines(body);
                let ghost vs = strs_view(lines@);
                proof {
                    lemma_lines_from_bound(body@, 0);
                }
                let limit: usize = isize::MAX as usize;
                if span.lo > limit || span.hi > limit {
                    return false;
                }
                let n = lines.len();
                let mut off: usize = 0;
                let mut ok = true;
                let mut i: usize = 0;
                while i < n
                    invariant
                        n == lines@.len(),
                        self@.body == Some(body@),
                        vs == strs_view(lines@),
                        vs == text_lines(body@),
                        forall|k: int| 0 <= k < vs.len() ==> byte_len(#[trigger] vs[k]) <= byte_len(body@),
                        byte_len(body@) <= usize::MAX,
                        limit == isize::MAX,
                        span.lo <= limit,
                        span.hi <= limit,
                        i <= n,
                        off == line_offset(vs, i as int),
                        off <= limit,
                        ok == (forall|j: int| 0 <= j < i && #[trigger] line_hit(vs, span, j) ==> part_fits(vs[j], line_part(vs, span, j))),
                    decreases n - i,
                {
                    let line = lines[i];
                    let cs = chars_of(line);
                    proof {
                        assert(vs[i as int] == line@);
                        lemma_str_len(line);
                    }
                    let len = line.len();
                    let lo: i128 = span.lo as i128 - off as i128;
                    let hi: i128 = span.hi as i128 - off as i128;
                    let ghost ok0 = ok;
                    proof {
                        assert(len == byte_len(vs[i as int]));
                        assert(lo == rel_lo(vs, span, i as int));
                        assert(hi == rel_hi(vs, span, i as int));
                        assert(line_hit(vs, span, i as int) == !(lo >= len as i128 || hi <= 0));
                    }
                    if !(lo >= len as i128 || hi <= 0) {
                        let plo: usize = if lo < 0 { 0 } else { lo as usize };
                        let phi: usize = if hi < len as i128 { hi as usize } else { len };
                        let fits = plo <= phi && boundary_p(line, plo) && boundary_p(line, phi);
                        proof {
                            assert(line_part(vs, span, i as int) == Span { lo: plo, hi: phi });
                        }
                        if !fits {
                            ok = false;
                        }
                    }
                    proof {
                        assert(line_offset(vs, i + 1) == off + len + 1);
                        if ok {
                            assert forall|j: int| 0 <= j < i + 1 && #[trigger] line_hit(vs, span, j) implies part_fits(vs[j], line_part(vs, span, j)) by {
                                if j < i {
                                    assert(ok0);
                                }
                            }
                        }
                    }
                    if len >= limit - off {
                        proof {
                            assert(vs.len() == n);
                            lemma_line_offset_mono(vs, i + 1, n as int);
                            assert(line_offset(vs, vs.len() as int) > isize::MAX);
                            assert(self@.body == Some(body@));
                        }
                        return false;
                    }
                    off = off + len + 1;
                    i = i + 1;
                }
                ok
            },
        }
    }
}

impl ErrorInCtx {
    /// Whether `report` can show this error in `ctx`: it has no span, the
    /// context has no body, or the body's lines and the span meet
    /// `report_fits`.
    pub fn report_fits<'a>(&self, ctx: &ErrorCtx<'a>) -> (r: bool)
        requires
            ctx@.body matches Some(b) ==> byte_len(b) <= usize::MAX,
        ensures
            r == error_report_fits(self@, ctx@),
    {
        match self.span {
            Some(span) => ctx.report_fits(span),
            None => true,
        }
    }
}

} // verus!
