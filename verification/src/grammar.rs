//! Grammars given as rewriting rules, and the sentences they generate,
//! found breadth first.

use vstd::prelude::*;
use std::collections::VecDeque;
use crate::text::{chars_of, push_char, push_str, string_from, str_eq};

verus! {

/// A symbol of a grammar: a variable, by its name, or a character.
#[derive(Clone, Debug, PartialEq)]
pub enum Token {
    Var(String),
    Char(char),
}

/// What a symbol is.
pub enum SymbolView {
    Var(Seq<char>),
    Char(char),
}

impl View for Token {
    type V = SymbolView;

    open spec fn view(&self) -> SymbolView {
        match self {
            Token::Var(name) => SymbolView::Var(name@),
            Token::Char(c) => SymbolView::Char(*c),
        }
    }
}

/// The views of symbols.
pub open spec fn symbols_view(v: Seq<Token>) -> Seq<SymbolView> {
    v.map_values(|t: Token| token_view(t))
}

/// The view of a symbol.
pub open spec fn token_view(t: Token) -> SymbolView {
    t@
}

/// The symbols of a text, one character each.
pub open spec fn chars_view(s: Seq<char>) -> Seq<SymbolView> {
    s.map_values(|c: char| char_symbol(c))
}

/// The symbol of a character.
pub open spec fn char_symbol(c: char) -> SymbolView {
    SymbolView::Char(c)
}

proof fn lemma_symbols_push(b: Seq<Token>, x: Token)
    ensures
        symbols_view(b.push(x)) == symbols_view(b).push(x@),
{
    assert(symbols_view(b.push(x)) =~= symbols_view(b).push(x@));
}

proof fn lemma_chars_push(b: Seq<char>, c: char)
    ensures
        chars_view(b.push(c)) == chars_view(b).push(char_symbol(c)),
{
    assert(chars_view(b.push(c)) =~= chars_view(b).push(char_symbol(c)));
}

fn copy_token(t: &Token) -> (r: Token)
    ensures
        r@ == t@,
{
    match t {
        Token::Var(name) => Token::Var(string_from(name.as_str())),
        Token::Char(c) => Token::Char(*c),
    }
}

fn token_eq(a: &Token, b: &Token) -> (r: bool)
    ensures
        r == (a@ == b@),
{
    match (a, b) {
        (Token::Var(x), Token::Var(y)) => str_eq(x.as_str(), y.as_str()),
        (Token::Char(x), Token::Char(y)) => *x == *y,
        _ => false,
    }
}

impl Token {
    /// Whether the symbol is a variable.
    pub fn var_p(&self) -> (r: bool)
        ensures
            r == self@ is Var,
    {
        if let Token::Var(_) = self {
            true
        } else {
            false
        }
    }

    /// Whether the symbol is a character.
    pub fn str_p(&self) -> (r: bool)
        ensures
            r == self@ is Char,
    {
        if let Token::Char(_) = self {
            true
        } else {
            false
        }
    }

    /// The variable named `name`.
    pub fn new_var(name: &str) -> (t: Token)
        ensures
            t@ == SymbolView::Var(name@),
    {
        Token::Var(string_from(name))
    }

    /// The characters of `string`, one symbol each.
    pub fn new_chars(string: &str) -> (v: Vec<Token>)
        ensures
            symbols_view(v@) == chars_view(string@),
    {
        let cs = chars_of(string);
        let mut chars: Vec<Token> = Vec::new();
        let mut i: usize = 0;
        proof {
            assert(symbols_view(chars@) =~= chars_view(cs@.take(0)));
        }
        while i < cs.len()
            invariant
                i <= cs@.len(),
                cs@ == string@,
                symbols_view(chars@) == chars_view(cs@.take(i as int)),
            decreases cs@.len() - i,
        {
            let ghost before = chars@;
            let tok = Token::Char(cs[i]);
            chars.push(tok);
            proof {
                assert(cs@.take(i + 1) =~= cs@.take(i as int).push(cs@[i as int]));
                lemma_symbols_push(before, tok);
                lemma_chars_push(cs@.take(i as int), cs@[i as int]);
            }
            i = i + 1;
        }
        proof {
            assert(cs@.take(cs@.len() as int) =~= cs@);
        }
        chars
    }
}

/// A rule: a left side, and the right sides that may stand in its place.
#[derive(Clone, Debug, PartialEq)]
pub struct Rule {
    pub ante: Vec<Token>,
    pub succ: Vec<Vec<Token>>,
}

/// The sides of a rule.
pub struct RuleView {
    pub ante: Seq<SymbolView>,
    pub succ: Seq<Seq<SymbolView>>,
}

/// The views of lists of symbols.
pub open spec fn alternatives_view(v: Seq<Vec<Token>>) -> Seq<Seq<SymbolView>> {
    v.map_values(|s: Vec<Token>| vec_symbols(s))
}

/// The view of a list of symbols.
pub open spec fn vec_symbols(v: Vec<Token>) -> Seq<SymbolView> {
    symbols_view(v@)
}

impl View for Rule {
    type V = RuleView;

    open spec fn view(&self) -> RuleView {
        RuleView { ante: symbols_view(self.ante@), succ: alternatives_view(self.succ@) }
    }
}

/// The rule after `s` is written at its end: on the left side while it has
/// no right side yet, else at the end of its last right side.
pub open spec fn rule_then(r: RuleView, s: Seq<SymbolView>) -> RuleView {
    if r.succ.len() == 0 {
        RuleView { ante: r.ante + s, succ: r.succ }
    } else {
        RuleView { ante: r.ante, succ: r.succ.update(r.succ.len() - 1, r.succ.last() + s) }
    }
}

proof fn lemma_alternatives_last(v: Seq<Vec<Token>>, x: Vec<Token>)
    requires
        v.len() > 0,
    ensures
        alternatives_view(v.drop_last().push(x))
            == alternatives_view(v).update(v.len() - 1, symbols_view(x@)),
{
    assert(alternatives_view(v.drop_last().push(x)) =~= alternatives_view(v).update(v.len() - 1, symbols_view(x@)));
}

impl Rule {
    /// A rule with empty sides.
    pub fn new() -> (r: Rule)
        ensures
            r@.ante == Seq::<SymbolView>::empty(),
            r@.succ == Seq::<Seq<SymbolView>>::empty(),
    {
        let r = Rule { ante: Vec::new(), succ: Vec::new() };
        proof {
            assert(r@.ante =~= Seq::<SymbolView>::empty());
            assert(r@.succ =~= Seq::<Seq<SymbolView>>::empty());
        }
        r
    }

    /// The rule with one more, empty, right side.
    pub fn choice(self) -> (r: Rule)
        ensures
            r@.ante == self@.ante,
            r@.succ == self@.succ.push(Seq::<SymbolView>::empty()),
    {
        let mut rule = self;
        let e: Vec<Token> = Vec::new();
        proof {
            assert(symbols_view(e@) =~= Seq::<SymbolView>::empty());
        }
        rule.succ.push(e);
        proof {
            assert(rule@.succ =~= self@.succ.push(Seq::<SymbolView>::empty()));
        }
        rule
    }

    /// The rule with the variable `name` written at its end.
    pub fn var(self, name: &str) -> (r: Rule)
        ensures
            r@ == rule_then(self@, seq![SymbolView::Var(name@)]),
    {
        let mut rule = self;
        if rule.succ.len() == 0 {
            rule.ante.push(Token::new_var(name));
            proof {
                assert(rule@.ante =~= self@.ante + seq![SymbolView::Var(name@)]);
            }
        } else {
            let mut symbol_vec = rule.succ.pop().unwrap();
            let ghost before = symbol_vec@;
            symbol_vec.push(Token::new_var(name));
            proof {
                assert(symbols_view(symbol_vec@) =~= symbols_view(before) + seq![SymbolView::Var(name@)]);
            }
            rule.succ.push(symbol_vec);
            proof {
                lemma_alternatives_last(self.succ@, symbol_vec);
            }
        }
        rule
    }

    /// The rule with the characters of `string` written at its end.
    pub fn chars(self, string: &str) -> (r: Rule)
        ensures
            r@ == rule_then(self@, chars_view(string@)),
    {
        let mut rule = self;
        if rule.succ.len() == 0 {
            let mut symbol_vec = Token::new_chars(string);
            rule.ante.append(&mut symbol_vec);
            proof {
                assert(rule@.ante =~= self@.ante + chars_view(string@));
            }
        } else {
            let mut symbol_vec = rule.succ.pop().unwrap();
            let ghost before = symbol_vec@;
            let mut more = Token::new_chars(string);
            symbol_vec.append(&mut more);
            proof {
                assert(symbols_view(symbol_vec@) =~= symbols_view(before) + chars_view(string@));
            }
            rule.succ.push(symbol_vec);
            proof {
                lemma_alternatives_last(self.succ@, symbol_vec);
            }
        }
        rule
    }
}

/// A grammar: its rules, in the order they were given.
#[derive(Clone, Debug, PartialEq)]
pub struct Grammar {
    rule_vec: Vec<Rule>,
}

/// The view of a rule.
pub open spec fn rule_view(r: Rule) -> RuleView {
    r@
}

impl View for Grammar {
    type V = Seq<RuleView>;

    closed spec fn view(&self) -> Seq<RuleView> {
        self.rule_vec@.map_values(|r: Rule| rule_view(r))
    }
}

impl Grammar {
    /// A grammar with no rules.
    pub fn new() -> (g: Grammar)
        ensures
            g@ == Seq::<RuleView>::empty(),
    {
        let g = Grammar { rule_vec: Vec::new() };
        proof {
            assert(g@ =~= Seq::<RuleView>::empty());
        }
        g
    }

    /// The grammar with one more rule, after the others.
    pub fn rule(self, rule: Rule) -> (g: Grammar)
        ensures
            g@ == self@.push(rule@),
    {
        let mut grammar = self;
        let ghost before = grammar.rule_vec@;
        grammar.rule_vec.push(rule);
        proof {
            assert(grammar@ =~= self@.push(rule@));
        }
        grammar
    }
}

/// A sentential form: the symbols a sentence is made of on the way.
#[derive(Clone, Debug, PartialEq)]
struct SententialForm {
    symbol_vec: Vec<Token>,
}

impl View for SententialForm {
    type V = Seq<SymbolView>;

    closed spec fn view(&self) -> Seq<SymbolView> {
        symbols_view(self.symbol_vec@)
    }
}

/// The view of a form.
spec fn form_view(f: SententialForm) -> Seq<SymbolView> {
    f@
}

/// The views of forms.
spec fn forms_view(v: Seq<SententialForm>) -> Seq<Seq<SymbolView>> {
    v.map_values(|f: SententialForm| form_view(f))
}

/// Whether the form holds characters only: a sentence.
pub open spec fn all_chars(f: Seq<SymbolView>) -> bool {
    forall|i: int| 0 <= i < f.len() ==> #[trigger] f[i] is Char
}

/// The form with the `len` symbols at `i` replaced by `alt`.
pub open spec fn substituted(f: Seq<SymbolView>, i: int, len: int, alt: Seq<SymbolView>) -> Seq<SymbolView> {
    f.subrange(0, i) + alt + f.subrange(i + len, f.len() as int)
}

/// The text of a symbol: a variable's name between braces, a character
/// itself.
pub open spec fn symbol_text(s: SymbolView) -> Seq<char> {
    match s {
        SymbolView::Var(name) => seq!['{'] + name + seq!['}'],
        SymbolView::Char(c) => seq![c],
    }
}

/// The text of a form, symbol after symbol.
pub open spec fn form_text(f: Seq<SymbolView>) -> Seq<char>
    decreases f.len(),
{
    if f.len() == 0 {
        Seq::empty()
    } else {
        form_text(f.drop_last()) + symbol_text(f.last())
    }
}

proof fn lemma_forms_push(v: Seq<SententialForm>, f: SententialForm)
    ensures
        forms_view(v.push(f)) == forms_view(v).push(f@),
{
    assert(forms_view(v.push(f)) =~= forms_view(v).push(f@));
}

proof fn lemma_forms_cat(a: Seq<SententialForm>, b: Seq<SententialForm>)
    ensures
        forms_view(a + b) == forms_view(a) + forms_view(b),
{
    assert(forms_view(a + b) =~= forms_view(a) + forms_view(b));
}

fn copy_symbols(v: &Vec<Token>, lo: usize, hi: usize, out: &mut Vec<Token>)
    requires
        lo <= hi <= v@.len(),
    ensures
        symbols_view(final(out)@) == symbols_view(old(out)@) + symbols_view(v@).subrange(lo as int, hi as int),
{
    let mut k: usize = lo;
    proof {
        assert(symbols_view(v@).subrange(lo as int, lo as int) =~= Seq::<SymbolView>::empty());
        assert(symbols_view(out@) =~= symbols_view(old(out)@) + Seq::<SymbolView>::empty());
    }
    while k < hi
        invariant
            lo <= k <= hi <= v@.len(),
            symbols_view(out@) == symbols_view(old(out)@) + symbols_view(v@).subrange(lo as int, k as int),
        decreases hi - k,
    {
        let ghost before = out@;
        let t = copy_token(&v[k]);
        out.push(t);
        proof {
            lemma_symbols_push(before, t);
            assert(symbols_view(v@)[k as int] == v@[k as int]@);
            assert(symbols_view(v@).subrange(lo as int, k + 1) =~= symbols_view(v@).subrange(lo as int, k as int).push(v@[k as int]@));
            assert(symbols_view(out@) =~= symbols_view(old(out)@) + symbols_view(v@).subrange(lo as int, k + 1));
        }
        k = k + 1;
    }
}

impl SententialForm {
    /// Whether the form is a sentence: characters only.
    fn str_p(&self) -> (r: bool)
        ensures
            r == all_chars(self@),
    {
        let mut i: usize = 0;
        while i < self.symbol_vec.len()
            invariant
                i <= self.symbol_vec@.len(),
                forall|j: int| 0 <= j < i ==> #[trigger] self@[j] is Char,
            decreases self.symbol_vec@.len() - i,
        {
            if !self.symbol_vec[i].str_p() {
                proof {
                    assert(!(self@[i as int] is Char));
                }
                return false;
            }
            i = i + 1;
        }
        true
    }

    /// Number of symbols.
    fn len(&self) -> (n: usize)
        ensures
            n == self@.len(),
    {
        self.symbol_vec.len()
    }

    /// A form of the symbols of `symbol_vec`.
    fn new(symbol_vec: &Vec<Token>) -> (f: SententialForm)
        ensures
            f@ == symbols_view(symbol_vec@),
    {
        let mut out: Vec<Token> = Vec::new();
        proof {
            assert(symbols_view(out@) =~= Seq::<SymbolView>::empty());
        }
        copy_symbols(symbol_vec, 0, symbol_vec.len(), &mut out);
        proof {
            assert(symbols_view(symbol_vec@).subrange(0, symbol_vec@.len() as int) =~= symbols_view(symbol_vec@));
            assert(Seq::<SymbolView>::empty() + symbols_view(symbol_vec@) =~= symbols_view(symbol_vec@));
        }
        SententialForm { symbol_vec: out }
    }

    /// The form with the `len` symbols at `i` replaced by `symbol_vec`.
    fn substitute(&self, i: usize, len: usize, symbol_vec: &Vec<Token>) -> (f: SententialForm)
        requires
            i + len <= self@.len(),
        ensures
            f@ == substituted(self@, i as int, len as int, symbols_view(symbol_vec@)),
    {
        let mut out: Vec<Token> = Vec::new();
        proof {
            assert(symbols_view(out@) =~= Seq::<SymbolView>::empty());
        }
        proof {
            assert(self@.len() == self.symbol_vec@.len());
        }
        let n = self.symbol_vec.len();
        copy_symbols(&self.symbol_vec, 0, i, &mut out);
        copy_symbols(symbol_vec, 0, symbol_vec.len(), &mut out);
        copy_symbols(&self.symbol_vec, i + len, n, &mut out);
        proof {
            assert(symbols_view(symbol_vec@).subrange(0, symbol_vec@.len() as int) =~= symbols_view(symbol_vec@));
            assert(symbols_view(out@) =~= substituted(self@, i as int, len as int, symbols_view(symbol_vec@)));
        }
        SententialForm { symbol_vec: out }
    }

    /// The text of the form: a variable's name between braces, a
    /// character itself.
    fn into_string(self) -> (s: String)
        ensures
            s@ == form_text(self@),
    {
        let mut result = String::new();
        let mut i: usize = 0;
        proof {
            assert(self@.take(0) =~= Seq::<SymbolView>::empty());
        }
        while i < self.symbol_vec.len()
            invariant
                i <= self.symbol_vec@.len(),
                result@ == form_text(self@.take(i as int)),
            decreases self.symbol_vec@.len() - i,
        {
            match &self.symbol_vec[i] {
                Token::Var(name) => {
                    push_char(&mut result, '{');
                    push_str(&mut result, name.as_str());
                    push_char(&mut result, '}');
                },
                Token::Char(c) => {
                    push_char(&mut result, *c);
                },
            }
            proof {
                assert(self@.take(i + 1).drop_last() =~= self@.take(i as int));
                assert(self@.take(i + 1).last() == self@[i as int]);
                assert(result@ =~= form_text(self@.take(i + 1)));
            }
            i = i + 1;
        }
        proof {
            assert(self@.take(self@.len() as int) =~= self@);
        }
        result
    }
}

/// Whether the symbols of `ante` stand in `form` at `at`.
fn symbol_vec_eq(ante: &Vec<Token>, form: &Vec<Token>, at: usize) -> (r: bool)
    requires
        at + ante@.len() <= form@.len(),
    ensures
        r == (symbols_view(form@).subrange(at as int, at + ante@.len()) == symbols_view(ante@)),
{
    let mut k: usize = 0;
    let n = form.len();
    while k < ante.len()
        invariant
            n == form@.len(),
            at + ante@.len() <= form@.len(),
            k <= ante@.len(),
            forall|j: int| 0 <= j < k ==> #[trigger] symbols_view(ante@)[j] == symbols_view(form@)[at + j],
        decreases ante@.len() - k,
    {
        if !token_eq(&ante[k], &form[at + k]) {
            proof {
                assert(symbols_view(form@).subrange(at as int, at + ante@.len())[k as int] != symbols_view(ante@)[k as int]);
            }
            return false;
        }
        k = k + 1;
    }
    proof {
        assert(symbols_view(form@).subrange(at as int, at + ante@.len()) =~= symbols_view(ante@));
    }
    true
}

/// The forms the rule makes at place `i` of `f`: one for each right side,
/// in order, where the left side stands there; none elsewhere.
pub open spec fn rule_at(r: RuleView, f: Seq<SymbolView>, i: int) -> Seq<Seq<SymbolView>> {
    if f.subrange(i, i + r.ante.len()) == r.ante {
        r.succ.map_values(|alt: Seq<SymbolView>| substituted(f, i, r.ante.len() as int, alt))
    } else {
        Seq::empty()
    }
}

/// The forms the rule makes at the places before `n`, place by place.
pub open spec fn rule_upto(r: RuleView, f: Seq<SymbolView>, n: int) -> Seq<Seq<SymbolView>>
    decreases n,
{
    if n <= 0 {
        Seq::empty()
    } else {
        rule_upto(r, f, n - 1) + rule_at(r, f, n - 1)
    }
}

/// One step of the rule on `f`: the forms it makes at each place where its
/// left side stands, from the start on.
pub open spec fn rule_apply(r: RuleView, f: Seq<SymbolView>) -> Seq<Seq<SymbolView>> {
    if r.ante.len() <= f.len() {
        rule_upto(r, f, f.len() - r.ante.len() + 1)
    } else {
        Seq::empty()
    }
}

/// One step of the rules on `f`, rule after rule.
pub open spec fn grammar_apply(rules: Seq<RuleView>, f: Seq<SymbolView>) -> Seq<Seq<SymbolView>>
    decreases rules.len(),
{
    if rules.len() == 0 {
        Seq::empty()
    } else {
        grammar_apply(rules.drop_last(), f) + rule_apply(rules.last(), f)
    }
}

impl Rule {
    fn apply_at(&self, form: &SententialForm, i: usize, result: &mut Vec<SententialForm>)
        requires
            i + self@.ante.len() <= form@.len(),
        ensures
            forms_view(final(result)@) == forms_view(old(result)@) + rule_at(self@, form@, i as int),
    {
        let len = self.ante.len();
        if symbol_vec_eq(&self.ante, &form.symbol_vec, i) {
            let ghost alts = rule_at(self@, form@, i as int);
            let mut j: usize = 0;
            proof {
                assert(alts.take(0) =~= Seq::<Seq<SymbolView>>::empty());
                assert(forms_view(result@) =~= forms_view(old(result)@) + alts.take(0));
            }
            while j < self.succ.len()
                invariant
                    i + self@.ante.len() <= form@.len(),
                    len == self@.ante.len(),
                    alts == rule_at(self@, form@, i as int),
                    alts.len() == self@.succ.len(),
                    j <= self@.succ.len(),
                    forms_view(result@) == forms_view(old(result)@) + alts.take(j as int),
                decreases self@.succ.len() - j,
            {
                let new_form = form.substitute(i, len, &self.succ[j]);
                let ghost before = result@;
                result.push(new_form);
                proof {
                    lemma_forms_push(before, new_form);
                    assert(alts[j as int] == substituted(form@, i as int, len as int, self@.succ[j as int]));
                    assert(alts.take(j + 1) =~= alts.take(j as int).push(alts[j as int]));
                    assert(forms_view(result@) =~= forms_view(old(result)@) + alts.take(j + 1));
                }
                j = j + 1;
            }
            proof {
                assert(alts.take(alts.len() as int) =~= alts);
            }
        } else {
            proof {
                assert(forms_view(result@) =~= forms_view(old(result)@) + Seq::<Seq<SymbolView>>::empty());
            }
        }
    }

    /// The forms one step of the rule makes from `form`.
    fn apply(&self, form: &SententialForm) -> (r: Vec<SententialForm>)
        ensures
            forms_view(r@) == rule_apply(self@, form@),
    {
        let mut result: Vec<SententialForm> = Vec::new();
        let len = self.ante.len();
        proof {
            assert(forms_view(result@) =~= Seq::<Seq<SymbolView>>::empty());
        }
        if len <= form.len() {
            let offset = form.len() - len;
            let mut i: usize = 0;
            while i < offset
                invariant
                    len == self@.ante.len(),
                    offset + len == form@.len(),
                    i <= offset,
                    forms_view(result@) == rule_upto(self@, form@, i as int),
                decreases offset - i,
            {
                self.apply_at(form, i, &mut result);
                i = i + 1;
            }
            self.apply_at(form, offset, &mut result);
        }
        result
    }
}

impl Grammar {
    /// The forms one step of the rules makes from `form`, rule after rule.
    fn apply(&self, form: &SententialForm) -> (r: Vec<SententialForm>)
        ensures
            forms_view(r@) == grammar_apply(self@, form@),
    {
        let mut result: Vec<SententialForm> = Vec::new();
        let mut i: usize = 0;
        proof {
            assert(self@.take(0) =~= Seq::<RuleView>::empty());
            assert(forms_view(result@) =~= Seq::<Seq<SymbolView>>::empty());
        }
        while i < self.rule_vec.len()
            invariant
                i <= self.rule_vec@.len(),
                forms_view(result@) == grammar_apply(self@.take(i as int), form@),
            decreases self.rule_vec@.len() - i,
        {
            let mut form_vec = self.rule_vec[i].apply(form);
            let ghost before = result@;
            let ghost more = form_vec@;
            result.append(&mut form_vec);
            proof {
                lemma_forms_cat(before, more);
                assert(self@.take(i + 1).drop_last() =~= self@.take(i as int));
                assert(self@.take(i + 1).last() == self.rule_vec@[i as int]@);
            }
            i = i + 1;
        }
        proof {
            assert(self@.take(self@.len() as int) =~= self@);
        }
        result
    }
}

/// Whether each form of the list comes from the one before it by one step
/// of the rules.
pub open spec fn derivation(rules: Seq<RuleView>, path: Seq<Seq<SymbolView>>) -> bool {
    forall|i: int| 0 <= i < path.len() - 1 ==> grammar_apply(rules, #[trigger] path[i]).contains(path[i + 1])
}

/// Whether `b` comes from `a` by steps of the rules.
pub open spec fn derives(rules: Seq<RuleView>, a: Seq<SymbolView>, b: Seq<SymbolView>) -> bool {
    exists|path: Seq<Seq<SymbolView>>|
        path.len() > 0 && path[0] == a && path.last() == b && #[trigger] derivation(rules, path)
}

/// The form a generation from the variable `start` begins with.
pub open spec fn start_form(start: Seq<char>) -> Seq<SymbolView> {
    seq![SymbolView::Var(start)]
}

/// A form that one step of the rules makes from a form that comes from `a`
/// comes from `a` too.
pub proof fn lemma_derives_step(rules: Seq<RuleView>, a: Seq<SymbolView>, f: Seq<SymbolView>, b: Seq<SymbolView>)
    requires
        derives(rules, a, f),
        grammar_apply(rules, f).contains(b),
    ensures
        derives(rules, a, b),
{
    let path = choose|path: Seq<Seq<SymbolView>>|
        path.len() > 0 && path[0] == a && path.last() == f && #[trigger] derivation(rules, path);
    let longer = path.push(b);
    assert forall|i: int| 0 <= i < longer.len() - 1 implies grammar_apply(rules, #[trigger] longer[i]).contains(longer[i + 1]) by {
        if i < path.len() - 1 {
            assert(longer[i] == path[i]);
            assert(longer[i + 1] == path[i + 1]);
        } else {
            assert(longer[i] == f);
            assert(longer[i + 1] == b);
        }
    }
    assert(derivation(rules, longer));
    assert(longer[0] == a);
}

/// What one step of a generation gives.
pub enum StepResult {
    /// The form taken was a sentence: its text.
    Sentence(String),
    /// The form taken still had variables; the forms one step of the rules
    /// makes from it wait in the queue.
    NonSentence,
    /// No form was left.
    Finished,
}

/// The sentences of a grammar, found breadth first from a start variable.
pub struct Generation {
    grammar: Grammar,
    sentential_form_queue: VecDeque<SententialForm>,
    start: Ghost<Seq<char>>,
}

/// The rules of a generation, the forms waiting, first to be taken first,
/// and the variable it started from.
pub struct GenerationView {
    pub rules: Seq<RuleView>,
    pub queue: Seq<Seq<SymbolView>>,
    pub start: Seq<char>,
}

impl View for Generation {
    type V = GenerationView;

    closed spec fn view(&self) -> GenerationView {
        GenerationView {
            rules: self.grammar@,
            queue: forms_view(self.sentential_form_queue@),
            start: self.start@,
        }
    }
}

/// Whether every form waiting comes from the start variable by steps of the
/// rules.
pub open spec fn generation_wf(g: GenerationView) -> bool {
    forall|i: int| 0 <= i < g.queue.len() ==> derives(g.rules, start_form(g.start), #[trigger] g.queue[i])
}

impl Generation {
    /// Whether every form waiting comes from the start variable.
    pub open spec fn wf(&self) -> bool {
        generation_wf(self@)
    }

    /// A generation with the rules of `grammar` that begins with the
    /// variable `start`.
    pub fn new(grammar: Grammar, start: &str) -> (g: Generation)
        ensures
            g@.rules == grammar@,
            g@.queue == seq![start_form(start@)],
            g@.start == start@,
            g.wf(),
    {
        let mut sentential_form_queue: VecDeque<SententialForm> = VecDeque::new();
        let mut first: Vec<Token> = Vec::new();
        first.push(Token::new_var(start));
        let form = SententialForm::new(&first);
        sentential_form_queue.push_back(form);
        let g = Generation { grammar, sentential_form_queue, start: Ghost(start@) };
        proof {
            assert(symbols_view(first@) =~= start_form(start@));
            assert(forms_view(g.sentential_form_queue@) =~= seq![start_form(start@)]);
            let path = seq![start_form(start@)];
            assert(derivation(g@.rules, path));
            assert(path[0] == start_form(start@) && path.last() == start_form(start@));
        }
        g
    }

    /// Whether no form is left.
    pub fn finished_p(&self) -> (r: bool)
        ensures
            r == (self@.queue.len() == 0),
    {
        proof {
            assert(self@.queue.len() == self.sentential_form_queue@.len());
        }
        self.sentential_form_queue.len() == 0
    }

    /// Takes the first form waiting: a sentence is given out as text;
    /// otherwise the forms one step of the rules makes from it wait at the
    /// end of the queue.  Every sentence given out comes from the start
    /// variable by steps of the rules.
    pub fn step(&mut self) -> (r: StepResult)
        requires
            old(self).wf(),
        ensures
            final(self).wf(),
            final(self)@.rules == old(self)@.rules,
            final(self)@.start == old(self)@.start,
            old(self)@.queue.len() == 0 ==> r is Finished && final(self)@.queue == old(self)@.queue,
            old(self)@.queue.len() > 0 ==> if all_chars(old(self)@.queue[0]) {
                &&& r matches StepResult::Sentence(s) && s@ == form_text(old(self)@.queue[0])
                &&& final(self)@.queue == old(self)@.queue.drop_first()
            } else {
                &&& r is NonSentence
                &&& final(self)@.queue == old(self)@.queue.drop_first() + grammar_apply(old(self)@.rules, old(self)@.queue[0])
            },
            r matches StepResult::Sentence(s) ==> exists|f: Seq<SymbolView>|
                derives(old(self)@.rules, start_form(old(self)@.start), f) && all_chars(f) && #[trigger] form_text(f) == s@,
    {
        let ghost old_queue = self@.queue;
        let ghost rules = self@.rules;
        let ghost start = self@.start;
        let first = self.sentential_form_queue.pop_front();
        match first {
            Some(form) => {
                proof {
                    assert(old_queue[0] == form@);
                    assert(forms_view(self.sentential_form_queue@) =~= old_queue.drop_first());
                    assert(derives(rules, start_form(start), old_queue[0]));
                }
                if form.str_p() {
                    let ghost f = form@;
                    let sentence = form.into_string();
                    proof {
                        assert(form_text(f) == sentence@);
                    }
                    StepResult::Sentence(sentence)
                } else {
                    let new_forms = self.grammar.apply(&form);
                    let ghost made = forms_view(new_forms@);
                    let mut k: usize = 0;
                    while k < new_forms.len()
                        invariant
                            k <= new_forms@.len(),
                            made == forms_view(new_forms@),
                            made == grammar_apply(rules, old_queue[0]),
                            self@.rules == rules,
                            self@.start == start,
                            self@.queue == old_queue.drop_first() + made.take(k as int),
                        decreases new_forms@.len() - k,
                    {
                        let copy = SententialForm::new(&new_forms[k].symbol_vec);
                        let ghost before = self.sentential_form_queue@;
                        self.sentential_form_queue.push_back(copy);
                        proof {
                            lemma_forms_push(before, copy);
                            assert(made[k as int] == new_forms@[k as int]@);
                            assert(made.take(k + 1) =~= made.take(k as int).push(made[k as int]));
                            assert(self@.queue =~= old_queue.drop_first() + made.take(k + 1));
                        }
                        k = k + 1;
                    }
                    proof {
                        assert(made.take(made.len() as int) =~= made);
                        assert forall|i: int| 0 <= i < self@.queue.len() implies
                            derives(rules, start_form(start), #[trigger] self@.queue[i]) by {
                            if i < old_queue.len() - 1 {
                                assert(self@.queue[i] == old_queue[i + 1]);
                            } else {
                                let j = i - (old_queue.len() - 1);
                                assert(self@.queue[i] == made[j]);
                                assert(made.contains(made[j]));
                                lemma_derives_step(rules, start_form(start), old_queue[0], made[j]);
                            }
                        }
                    }
                    StepResult::NonSentence
                }
            },
            None => {
                proof {
                    assert(forms_view(self.sentential_form_queue@) =~= old_queue);
                }
                StepResult::Finished
            },
        }
    }
}

/// Looking for the next sentence among the forms `q`, breadth first, with
/// `b` steps left: with no form or no step left, none; a first form that
/// is a sentence is the one; else the forms one step of the rules makes
/// from it go after the others and the search goes on.  `q2` is the queue
/// left at the end.
pub open spec fn sentence_search(rules: Seq<RuleView>, q: Seq<Seq<SymbolView>>, b: nat, q2: Seq<Seq<SymbolView>>,
    r: Option<Seq<char>>) -> bool
    decreases b,
{
    if q.len() == 0 || b == 0 {
        r is None && q2 == q
    } else if all_chars(q[0]) {
        r == Some(form_text(q[0])) && q2 == q.drop_first()
    } else {
        sentence_search(rules, q.drop_first() + grammar_apply(rules, q[0]), (b - 1) as nat, q2, r)
    }
}

/// The text of a sentence found, if any.
pub open spec fn opt_text(r: Option<String>) -> Option<Seq<char>> {
    match r {
        Some(s) => Some(s@),
        None => None,
    }
}

impl Generation {
    /// The next sentence within `budget` steps (see `sentence_search`):
    /// `None` where no form is left or the steps run out.
    pub fn next_sentence_within(&mut self, budget: usize) -> (r: Option<String>)
        requires
            old(self).wf(),
        ensures
            final(self).wf(),
            final(self)@.rules == old(self)@.rules,
            final(self)@.start == old(self)@.start,
            sentence_search(old(self)@.rules, old(self)@.queue, budget as nat, final(self)@.queue, opt_text(r)),
    {
        let ghost rules = self@.rules;
        let ghost q0 = self@.queue;
        let mut b: usize = budget;
        loop
            invariant
                self.wf(),
                self@.rules == rules,
                rules == old(self)@.rules,
                self@.start == old(self)@.start,
                q0 == old(self)@.queue,
                b <= budget,
                forall|q2: Seq<Seq<SymbolView>>, r2: Option<Seq<char>>| #[trigger] sentence_search(rules, self@.queue, b as nat, q2, r2)
                    ==> sentence_search(rules, q0, budget as nat, q2, r2),
            decreases b,
        {
            let ghost cur = self@.queue;
            let ghost cb = b as nat;
            if b == 0 {
                proof {
                    assert(sentence_search(rules, cur, cb, cur, None));
                }
                return None;
            }
            b = b - 1;
            match self.step() {
                StepResult::Sentence(s) => {
                    let r = Some(s);
                    proof {
                        assert(sentence_search(rules, cur, cb, self@.queue, opt_text(r)));
                    }
                    return r;
                },
                StepResult::NonSentence => {
                    proof {
                        assert forall|q2: Seq<Seq<SymbolView>>, r2: Option<Seq<char>>|
                            #[trigger] sentence_search(rules, self@.queue, b as nat, q2, r2)
                            implies sentence_search(rules, q0, budget as nat, q2, r2) by {
                            assert(sentence_search(rules, cur, cb, q2, r2));
                        }
                    }
                },
                StepResult::Finished => {
                    proof {
                        assert(sentence_search(rules, cur, cb, cur, None));
                    }
                    return None;
                },
            }
        }
    }

    /// The next sentence, breadth first, within `usize::MAX` steps: `None`
    /// where no form is left.
    pub fn next_sentence(&mut self) -> (r: Option<String>)
        requires
            old(self).wf(),
        ensures
            final(self).wf(),
            final(self)@.rules == old(self)@.rules,
            final(self)@.start == old(self)@.start,
            sentence_search(old(self)@.rules, old(self)@.queue, usize::MAX as nat, final(self)@.queue, opt_text(r)),
    {
        self.next_sentence_within(usize::MAX)
    }
}

} // verus!
