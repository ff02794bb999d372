//! The syntax of the cicada language: terms, bindings, objects and the
//! definitions of a module, read from M-expressions.

use vstd::prelude::*;
use crate::error_report::{Span, ErrorMsg, ErrorMsgView, ErrorInCtx, ErrorInCtxView, strings_view};
use crate::mexp::{Mexp, MexpArg, MexpView, ArgView, mexp_view, mexps_view, mexp_text, mexp_view_span,
    lemma_mexps_view_len, lemma_mexps_view_index};
use crate::serde_text::{is_digit, digits_value, digit_value};
use crate::text::{chars_of, string_from, push_str, str_eq};
use crate::cicada_value::{Var, VarView, Subst, BindView};
use crate::cicada_module::{Module, SearchRes, QueryRes, StepRes, QedView, StepView, DeductionView, qeds_view,
    opt_step_view, deductions_view, search_res_text, query_res_text, step_res_text};

verus! {

/// A term: a variable, a constructor or a proposition applied to an
/// argument, a reference to a field, or the type of types.
#[derive(Debug, PartialEq, Eq)]
pub enum Term {
    Var(Span, String),
    Cons(Span, String, Arg),
    Prop(Span, String, Arg),
    FieldRef(Span, String),
    TypeOfType(Span),
}

/// The argument of a constructor or a proposition: terms by position, or
/// bindings by field name.
#[derive(Debug, PartialEq, Eq)]
pub enum Arg {
    Vec(Vec<Term>),
    Rec(Vec<Binding>),
}

/// A binding of a field: equal to a term, or inhabiting a term.
#[derive(Debug, PartialEq, Eq)]
pub enum Binding {
    EqualTo(String, Term),
    Inhabit(String, Term),
}

/// An object that a module names: a disjunction of propositions with its
/// bindings, a conjunction of bindings, an imported module, or what a
/// search, a query or a run of steps found.
#[derive(Debug, PartialEq, Eq)]
pub enum Obj {
    Disj(Vec<String>, Vec<Binding>),
    Conj(Vec<Binding>),
    Module(Module),
    SearchRes(SearchRes),
    QueryRes(QueryRes),
    StepRes(StepRes),
}

/// A definition of a module.
#[derive(Debug, PartialEq, Eq)]
pub enum Def {
    Obj(String, Obj),
    Import(String, String),
    Search(String, usize, Term),
    NamelessSearch(usize, Term),
    Query(String, usize, Term),
    NamelessQuery(usize, Term),
    Assert(Term),
    AssertNot(Term),
    Note,
    Step(usize, Term),
}

/// What a term is, its names as characters.
pub enum TermView {
    Var(Span, Seq<char>),
    Cons(Span, Seq<char>, ArgsView),
    Prop(Span, Seq<char>, ArgsView),
    FieldRef(Span, Seq<char>),
    TypeOfType(Span),
}

/// What an argument is.
pub enum ArgsView {
    Vec(Seq<TermView>),
    Rec(Seq<BindingView>),
}

/// What a binding is.
pub enum BindingView {
    EqualTo(Seq<char>, TermView),
    Inhabit(Seq<char>, TermView),
}

/// What an object is.
pub enum ObjView {
    Disj(Seq<Seq<char>>, Seq<BindingView>),
    Conj(Seq<BindingView>),
    Module(Seq<(Seq<char>, Option<ObjView>)>),
    SearchRes(Seq<QedView>),
    QueryRes(Seq<VarView>, Seq<Seq<BindView>>),
    StepRes(Option<StepView>, Seq<DeductionView>),
}

/// What a definition is.
pub enum DefView {
    Obj(Seq<char>, ObjView),
    Import(Seq<char>, Seq<char>),
    Search(Seq<char>, usize, TermView),
    NamelessSearch(usize, TermView),
    Query(Seq<char>, usize, TermView),
    NamelessQuery(usize, TermView),
    Assert(TermView),
    AssertNot(TermView),
    Note,
    Step(usize, TermView),
}

/// The view of a term.
pub open spec fn term_view(t: Term) -> TermView
    decreases t, 3nat,
{
    match t {
        Term::Var(span, name) => TermView::Var(span, name@),
        Term::Cons(span, name, arg) => TermView::Cons(span, name@, args_view(arg)),
        Term::Prop(span, name, arg) => TermView::Prop(span, name@, args_view(arg)),
        Term::FieldRef(span, name) => TermView::FieldRef(span, name@),
        Term::TypeOfType(span) => TermView::TypeOfType(span),
    }
}

/// The view of an argument.
pub open spec fn args_view(a: Arg) -> ArgsView
    decreases a, 2nat,
{
    match a {
        Arg::Vec(ts) => ArgsView::Vec(terms_view(ts@)),
        Arg::Rec(bs) => ArgsView::Rec(bindings_view(bs@)),
    }
}

/// The view of a binding.
pub open spec fn binding_view(b: Binding) -> BindingView
    decreases b, 2nat,
{
    match b {
        Binding::EqualTo(name, t) => BindingView::EqualTo(name@, term_view(t)),
        Binding::Inhabit(name, t) => BindingView::Inhabit(name@, term_view(t)),
    }
}

/// The views of terms.
pub open spec fn terms_view(ts: Seq<Term>) -> Seq<TermView>
    decreases ts, 1nat,
{
    if ts.len() == 0 {
        Seq::empty()
    } else {
        terms_view(ts.drop_last()).push(term_view(ts.last()))
    }
}

/// The views of bindings.
pub open spec fn bindings_view(bs: Seq<Binding>) -> Seq<BindingView>
    decreases bs, 1nat,
{
    if bs.len() == 0 {
        Seq::empty()
    } else {
        bindings_view(bs.drop_last()).push(binding_view(bs.last()))
    }
}

/// The texts of strings.
pub open spec fn names_view(v: Seq<String>) -> Seq<Seq<char>> {
    v.map_values(|s: String| s@)
}

/// The view of an object.
pub open spec fn obj_view(o: Obj) -> ObjView
    decreases o, 2nat,
{
    match o {
        Obj::Disj(names, bs) => ObjView::Disj(names_view(names@), bindings_view(bs@)),
        Obj::Conj(bs) => ObjView::Conj(bindings_view(bs@)),
        Obj::Module(m) => ObjView::Module(obj_entries_view(m.obj_dic.entries@)),
        Obj::SearchRes(r) => ObjView::SearchRes(qeds_view(r.qed_vec@)),
        Obj::QueryRes(r) => ObjView::QueryRes(r.var_vec@.map_values(|x: Var| x@), r.subst_vec@.map_values(|s: Subst| s@)),
        Obj::StepRes(r) => ObjView::StepRes(opt_step_view(r.step), deductions_view(r.deduction_queue@)),
    }
}

/// The views of the entries of a dictionary of objects.
pub open spec fn obj_entries_view(es: Seq<(String, Option<Obj>)>) -> Seq<(Seq<char>, Option<ObjView>)>
    decreases es, 1nat,
{
    if es.len() == 0 {
        Seq::empty()
    } else {
        obj_entries_view(es.drop_last()).push((es.last().0@, match es.last().1 {
            Some(o) => Some(obj_view(o)),
            None => None,
        }))
    }
}

/// The view of a definition.
pub open spec fn def_view(d: Def) -> DefView {
    match d {
        Def::Obj(name, o) => DefView::Obj(name@, obj_view(o)),
        Def::Import(name, url) => DefView::Import(name@, url@),
        Def::Search(name, n, t) => DefView::Search(name@, n, term_view(t)),
        Def::NamelessSearch(n, t) => DefView::NamelessSearch(n, term_view(t)),
        Def::Query(name, n, t) => DefView::Query(name@, n, term_view(t)),
        Def::NamelessQuery(n, t) => DefView::NamelessQuery(n, term_view(t)),
        Def::Assert(t) => DefView::Assert(term_view(t)),
        Def::AssertNot(t) => DefView::AssertNot(term_view(t)),
        Def::Note => DefView::Note,
        Def::Step(n, t) => DefView::Step(n, term_view(t)),
    }
}

/// The views of definitions.
pub open spec fn defs_view(ds: Seq<Def>) -> Seq<DefView> {
    ds.map_values(|d: Def| def_view(d))
}

impl View for Term {
    type V = TermView;

    open spec fn view(&self) -> TermView {
        term_view(*self)
    }
}

impl View for Def {
    type V = DefView;

    open spec fn view(&self) -> DefView {
        def_view(*self)
    }
}

proof fn lemma_terms_view_push(ts: Seq<Term>, t: Term)
    ensures
        terms_view(ts.push(t)) == terms_view(ts).push(term_view(t)),
{
    assert(ts.push(t).drop_last() =~= ts);
}

proof fn lemma_bindings_view_push(bs: Seq<Binding>, b: Binding)
    ensures
        bindings_view(bs.push(b)) == bindings_view(bs).push(binding_view(b)),
{
    assert(bs.push(b).drop_last() =~= bs);
}

/// A copy of a term.
pub fn copy_term(t: &Term) -> (r: Term)
    ensures
        term_view(r) == term_view(*t),
    decreases t, 3nat,
{
    match t {
        Term::Var(span, name) => Term::Var(*span, copy_text(name)),
        Term::Cons(span, name, arg) => Term::Cons(*span, copy_text(name), copy_arg(arg)),
        Term::Prop(span, name, arg) => Term::Prop(*span, copy_text(name), copy_arg(arg)),
        Term::FieldRef(span, name) => Term::FieldRef(*span, copy_text(name)),
        Term::TypeOfType(span) => Term::TypeOfType(*span),
    }
}

fn copy_text(s: &String) -> (r: String)
    ensures
        r@ == s@,
{
    string_from(s.as_str())
}

/// A copy of an argument.
pub fn copy_arg(a: &Arg) -> (r: Arg)
    ensures
        args_view(r) == args_view(*a),
    decreases a, 2nat,
{
    match a {
        Arg::Vec(ts) => Arg::Vec(copy_terms(ts)),
        Arg::Rec(bs) => Arg::Rec(copy_bindings(bs)),
    }
}

/// A copy of a binding.
pub fn copy_binding(b: &Binding) -> (r: Binding)
    ensures
        binding_view(r) == binding_view(*b),
    decreases b, 2nat,
{
    match b {
        Binding::EqualTo(name, t) => Binding::EqualTo(copy_text(name), copy_term(t)),
        Binding::Inhabit(name, t) => Binding::Inhabit(copy_text(name), copy_term(t)),
    }
}

fn copy_terms(ts: &Vec<Term>) -> (r: Vec<Term>)
    ensures
        terms_view(r@) == terms_view(ts@),
    decreases ts, 1nat,
{
    let mut out: Vec<Term> = Vec::new();
    let mut i: usize = 0;
    proof {
        assert(ts@.take(0) =~= Seq::<Term>::empty());
        assert(out@ =~= Seq::<Term>::empty());
    }
    while i < ts.len()
        invariant
            i <= ts@.len(),
            terms_view(out@) == terms_view(ts@.take(i as int)),
        decreases ts@.len() - i,
    {
        assert(decreases_to!(ts => ts@[i as int]));
        let t = copy_term(&ts[i]);
        let ghost before = out@;
        out.push(t);
        proof {
            lemma_terms_view_push(before, t);
            lemma_terms_view_push(ts@.take(i as int), ts@[i as int]);
            assert(ts@.take(i + 1) =~= ts@.take(i as int).push(ts@[i as int]));
        }
        i = i + 1;
    }
    proof {
        assert(ts@.take(ts@.len() as int) =~= ts@);
    }
    out
}

pub fn copy_bindings(bs: &Vec<Binding>) -> (r: Vec<Binding>)
    ensures
        bindings_view(r@) == bindings_view(bs@),
    decreases bs, 1nat,
{
    let mut out: Vec<Binding> = Vec::new();
    let mut i: usize = 0;
    proof {
        assert(bs@.take(0) =~= Seq::<Binding>::empty());
        assert(out@ =~= Seq::<Binding>::empty());
    }
    while i < bs.len()
        invariant
            i <= bs@.len(),
            bindings_view(out@) == bindings_view(bs@.take(i as int)),
        decreases bs@.len() - i,
    {
        assert(decreases_to!(bs => bs@[i as int]));
        let b = copy_binding(&bs[i]);
        let ghost before = out@;
        out.push(b);
        proof {
            lemma_bindings_view_push(before, b);
            lemma_bindings_view_push(bs@.take(i as int), bs@[i as int]);
            assert(bs@.take(i + 1) =~= bs@.take(i as int).push(bs@[i as int]));
        }
        i = i + 1;
    }
    proof {
        assert(bs@.take(bs@.len() as int) =~= bs@);
    }
    out
}

/// Whether a symbol names a variable: it starts with `:`.
pub open spec fn var_symbol(s: Seq<char>) -> bool {
    s.len() > 0 && s[0] == ':'
}

/// Whether a symbol ends with `-` and then `c`.
pub open spec fn ends_with_dash(s: Seq<char>, c: char) -> bool {
    s.len() >= 2 && s[s.len() - 2] == '-' && s[s.len() - 1] == c
}

/// Whether a symbol names a constructor: no variable, ending with `-c`.
pub open spec fn cons_name_symbol(s: Seq<char>) -> bool {
    !var_symbol(s) && ends_with_dash(s, 'c')
}

/// Whether a symbol names a proposition: no variable, ending with `-t`.
pub open spec fn prop_name_symbol(s: Seq<char>) -> bool {
    !var_symbol(s) && ends_with_dash(s, 't')
}

/// Whether a symbol is `type`.
pub open spec fn type_of_type_symbol(s: Seq<char>) -> bool {
    s == seq!['t', 'y', 'p', 'e']
}

/// Whether a symbol names a field: none of the other kinds.
pub open spec fn field_name_symbol(s: Seq<char>) -> bool {
    !var_symbol(s) && !cons_name_symbol(s) && !prop_name_symbol(s) && !type_of_type_symbol(s)
}

/// Whether `symbol` names a variable.
pub fn var_symbol_p(symbol: &str) -> (r: bool)
    ensures
        r == var_symbol(symbol@),
{
    let cs = chars_of(symbol);
    cs.len() > 0 && cs[0] == ':'
}

pub(crate) fn ends_with_dash_p(symbol: &str, c: char) -> (r: bool)
    ensures
        r == ends_with_dash(symbol@, c),
{
    let cs = chars_of(symbol);
    let n = cs.len();
    n >= 2 && cs[n - 2] == '-' && cs[n - 1] == c
}

/// Whether `symbol` names a constructor.
pub fn cons_name_symbol_p(symbol: &str) -> (r: bool)
    ensures
        r == cons_name_symbol(symbol@),
{
    !var_symbol_p(symbol) && ends_with_dash_p(symbol, 'c')
}

/// Whether `symbol` names a proposition.
pub fn prop_name_symbol_p(symbol: &str) -> (r: bool)
    ensures
        r == prop_name_symbol(symbol@),
{
    !var_symbol_p(symbol) && ends_with_dash_p(symbol, 't')
}

/// Whether `symbol` is `type`.
pub fn type_of_type_symbol_p(symbol: &str) -> (r: bool)
    ensures
        r == type_of_type_symbol(symbol@),
{
    proof {
        reveal_strlit("type");
        assert("type"@ =~= seq!['t', 'y', 'p', 'e']);
    }
    str_eq(symbol, "type")
}

/// Whether `symbol` names a field.
pub fn field_name_symbol_p(symbol: &str) -> (r: bool)
    ensures
        r == field_name_symbol(symbol@),
{
    !var_symbol_p(symbol) && !cons_name_symbol_p(symbol) && !prop_name_symbol_p(symbol) && !type_of_type_symbol_p(symbol)
}

/// Whether every character of `s` is a decimal digit.
pub open spec fn all_digits(s: Seq<char>) -> bool {
    forall|i: int| 0 <= i < s.len() ==> #[trigger] is_digit(s[i])
}

/// The number a text stands for as a `usize`: an optional `+`, then one
/// or more decimal digits whose value is at most `usize::MAX`.
pub open spec fn usize_text(s: Seq<char>) -> Option<usize> {
    let d = if s.len() > 0 && s[0] == '+' { s.drop_first() } else { s };
    if d.len() > 0 && all_digits(d) && digits_value(d) <= usize::MAX {
        Some(digits_value(d) as usize)
    } else {
        None
    }
}

proof fn lemma_digits_value_grows(d: Seq<char>, j: int, k: int)
    requires
        0 <= j <= k <= d.len(),
    ensures
        digits_value(d.take(j)) <= digits_value(d.take(k)),
    decreases k - j,
{
    if j < k {
        lemma_digits_value_grows(d, j, k - 1);
        assert(d.take(k).drop_last() =~= d.take(k - 1));
    }
}

/// Reads a `usize` from its decimal text, as `str::parse::<usize>` does.
pub fn parse_usize(s: &str) -> (r: Option<usize>)
    ensures
        r == usize_text(s@),
{
    let cs = chars_of(s);
    let start: usize = if cs.len() > 0 && cs[0] == '+' { 1 } else { 0 };
    let ghost d = if s@.len() > 0 && s@[0] == '+' { s@.drop_first() } else { s@ };
    if start >= cs.len() {
        return None;
    }
    let mut v: u128 = 0;
    let mut i: usize = start;
    proof {
        assert(d =~= cs@.subrange(start as int, cs@.len() as int));
        assert(d.take(0) =~= Seq::<char>::empty());
    }
    while i < cs.len()
        invariant
            start <= i <= cs@.len(),
            d == cs@.subrange(start as int, cs@.len() as int),
            d == (if s@.len() > 0 && s@[0] == '+' { s@.drop_first() } else { s@ }),
            d.len() > 0,
            forall|j: int| 0 <= j < i - start ==> #[trigger] is_digit(d[j]),
            v == digits_value(d.take(i - start)),
            v <= usize::MAX,
        decreases cs@.len() - i,
    {
        let c = cs[i];
        if !('0' <= c && c <= '9') {
            assert(d[i - start] == c);
            assert(!is_digit(d[i - start]));
            assert(!all_digits(d));
            return None;
        }
        let w: u128 = v * 10 + ((c as u32 - '0' as u32) as u128);
        proof {
            assert(d.take(i - start + 1).drop_last() =~= d.take(i - start));
            assert(d[i - start] == c);
            assert(d.take(i - start + 1).last() == c);
            assert(w == digits_value(d.take(i - start + 1)));
        }
        if w > usize::MAX as u128 {
            proof {
                lemma_digits_value_grows(d, i - start + 1, d.len() as int);
                assert(d.take(d.len() as int) =~= d);
                assert(digits_value(d) > usize::MAX);
            }
            return None;
        }
        v = w;
        i = i + 1;
    }
    proof {
        assert(d.take(d.len() as int) =~= d);
    }
    Some(v as usize)
}

/// The grammar that syntax errors point to.
pub const GRAMMAR: &'static str = r#"
Def::Obj = { name? "=" Obj }
Def::Import = { name? "=" "import!" '(' url? ')' }
Def::Search = { name? "=" "search!" '(' nat-num? ')' Term::Prop }
Def::NamelessSearch = { "search!" '(' nat-num? ')' Term::Prop }
Def::Query = { name? "=" "query!" '(' nat-num? ')' Term::Prop }
Def::NamelessQuery = { "query!" '(' nat-num? ')' Term::Prop }
Def::Assert = { "assert!" Term::Prop }
Def::AssertNot = { "assert-not!" Term::Prop }
Def::Note = { "note!" '{' list (mexp) '}' }
Def::Step = { "step!" (nat-num?) Term::Prop }
Def::StepBetween = { "step-between!" (nat-num? nat-num?) Term::Prop }

Obj::Disj = { "disj" '(' list (prop-name?) ')' Arg::Rec }
Obj::Conj = { "conj" Arg::Rec }
[planned] Obj::Module = { "module" '{' list (Def) '}' }

Term::Var = { var-name? }
Term::Cons = { cons-name? Arg }
Term::Prop = { prop-name? Arg }

Arg::Vec = { '(' list (Term) ')' }
Arg::Rec = { '{' list (Binding) '}' }

Binding::Term = { field-name? "=" Term }
"#;

/// The note about the grammar that syntax errors carry.
pub open spec fn grammar_note() -> ErrorMsgView {
    ErrorMsgView { head: Some("grammar :"@), lines: seq![GRAMMAR@] }
}

/// An error with the given head and lines, located at `span`, with the
/// note about the grammar where `noted`.
pub open spec fn err(head: Option<Seq<char>>, lines: Seq<Seq<char>>, span: Span, noted: bool) -> ErrorInCtxView {
    ErrorInCtxView {
        msg: ErrorMsgView { head, lines },
        infos: Seq::empty(),
        notes: if noted { seq![grammar_note()] } else { Seq::empty() },
        span: Some(span),
    }
}

/// The plain syntax error at `span`.
pub open spec fn syntax_err(span: Span) -> ErrorInCtxView {
    err(Some("syntex error"@), Seq::empty(), span, true)
}

/// A term read from a variable symbol.
pub open spec fn var_term_of(m: MexpView) -> Result<TermView, ErrorInCtxView> {
    match m {
        MexpView::Sym { span, symbol } => if var_symbol(symbol) {
            Ok(TermView::Var(span, symbol))
        } else {
            Err(err(Some("syntex error"@), seq!["expecting var symbol"@, "symbol = "@ + symbol], span, true))
        },
        _ => Err(syntax_err(mexp_view_span(m))),
    }
}

/// A term read from a field name.
pub open spec fn field_ref_term_of(m: MexpView) -> Result<TermView, ErrorInCtxView> {
    match m {
        MexpView::Sym { span, symbol } => if field_name_symbol(symbol) {
            Ok(TermView::FieldRef(span, symbol))
        } else {
            Err(err(Some("syntex error"@), seq!["expecting field name symbol"@, "symbol = "@ + symbol], span, true))
        },
        _ => Err(syntax_err(mexp_view_span(m))),
    }
}

/// A term read from `type`.
pub open spec fn type_of_type_term_of(m: MexpView) -> Result<TermView, ErrorInCtxView> {
    match m {
        MexpView::Sym { span, symbol } => if type_of_type_symbol(symbol) {
            Ok(TermView::TypeOfType(span))
        } else {
            Err(err(Some("syntex error"@), seq!["expecting type-of-type symbol"@, "symbol = "@ + symbol], span, true))
        },
        _ => Err(syntax_err(mexp_view_span(m))),
    }
}

/// Whether a symbol names a proposition, where `is_prop`, else a
/// constructor.
pub open spec fn named_symbol(s: Seq<char>, is_prop: bool) -> bool {
    if is_prop { prop_name_symbol(s) } else { cons_name_symbol(s) }
}

/// A proposition term, where `is_prop`, else a constructor term.
pub open spec fn named_term(span: Span, name: Seq<char>, a: ArgsView, is_prop: bool) -> TermView {
    if is_prop { TermView::Prop(span, name, a) } else { TermView::Cons(span, name, a) }
}

/// The error on a symbol that names no proposition, where `is_prop`, or
/// no constructor.
pub open spec fn named_err(symbol: Seq<char>, is_prop: bool, span: Span) -> ErrorInCtxView {
    err(
        None,
        seq![
            if is_prop { "expecting prop name symbol"@ } else { "expecting cons name symbol"@ },
            if is_prop { "which must end with `-t`"@ } else { "which must end with `-c`"@ },
            "symbol = "@ + symbol,
        ],
        span,
        true,
    )
}

/// A term read from a constructor name, applied or alone; `is_prop`
/// reads a proposition name in its place.
pub open spec fn named_term_of(m: MexpView, is_prop: bool) -> Result<TermView, ErrorInCtxView>
    decreases m, 2nat,
{
    match m {
        MexpView::Apply { span, head, arg } => match *head {
            MexpView::Sym { symbol, .. } => if named_symbol(symbol, is_prop) {
                match args_of(arg) {
                    Ok(a) => Ok(named_term(span, symbol, a, is_prop)),
                    Err(e) => Err(e),
                }
            } else {
                Err(named_err(symbol, is_prop, span))
            },
            _ => Err(syntax_err(span)),
        },
        MexpView::Sym { span, symbol } => if named_symbol(symbol, is_prop) {
            Ok(named_term(span, symbol, ArgsView::Rec(Seq::empty()), is_prop))
        } else {
            Err(named_err(symbol, is_prop, span))
        },
        _ => Err(syntax_err(mexp_view_span(m))),
    }
}

/// A term read from an expression: the first of a variable, a
/// constructor, a proposition, a field reference and `type` that reads,
/// else the error of the last.
pub open spec fn term_of(m: MexpView) -> Result<TermView, ErrorInCtxView>
    decreases m, 3nat,
{
    let r1 = var_term_of(m);
    if r1 is Ok {
        r1
    } else {
        let r2 = named_term_of(m, false);
        if r2 is Ok {
            r2
        } else {
            let r3 = named_term_of(m, true);
            if r3 is Ok {
                r3
            } else {
                let r4 = field_ref_term_of(m);
                if r4 is Ok {
                    r4
                } else {
                    type_of_type_term_of(m)
                }
            }
        }
    }
}

/// An argument read from a tuple of terms or a block of bindings.
pub open spec fn args_of(a: ArgView) -> Result<ArgsView, ErrorInCtxView>
    decreases a, 1nat,
{
    match a {
        ArgView::Tuple { body, .. } => match terms_of(body) {
            Ok(ts) => Ok(ArgsView::Vec(ts)),
            Err(e) => Err(e),
        },
        ArgView::Block { body, .. } => match bindings_of(body) {
            Ok(bs) => Ok(ArgsView::Rec(bs)),
            Err(e) => Err(e),
        },
    }
}

/// Terms read one by one, up to the first error.
pub open spec fn terms_of(ms: Seq<MexpView>) -> Result<Seq<TermView>, ErrorInCtxView>
    decreases ms, 0nat,
{
    if ms.len() == 0 {
        Ok(Seq::empty())
    } else {
        match terms_of(ms.drop_last()) {
            Err(e) => Err(e),
            Ok(ts) => match term_of(ms.last()) {
                Ok(t) => Ok(ts.push(t)),
                Err(e) => Err(e),
            },
        }
    }
}

/// A field name read from a symbol.
pub open spec fn field_name_of(m: MexpView) -> Result<Seq<char>, ErrorInCtxView> {
    match m {
        MexpView::Sym { span, symbol } => if field_name_symbol(symbol) {
            Ok(symbol)
        } else {
            Err(err(None, seq!["expecting field name symbol"@, "symbol = "@ + symbol], span, true))
        },
        _ => Err(err(None, seq!["expecting prop name"@, "mexp = "@ + mexp_text(m)], mexp_view_span(m), false)),
    }
}

/// A proposition name read from a symbol.
pub open spec fn prop_name_of(m: MexpView) -> Result<Seq<char>, ErrorInCtxView> {
    match m {
        MexpView::Sym { span, symbol } => if prop_name_symbol(symbol) {
            Ok(symbol)
        } else {
            Err(err(None, seq!["expecting prop name"@, "which must end with `-t`"@, "symbol = "@ + symbol], span, true))
        },
        _ => Err(err(None, seq!["expecting prop name"@, "mexp = "@ + mexp_text(m)], mexp_view_span(m), false)),
    }
}

/// A binding read from `name = term` or `name : term`.
pub open spec fn binding_of(m: MexpView) -> Result<BindingView, ErrorInCtxView>
    decreases m, 2nat,
{
    match m {
        MexpView::Infix { span, op, lhs, rhs } => if op == "="@ || op == ":"@ {
            match field_name_of(*lhs) {
                Err(e) => Err(e),
                Ok(name) => match term_of(*rhs) {
                    Err(e) => Err(e),
                    Ok(t) => Ok(if op == "="@ { BindingView::EqualTo(name, t) } else { BindingView::Inhabit(name, t) }),
                },
            }
        } else {
            Err(err(None, seq!["expecting binding infix op"@, "which might be `=` or `:`"@, "op = "@ + op], span, true))
        },
        _ => Err(syntax_err(mexp_view_span(m))),
    }
}

/// Bindings read one by one, up to the first error.
pub open spec fn bindings_of(ms: Seq<MexpView>) -> Result<Seq<BindingView>, ErrorInCtxView>
    decreases ms, 0nat,
{
    if ms.len() == 0 {
        Ok(Seq::empty())
    } else {
        match bindings_of(ms.drop_last()) {
            Err(e) => Err(e),
            Ok(bs) => match binding_of(ms.last()) {
                Ok(b) => Ok(bs.push(b)),
                Err(e) => Err(e),
            },
        }
    }
}

/// Proposition names read one by one, up to the first error.
pub open spec fn prop_names_of(ms: Seq<MexpView>) -> Result<Seq<Seq<char>>, ErrorInCtxView>
    decreases ms.len(),
{
    if ms.len() == 0 {
        Ok(Seq::empty())
    } else {
        match prop_names_of(ms.drop_last()) {
            Err(e) => Err(e),
            Ok(ns) => match prop_name_of(ms.last()) {
                Ok(n) => Ok(ns.push(n)),
                Err(e) => Err(e),
            },
        }
    }
}

/// The view of a term read, or of its error.
pub open spec fn term_result(r: Result<Term, ErrorInCtx>) -> Result<TermView, ErrorInCtxView> {
    match r {
        Ok(t) => Ok(term_view(t)),
        Err(e) => Err(e@),
    }
}

/// The view of an argument read, or of its error.
pub open spec fn args_result(r: Result<Arg, ErrorInCtx>) -> Result<ArgsView, ErrorInCtxView> {
    match r {
        Ok(a) => Ok(args_view(a)),
        Err(e) => Err(e@),
    }
}

/// The view of terms read, or of their error.
pub open spec fn terms_result(r: Result<Vec<Term>, ErrorInCtx>) -> Result<Seq<TermView>, ErrorInCtxView> {
    match r {
        Ok(ts) => Ok(terms_view(ts@)),
        Err(e) => Err(e@),
    }
}

/// The view of a binding read, or of its error.
pub open spec fn binding_result(r: Result<Binding, ErrorInCtx>) -> Result<BindingView, ErrorInCtxView> {
    match r {
        Ok(b) => Ok(binding_view(b)),
        Err(e) => Err(e@),
    }
}

/// The view of bindings read, or of their error.
pub open spec fn bindings_result(r: Result<Vec<Binding>, ErrorInCtx>) -> Result<Seq<BindingView>, ErrorInCtxView> {
    match r {
        Ok(bs) => Ok(bindings_view(bs@)),
        Err(e) => Err(e@),
    }
}

/// The view of a name read, or of its error.
pub open spec fn name_result(r: Result<String, ErrorInCtx>) -> Result<Seq<char>, ErrorInCtxView> {
    match r {
        Ok(n) => Ok(n@),
        Err(e) => Err(e@),
    }
}

/// The view of names read, or of their error.
pub open spec fn names_result(r: Result<Vec<String>, ErrorInCtx>) -> Result<Seq<Seq<char>>, ErrorInCtxView> {
    match r {
        Ok(ns) => Ok(names_view(ns@)),
        Err(e) => Err(e@),
    }
}

/// The message that notes the grammar.
fn note_about_grammar() -> (m: ErrorMsg)
    ensures
        m@ == grammar_note(),
{
    let m = ErrorMsg::new().head("grammar :").line(GRAMMAR);
    proof {
        assert(m@.lines =~= seq![GRAMMAR@]);
    }
    m
}

/// An error with `head`, `lines` and `span`, with `note` as its one note
/// where there is one.
pub(crate) fn build_err(head: Option<&str>, lines: Vec<String>, span: Span, note: Option<ErrorMsg>) -> (e: ErrorInCtx)
    ensures
        e@ == (ErrorInCtxView {
            msg: ErrorMsgView { head: crate::error_report::option_str_view(head), lines: strings_view(lines@) },
            infos: Seq::empty(),
            notes: match note {
                Some(m) => seq![m@],
                None => Seq::empty(),
            },
            span: Some(span),
        }),
{
    let mut e = ErrorInCtx::new();
    match head {
        Some(h) => {
            e = e.head(h);
        },
        None => {},
    }
    let mut i: usize = 0;
    proof {
        assert(strings_view(lines@.take(0)) =~= Seq::<Seq<char>>::empty());
    }
    while i < lines.len()
        invariant
            i <= lines@.len(),
            e@.msg.head == crate::error_report::option_str_view(head),
            e@.msg.lines == strings_view(lines@.take(i as int)),
            e@.infos == Seq::<crate::error_report::ErrorMsgView>::empty(),
            e@.notes == Seq::<crate::error_report::ErrorMsgView>::empty(),
            e@.span == None::<Span>,
        decreases lines@.len() - i,
    {
        e = e.line(lines[i].as_str());
        proof {
            assert(strings_view(lines@.take(i + 1)) =~= strings_view(lines@.take(i as int)).push(lines@[i as int]@));
        }
        i = i + 1;
    }
    proof {
        assert(lines@.take(lines@.len() as int) =~= lines@);
    }
    e = e.span(span);
    match note {
        Some(m) => {
            let ghost mv = m@;
            e = e.note(m);
            proof {
                assert(e@.notes =~= seq![mv]);
            }
        },
        None => {},
    }
    proof {
        assert(e@.msg == ErrorMsgView { head: crate::error_report::option_str_view(head), lines: strings_view(lines@) });
    }
    e
}

/// An error with `head`, `lines` and `span`, noting the grammar where
/// `noted`.
fn make_err(head: Option<&str>, lines: Vec<String>, span: Span, noted: bool) -> (e: ErrorInCtx)
    ensures
        e@ == err(crate::error_report::option_str_view(head), strings_view(lines@), span, noted),
{
    let note = if noted { Some(note_about_grammar()) } else { None };
    build_err(head, lines, span, note)
}

/// The plain syntax error at `span`.
fn syntax_error_at(span: Span) -> (e: ErrorInCtx)
    ensures
        e@ == syntax_err(span),
{
    let v: Vec<String> = Vec::new();
    proof {
        assert(strings_view(v@) =~= Seq::<Seq<char>>::empty());
    }
    make_err(Some("syntex error"), v, span, true)
}

/// `label` followed by `x`.
pub(crate) fn labeled(label: &str, x: &str) -> (s: String)
    ensures
        s@ == label@ + x@,
{
    let mut s = string_from(label);
    push_str(&mut s, x);
    s
}

pub(crate) fn lines1(a: String) -> (v: Vec<String>)
    ensures
        strings_view(v@) == seq![a@],
{
    let mut v = Vec::new();
    v.push(a);
    proof {
        assert(strings_view(v@) =~= seq![a@]);
    }
    v
}

pub(crate) fn lines2(a: String, b: String) -> (v: Vec<String>)
    ensures
        strings_view(v@) == seq![a@, b@],
{
    let mut v = Vec::new();
    v.push(a);
    v.push(b);
    proof {
        assert(strings_view(v@) =~= seq![a@, b@]);
    }
    v
}

pub(crate) fn lines3(a: String, b: String, c: String) -> (v: Vec<String>)
    ensures
        strings_view(v@) == seq![a@, b@, c@],
{
    let mut v = Vec::new();
    v.push(a);
    v.push(b);
    v.push(c);
    proof {
        assert(strings_view(v@) =~= seq![a@, b@, c@]);
    }
    v
}

/// Reads a variable term from a symbol that starts with `:`.
pub fn mexp_to_var_term<'a>(mexp: &Mexp<'a>) -> (r: Result<Term, ErrorInCtx>)
    ensures
        term_result(r) == var_term_of(mexp@),
{
    match mexp {
        Mexp::Sym { span, symbol } => {
            if var_symbol_p(symbol) {
                Ok(Term::Var(*span, string_from(symbol)))
            } else {
                make_err(
                    Some("syntex error"),
                    lines2(string_from("expecting var symbol"), labeled("symbol = ", symbol)),
                    *span,
                    true,
                ).wrap_in_err()
            }
        },
        _ => syntax_error_at(mexp.span()).wrap_in_err(),
    }
}

/// Reads a field reference from a field name.
pub fn mexp_to_field_ref_term<'a>(mexp: &Mexp<'a>) -> (r: Result<Term, ErrorInCtx>)
    ensures
        term_result(r) == field_ref_term_of(mexp@),
{
    match mexp {
        Mexp::Sym { span, symbol } => {
            if field_name_symbol_p(symbol) {
                Ok(Term::FieldRef(*span, string_from(symbol)))
            } else {
                make_err(
                    Some("syntex error"),
                    lines2(string_from("expecting field name symbol"), labeled("symbol = ", symbol)),
                    *span,
                    true,
                ).wrap_in_err()
            }
        },
        _ => syntax_error_at(mexp.span()).wrap_in_err(),
    }
}

/// Reads the type of types from `type`.
pub fn mexp_to_type_of_type_term<'a>(mexp: &Mexp<'a>) -> (r: Result<Term, ErrorInCtx>)
    ensures
        term_result(r) == type_of_type_term_of(mexp@),
{
    match mexp {
        Mexp::Sym { span, symbol } => {
            if type_of_type_symbol_p(symbol) {
                Ok(Term::TypeOfType(*span))
            } else {
                make_err(
                    Some("syntex error"),
                    lines2(string_from("expecting type-of-type symbol"), labeled("symbol = ", symbol)),
                    *span,
                    true,
                ).wrap_in_err()
            }
        },
        _ => syntax_error_at(mexp.span()).wrap_in_err(),
    }
}

fn named_error(symbol: &str, is_prop: bool, span: Span) -> (e: ErrorInCtx)
    ensures
        e@ == named_err(symbol@, is_prop, span),
{
    let (expecting, ending) = if is_prop {
        (string_from("expecting prop name symbol"), string_from("which must end with `-t`"))
    } else {
        (string_from("expecting cons name symbol"), string_from("which must end with `-c`"))
    };
    make_err(None, lines3(expecting, ending, labeled("symbol = ", symbol)), span, true)
}

fn mexp_to_named_term<'a>(mexp: &Mexp<'a>, is_prop: bool) -> (r: Result<Term, ErrorInCtx>)
    ensures
        term_result(r) == named_term_of(mexp@, is_prop),
    decreases mexp, 2nat,
{
    match mexp {
        Mexp::Apply { span, head, arg } => {
            match &**head {
                Mexp::Sym { symbol, .. } => {
                    let good = if is_prop { prop_name_symbol_p(symbol) } else { cons_name_symbol_p(symbol) };
                    proof {
                        assert(head@ matches MexpView::Sym { symbol: s, .. } && s == symbol@);
                        assert(mexp@ matches MexpView::Apply { head: h, arg: a, span: sp } && *h == head@ && a == arg@ && sp == *span);
                    }
                    if good {
                        match mexp_arg_to_arg(arg) {
                            Ok(a) => {
                                if is_prop {
                                    Ok(Term::Prop(*span, string_from(symbol), a))
                                } else {
                                    Ok(Term::Cons(*span, string_from(symbol), a))
                                }
                            },
                            Err(e) => Err(e),
                        }
                    } else {
                        named_error(symbol, is_prop, *span).wrap_in_err()
                    }
                },
                _ => syntax_error_at(*span).wrap_in_err(),
            }
        },
        Mexp::Sym { span, symbol } => {
            let good = if is_prop { prop_name_symbol_p(symbol) } else { cons_name_symbol_p(symbol) };
            if good {
                let a = Arg::Rec(Vec::new());
                proof {
                    assert(bindings_view(Seq::<Binding>::empty()) =~= Seq::<BindingView>::empty());
                }
                if is_prop {
                    Ok(Term::Prop(*span, string_from(symbol), a))
                } else {
                    Ok(Term::Cons(*span, string_from(symbol), a))
                }
            } else {
                named_error(symbol, is_prop, *span).wrap_in_err()
            }
        },
        _ => syntax_error_at(mexp.span()).wrap_in_err(),
    }
}

/// Reads a constructor term: a name ending with `-c`, applied to an
/// argument or alone.
pub fn mexp_to_cons_term<'a>(mexp: &Mexp<'a>) -> (r: Result<Term, ErrorInCtx>)
    ensures
        term_result(r) == named_term_of(mexp@, false),
{
    mexp_to_named_term(mexp, false)
}

/// Reads a proposition term: a name ending with `-t`, applied to an
/// argument or alone.
pub fn mexp_to_prop_term<'a>(mexp: &Mexp<'a>) -> (r: Result<Term, ErrorInCtx>)
    ensures
        term_result(r) == named_term_of(mexp@, true),
{
    mexp_to_named_term(mexp, true)
}

/// Reads a term: the first of a variable, a constructor, a proposition,
/// a field reference and `type` that reads.
pub fn mexp_to_term<'a>(mexp: &Mexp<'a>) -> (r: Result<Term, ErrorInCtx>)
    ensures
        term_result(r) == term_of(mexp@),
    decreases mexp, 3nat,
{
    let r1 = mexp_to_var_term(mexp);
    if r1.is_ok() {
        return r1;
    }
    let r2 = mexp_to_named_term(mexp, false);
    if r2.is_ok() {
        return r2;
    }
    let r3 = mexp_to_named_term(mexp, true);
    if r3.is_ok() {
        return r3;
    }
    let r4 = mexp_to_field_ref_term(mexp);
    if r4.is_ok() {
        return r4;
    }
    mexp_to_type_of_type_term(mexp)
}

/// Reads an argument: terms from a tuple, bindings from a block.
pub fn mexp_arg_to_arg<'a>(mexp_arg: &MexpArg<'a>) -> (r: Result<Arg, ErrorInCtx>)
    ensures
        args_result(r) == args_of(mexp_arg@),
    decreases mexp_arg, 1nat,
{
    match mexp_arg {
        MexpArg::Tuple { body, .. } => match mexp_vec_to_term_vec(body) {
            Ok(ts) => Ok(Arg::Vec(ts)),
            Err(e) => Err(e),
        },
        MexpArg::Block { body, .. } => match mexp_vec_to_binding_vec(body) {
            Ok(bs) => Ok(Arg::Rec(bs)),
            Err(e) => Err(e),
        },
    }
}

proof fn lemma_terms_of_stays_err(ms: Seq<MexpView>, j: int, k: int)
    requires
        0 <= j <= k <= ms.len(),
        terms_of(ms.take(j)) is Err,
    ensures
        terms_of(ms.take(k)) == terms_of(ms.take(j)),
    decreases k - j,
{
    if j < k {
        lemma_terms_of_stays_err(ms, j, k - 1);
        assert(ms.take(k).drop_last() =~= ms.take(k - 1));
    }
}

/// Reads terms one by one, up to the first error.
pub fn mexp_vec_to_term_vec<'a>(mexp_vec: &Vec<Mexp<'a>>) -> (r: Result<Vec<Term>, ErrorInCtx>)
    ensures
        terms_result(r) == terms_of(mexps_view(mexp_vec@)),
    decreases mexp_vec, 0nat,
{
    let ghost ms = mexps_view(mexp_vec@);
    proof {
        lemma_mexps_view_len(mexp_vec@);
        assert(ms.take(0) =~= Seq::<MexpView>::empty());
        assert(terms_view(Seq::<Term>::empty()) =~= Seq::<TermView>::empty());
    }
    let mut vec: Vec<Term> = Vec::new();
    let mut i: usize = 0;
    while i < mexp_vec.len()
        invariant
            i <= mexp_vec@.len(),
            ms == mexps_view(mexp_vec@),
            ms.len() == mexp_vec@.len(),
            terms_of(ms.take(i as int)) == Ok::<Seq<TermView>, ErrorInCtxView>(terms_view(vec@)),
        decreases mexp_vec@.len() - i,
    {
        assert(decreases_to!(mexp_vec => mexp_vec@[i as int]));
        let r = mexp_to_term(&mexp_vec[i]);
        proof {
            lemma_mexps_view_index(mexp_vec@, i as int);
            assert(ms.take(i + 1).drop_last() =~= ms.take(i as int));
            assert(ms.take(i + 1).last() == mexp_view(mexp_vec@[i as int]));
        }
        match r {
            Ok(t) => {
                proof {
                    lemma_terms_view_push(vec@, t);
                }
                vec.push(t);
            },
            Err(e) => {
                proof {
                    lemma_terms_of_stays_err(ms, i + 1, ms.len() as int);
                    assert(ms.take(ms.len() as int) =~= ms);
                }
                return Err(e);
            },
        }
        i = i + 1;
    }
    proof {
        assert(ms.take(ms.len() as int) =~= ms);
    }
    Ok(vec)
}

/// Reads a field name.
pub fn mexp_to_field_name<'a>(mexp: &Mexp<'a>) -> (r: Result<String, ErrorInCtx>)
    ensures
        name_result(r) == field_name_of(mexp@),
{
    match mexp {
        Mexp::Sym { span, symbol } => {
            if field_name_symbol_p(symbol) {
                Ok(string_from(symbol))
            } else {
                make_err(
                    None,
                    lines2(string_from("expecting field name symbol"), labeled("symbol = ", symbol)),
                    *span,
                    true,
                ).wrap_in_err()
            }
        },
        _ => {
            let text = mexp.to_string();
            make_err(None, lines2(string_from("expecting prop name"), labeled("mexp = ", text.as_str())), mexp.span(), false).wrap_in_err()
        },
    }
}

/// Reads a proposition name: a symbol ending with `-t`.
pub fn mexp_to_prop_name<'a>(mexp: &Mexp<'a>) -> (r: Result<String, ErrorInCtx>)
    ensures
        name_result(r) == prop_name_of(mexp@),
{
    match mexp {
        Mexp::Sym { span, symbol } => {
            if prop_name_symbol_p(symbol) {
                Ok(string_from(symbol))
            } else {
                make_err(
                    None,
                    lines3(
                        string_from("expecting prop name"),
                        string_from("which must end with `-t`"),
                        labeled("symbol = ", symbol),
                    ),
                    *span,
                    true,
                ).wrap_in_err()
            }
        },
        _ => {
            let text = mexp.to_string();
            make_err(None, lines2(string_from("expecting prop name"), labeled("mexp = ", text.as_str())), mexp.span(), false).wrap_in_err()
        },
    }
}

/// Reads a binding: `name = term` or `name : term`.
pub fn mexp_to_binding<'a>(mexp: &Mexp<'a>) -> (r: Result<Binding, ErrorInCtx>)
    ensures
        binding_result(r) == binding_of(mexp@),
    decreases mexp, 2nat,
{
    match mexp {
        Mexp::Infix { span, op, lhs, rhs } => {
            let equal = str_eq(op, "=");
            if equal || str_eq(op, ":") {
                let name = match mexp_to_field_name(lhs) {
                    Ok(name) => name,
                    Err(e) => {
                        return Err(e);
                    },
                };
                let term = match mexp_to_term(rhs) {
                    Ok(term) => term,
                    Err(e) => {
                        return Err(e);
                    },
                };
                if equal {
                    Ok(Binding::EqualTo(name, term))
                } else {
                    Ok(Binding::Inhabit(name, term))
                }
            } else {
                make_err(
                    None,
                    lines3(
                        string_from("expecting binding infix op"),
                        string_from("which might be `=` or `:`"),
                        labeled("op = ", op),
                    ),
                    *span,
                    true,
                ).wrap_in_err()
            }
        },
        _ => syntax_error_at(mexp.span()).wrap_in_err(),
    }
}

proof fn lemma_bindings_of_stays_err(ms: Seq<MexpView>, j: int, k: int)
    requires
        0 <= j <= k <= ms.len(),
        bindings_of(ms.take(j)) is Err,
    ensures
        bindings_of(ms.take(k)) == bindings_of(ms.take(j)),
    decreases k - j,
{
    if j < k {
        lemma_bindings_of_stays_err(ms, j, k - 1);
        assert(ms.take(k).drop_last() =~= ms.take(k - 1));
    }
}

/// Reads bindings one by one, up to the first error.
pub fn mexp_vec_to_binding_vec<'a>(mexp_vec: &Vec<Mexp<'a>>) -> (r: Result<Vec<Binding>, ErrorInCtx>)
    ensures
        bindings_result(r) == bindings_of(mexps_view(mexp_vec@)),
    decreases mexp_vec, 0nat,
{
    let ghost ms = mexps_view(mexp_vec@);
    proof {
        lemma_mexps_view_len(mexp_vec@);
        assert(ms.take(0) =~= Seq::<MexpView>::empty());
        assert(bindings_view(Seq::<Binding>::empty()) =~= Seq::<BindingView>::empty());
    }
    let mut vec: Vec<Binding> = Vec::new();
    let mut i: usize = 0;
    while i < mexp_vec.len()
        invariant
            i <= mexp_vec@.len(),
            ms == mexps_view(mexp_vec@),
            ms.len() == mexp_vec@.len(),
            bindings_of(ms.take(i as int)) == Ok::<Seq<BindingView>, ErrorInCtxView>(bindings_view(vec@)),
        decreases mexp_vec@.len() - i,
    {
        assert(decreases_to!(mexp_vec => mexp_vec@[i as int]));
        let r = mexp_to_binding(&mexp_vec[i]);
        proof {
            lemma_mexps_view_index(mexp_vec@, i as int);
            assert(ms.take(i + 1).drop_last() =~= ms.take(i as int));
            assert(ms.take(i + 1).last() == mexp_view(mexp_vec@[i as int]));
        }
        match r {
            Ok(b) => {
                proof {
                    lemma_bindings_view_push(vec@, b);
                }
                vec.push(b);
            },
            Err(e) => {
                proof {
                    lemma_bindings_of_stays_err(ms, i + 1, ms.len() as int);
                    assert(ms.take(ms.len() as int) =~= ms);
                }
                return Err(e);
            },
        }
        i = i + 1;
    }
    proof {
        assert(ms.take(ms.len() as int) =~= ms);
    }
    Ok(vec)
}

proof fn lemma_prop_names_of_stays_err(ms: Seq<MexpView>, j: int, k: int)
    requires
        0 <= j <= k <= ms.len(),
        prop_names_of(ms.take(j)) is Err,
    ensures
        prop_names_of(ms.take(k)) == prop_names_of(ms.take(j)),
    decreases k - j,
{
    if j < k {
        lemma_prop_names_of_stays_err(ms, j, k - 1);
        assert(ms.take(k).drop_last() =~= ms.take(k - 1));
    }
}

/// Reads proposition names one by one, up to the first error.
pub fn mexp_vec_to_prop_name_vec<'a>(mexp_vec: &Vec<Mexp<'a>>) -> (r: Result<Vec<String>, ErrorInCtx>)
    ensures
        names_result(r) == prop_names_of(mexps_view(mexp_vec@)),
{
    let ghost ms = mexps_view(mexp_vec@);
    proof {
        lemma_mexps_view_len(mexp_vec@);
        assert(ms.take(0) =~= Seq::<MexpView>::empty());
        assert(names_view(Seq::<String>::empty()) =~= Seq::<Seq<char>>::empty());
    }
    let mut vec: Vec<String> = Vec::new();
    let mut i: usize = 0;
    while i < mexp_vec.len()
        invariant
            i <= mexp_vec@.len(),
            ms == mexps_view(mexp_vec@),
            ms.len() == mexp_vec@.len(),
            prop_names_of(ms.take(i as int)) == Ok::<Seq<Seq<char>>, ErrorInCtxView>(names_view(vec@)),
        decreases mexp_vec@.len() - i,
    {
        let r = mexp_to_prop_name(&mexp_vec[i]);
        proof {
            lemma_mexps_view_index(mexp_vec@, i as int);
            assert(ms.take(i + 1).drop_last() =~= ms.take(i as int));
            assert(ms.take(i + 1).last() == mexp_view(mexp_vec@[i as int]));
        }
        match r {
            Ok(n) => {
                let ghost before = vec@;
                vec.push(n);
                proof {
                    assert(names_view(vec@) =~= names_view(before).push(n@));
                }
            },
            Err(e) => {
                proof {
                    lemma_prop_names_of_stays_err(ms, i + 1, ms.len() as int);
                    assert(ms.take(ms.len() as int) =~= ms);
                }
                return Err(e);
            },
        }
        i = i + 1;
    }
    proof {
        assert(ms.take(ms.len() as int) =~= ms);
    }
    Ok(vec)
}

/// `a`, where it reads, else `b`.
pub open spec fn or_else<T>(a: Result<T, ErrorInCtxView>, b: Result<T, ErrorInCtxView>) -> Result<T, ErrorInCtxView> {
    if a is Ok { a } else { b }
}

/// The body of `kw (..)`, where the expression is that.
pub open spec fn tuple_apply(m: MexpView, kw: Seq<char>) -> Option<Seq<MexpView>> {
    match m {
        MexpView::Apply { head, arg, .. } => match (*head, arg) {
            (MexpView::Sym { symbol, .. }, ArgView::Tuple { body, .. }) => if symbol == kw { Some(body) } else { None },
            _ => None,
        },
        _ => None,
    }
}

/// The body of `kw { .. }`, where the expression is that.
pub open spec fn block_apply(m: MexpView, kw: Seq<char>) -> Option<Seq<MexpView>> {
    match m {
        MexpView::Apply { head, arg, .. } => match (*head, arg) {
            (MexpView::Sym { symbol, .. }, ArgView::Block { body, .. }) => if symbol == kw { Some(body) } else { None },
            _ => None,
        },
        _ => None,
    }
}

/// The two bodies of `kw (..) { .. }`, where the expression is that.
pub open spec fn counted_shape(m: MexpView, kw: Seq<char>) -> Option<(Seq<MexpView>, Seq<MexpView>)> {
    match m {
        MexpView::Apply { head, arg, .. } => match (tuple_apply(*head, kw), arg) {
            (Some(body1), ArgView::Block { body, .. }) => Some((body1, body)),
            _ => None,
        },
        _ => None,
    }
}

/// The name and the right side of `name = ..`, where the expression is
/// that.
pub open spec fn named_def_shape(m: MexpView) -> Option<(Seq<char>, MexpView)> {
    match m {
        MexpView::Infix { op, lhs, rhs, .. } => if op == "="@ {
            match *lhs {
                MexpView::Sym { symbol, .. } => Some((symbol, *rhs)),
                _ => None,
            }
        } else {
            None
        },
        _ => None,
    }
}

/// A disjunction read from `disj (names) { bindings }`.
pub open spec fn disj_obj_of(m: MexpView) -> Result<ObjView, ErrorInCtxView> {
    match counted_shape(m, "disj"@) {
        Some((body1, body2)) => match prop_names_of(body1) {
            Err(e) => Err(e),
            Ok(ns) => match bindings_of(body2) {
                Ok(bs) => Ok(ObjView::Disj(ns, bs)),
                Err(e) => Err(e),
            },
        },
        None => Err(syntax_err(mexp_view_span(m))),
    }
}

/// A conjunction read from `conj { bindings }`.
pub open spec fn conj_obj_of(m: MexpView) -> Result<ObjView, ErrorInCtxView> {
    match block_apply(m, "conj"@) {
        Some(body) => match bindings_of(body) {
            Ok(bs) => Ok(ObjView::Conj(bs)),
            Err(e) => Err(e),
        },
        None => Err(syntax_err(mexp_view_span(m))),
    }
}

/// An object read from a disjunction, else from a conjunction.
pub open spec fn prop_obj_of(m: MexpView) -> Result<ObjView, ErrorInCtxView> {
    or_else(disj_obj_of(m), conj_obj_of(m))
}

/// A definition read from `prop-name-t = object`.
pub open spec fn obj_def_of(m: MexpView) -> Result<DefView, ErrorInCtxView> {
    match named_def_shape(m) {
        Some((name, rhs)) => if prop_name_symbol(name) {
            match prop_obj_of(rhs) {
                Ok(o) => Ok(DefView::Obj(name, o)),
                Err(e) => Err(e),
            }
        } else {
            Err(err(Some("mexp_to_obj_def"@), seq!["symbol = "@ + name], mexp_view_span(m), true))
        },
        None => Err(syntax_err(mexp_view_span(m))),
    }
}

/// A definition read from `name = import! ("url")`.
pub open spec fn import_def_of(m: MexpView) -> Result<DefView, ErrorInCtxView> {
    match named_def_shape(m) {
        Some((name, rhs)) => match tuple_apply(rhs, "import!"@) {
            Some(body) => if body.len() == 1 && body[0] is Str {
                Ok(DefView::Import(name, body[0]->Str_string))
            } else {
                Err(err(None, seq!["fail to parse `import!`'s arg"@], mexp_view_span(m), true))
            },
            None => Err(syntax_err(mexp_view_span(m))),
        },
        None => Err(syntax_err(mexp_view_span(m))),
    }
}

/// The count and the proposition of `kw (count) { prop }`, the errors
/// located at `span`.
pub open spec fn counted_of(span: Span, kw: Seq<char>, body1: Seq<MexpView>, body2: Seq<MexpView>)
    -> Result<(usize, TermView), ErrorInCtxView>
{
    if body1.len() == 1 && body1[0] is Sym {
        let symbol = body1[0]->Sym_symbol;
        match usize_text(symbol) {
            None => Err(err(None, seq!["fail to parse usize num in `"@ + kw + "`"@, "symbol = "@ + symbol], span, true)),
            Some(n) => if body2.len() == 1 {
                match named_term_of(body2[0], true) {
                    Ok(t) => Ok((n, t)),
                    Err(e) => Err(e),
                }
            } else {
                Err(err(None, seq!["fail to parse `"@ + kw + "`'s body arg"@], span, true))
            },
        }
    } else {
        Err(err(None, seq!["fail to parse `"@ + kw + "`'s first arg"@], span, true))
    }
}

/// A definition read from `name = kw (count) { prop }`: a query where
/// `is_query`, else a search.
pub open spec fn named_counted_def_of(m: MexpView, kw: Seq<char>, is_query: bool) -> Result<DefView, ErrorInCtxView> {
    match named_def_shape(m) {
        Some((name, rhs)) => match counted_shape(rhs, kw) {
            Some((body1, body2)) => match counted_of(mexp_view_span(m), kw, body1, body2) {
                Ok((n, t)) => Ok(if is_query { DefView::Query(name, n, t) } else { DefView::Search(name, n, t) }),
                Err(e) => Err(e),
            },
            None => Err(syntax_err(mexp_view_span(m))),
        },
        None => Err(syntax_err(mexp_view_span(m))),
    }
}

/// What a nameless counted definition is made of: `search!`, `query!`
/// or `step!`.
pub enum CountedKind {
    Search,
    Query,
    Step,
}

/// A nameless definition read from `kw (count) { prop }`.
pub open spec fn nameless_counted_def_of(m: MexpView, kw: Seq<char>, kind: CountedKind) -> Result<DefView, ErrorInCtxView> {
    match counted_shape(m, kw) {
        Some((body1, body2)) => match counted_of(mexp_view_span(m), kw, body1, body2) {
            Ok((n, t)) => Ok(match kind {
                CountedKind::Search => DefView::NamelessSearch(n, t),
                CountedKind::Query => DefView::NamelessQuery(n, t),
                CountedKind::Step => DefView::Step(n, t),
            }),
            Err(e) => Err(e),
        },
        None => Err(syntax_err(mexp_view_span(m))),
    }
}

/// A definition read from `kw { prop }`: an assertion, or where `negated`
/// an assertion that nothing proves the proposition.
pub open spec fn assert_def_of(m: MexpView, negated: bool) -> Result<DefView, ErrorInCtxView> {
    match block_apply(m, if negated { "assert-not!"@ } else { "assert!"@ }) {
        Some(body) => if body.len() == 1 {
            match named_term_of(body[0], true) {
                Ok(t) => Ok(if negated { DefView::AssertNot(t) } else { DefView::Assert(t) }),
                Err(e) => Err(e),
            }
        } else {
            Err(err(None, seq!["fail to parse `assert!`'s body arg"@], mexp_view_span(m), true))
        },
        None => Err(syntax_err(mexp_view_span(m))),
    }
}

/// A definition read from `note { .. }`.
pub open spec fn note_def_of(m: MexpView) -> Result<DefView, ErrorInCtxView> {
    match block_apply(m, "note"@) {
        Some(_) => Ok(DefView::Note),
        None => Err(syntax_err(mexp_view_span(m))),
    }
}

/// A definition read from an expression: the first kind of definition
/// that reads, else the error of the last.
pub open spec fn def_of(m: MexpView) -> Result<DefView, ErrorInCtxView> {
    or_else(obj_def_of(m),
    or_else(import_def_of(m),
    or_else(named_counted_def_of(m, "search!"@, false),
    or_else(nameless_counted_def_of(m, "search!"@, CountedKind::Search),
    or_else(named_counted_def_of(m, "query!"@, true),
    or_else(nameless_counted_def_of(m, "query!"@, CountedKind::Query),
    or_else(assert_def_of(m, false),
    or_else(assert_def_of(m, true),
    or_else(note_def_of(m),
        nameless_counted_def_of(m, "step!"@, CountedKind::Step))))))))))
}

/// Definitions read one by one, up to the first error.
pub open spec fn defs_of(ms: Seq<MexpView>) -> Result<Seq<DefView>, ErrorInCtxView>
    decreases ms.len(),
{
    if ms.len() == 0 {
        Ok(Seq::empty())
    } else {
        match defs_of(ms.drop_last()) {
            Err(e) => Err(e),
            Ok(ds) => match def_of(ms.last()) {
                Ok(d) => Ok(ds.push(d)),
                Err(e) => Err(e),
            },
        }
    }
}

/// The view of a definition read, or of its error.
pub open spec fn def_result(r: Result<Def, ErrorInCtx>) -> Result<DefView, ErrorInCtxView> {
    match r {
        Ok(d) => Ok(def_view(d)),
        Err(e) => Err(e@),
    }
}

/// The view of an object read, or of its error.
pub open spec fn obj_result(r: Result<Obj, ErrorInCtx>) -> Result<ObjView, ErrorInCtxView> {
    match r {
        Ok(o) => Ok(obj_view(o)),
        Err(e) => Err(e@),
    }
}

/// The view of definitions read, or of their error.
pub open spec fn defs_result(r: Result<Vec<Def>, ErrorInCtx>) -> Result<Seq<DefView>, ErrorInCtxView> {
    match r {
        Ok(ds) => Ok(defs_view(ds@)),
        Err(e) => Err(e@),
    }
}

pub(crate) fn tuple_apply_body<'b, 'a>(m: &'b Mexp<'a>, kw: &str) -> (r: Option<&'b Vec<Mexp<'a>>>)
    ensures
        match r {
            Some(body) => tuple_apply(m@, kw@) == Some(mexps_view(body@)),
            None => tuple_apply(m@, kw@) is None,
        },
{
    match m {
        Mexp::Apply { head, arg, .. } => {
            proof {
                assert(m@ matches MexpView::Apply { head: h, arg: a, .. } && *h == head@ && a == arg@);
            }
            match (&**head, arg) {
                (Mexp::Sym { symbol, .. }, MexpArg::Tuple { body, .. }) => {
                    if str_eq(symbol, kw) {
                        Some(body)
                    } else {
                        None
                    }
                },
                _ => None,
            }
        },
        _ => None,
    }
}

pub(crate) fn block_apply_body<'b, 'a>(m: &'b Mexp<'a>, kw: &str) -> (r: Option<&'b Vec<Mexp<'a>>>)
    ensures
        match r {
            Some(body) => block_apply(m@, kw@) == Some(mexps_view(body@)),
            None => block_apply(m@, kw@) is None,
        },
{
    match m {
        Mexp::Apply { head, arg, .. } => {
            proof {
                assert(m@ matches MexpView::Apply { head: h, arg: a, .. } && *h == head@ && a == arg@);
            }
            match (&**head, arg) {
                (Mexp::Sym { symbol, .. }, MexpArg::Block { body, .. }) => {
                    if str_eq(symbol, kw) {
                        Some(body)
                    } else {
                        None
                    }
                },
                _ => None,
            }
        },
        _ => None,
    }
}

pub(crate) fn counted_parts<'b, 'a>(m: &'b Mexp<'a>, kw: &str) -> (r: Option<(&'b Vec<Mexp<'a>>, &'b Vec<Mexp<'a>>)>)
    ensures
        match r {
            Some((body1, body2)) => counted_shape(m@, kw@) == Some((mexps_view(body1@), mexps_view(body2@))),
            None => counted_shape(m@, kw@) is None,
        },
{
    match m {
        Mexp::Apply { head, arg, .. } => {
            proof {
                assert(m@ matches MexpView::Apply { head: h, arg: a, .. } && *h == head@ && a == arg@);
            }
            match (tuple_apply_body(head, kw), arg) {
                (Some(body1), MexpArg::Block { body, .. }) => Some((body1, body)),
                _ => None,
            }
        },
        _ => None,
    }
}

pub(crate) fn named_def_parts<'b, 'a>(m: &'b Mexp<'a>) -> (r: Option<(&'a str, &'b Mexp<'a>)>)
    ensures
        match r {
            Some((name, rhs)) => named_def_shape(m@) == Some((name@, rhs@)),
            None => named_def_shape(m@) is None,
        },
{
    match m {
        Mexp::Infix { op, lhs, rhs, .. } => {
            proof {
                assert(m@ matches MexpView::Infix { op: o, lhs: l, rhs: r, .. } && o == op@ && *l == lhs@ && *r == rhs@);
            }
            if str_eq(op, "=") {
                match &**lhs {
                    Mexp::Sym { symbol, .. } => Some((*symbol, &**rhs)),
                    _ => None,
                }
            } else {
                None
            }
        },
        _ => None,
    }
}

fn disj_parts<'b, 'a>(m: &'b Mexp<'a>) -> (r: Option<(&'b Vec<Mexp<'a>>, &'b Vec<Mexp<'a>>)>)
    ensures
        match r {
            Some((body1, body2)) => counted_shape(m@, "disj"@) == Some((mexps_view(body1@), mexps_view(body2@))),
            None => counted_shape(m@, "disj"@) is None,
        },
{
    counted_parts(m, "disj")
}

/// Reads a disjunction: `disj (names) { bindings }`.
pub fn mexp_to_disj_obj<'a>(mexp: &Mexp<'a>) -> (r: Result<Obj, ErrorInCtx>)
    ensures
        obj_result(r) == disj_obj_of(mexp@),
{
    match disj_parts(mexp) {
        Some((body1, body2)) => {
            let names = match mexp_vec_to_prop_name_vec(body1) {
                Ok(names) => names,
                Err(e) => {
                    return Err(e);
                },
            };
            match mexp_vec_to_binding_vec(body2) {
                Ok(bs) => Ok(Obj::Disj(names, bs)),
                Err(e) => Err(e),
            }
        },
        None => syntax_error_at(mexp.span()).wrap_in_err(),
    }
}

/// Reads a conjunction: `conj { bindings }`.
pub fn mexp_to_conj_obj<'a>(mexp: &Mexp<'a>) -> (r: Result<Obj, ErrorInCtx>)
    ensures
        obj_result(r) == conj_obj_of(mexp@),
{
    match block_apply_body(mexp, "conj") {
        Some(body) => match mexp_vec_to_binding_vec(body) {
            Ok(bs) => Ok(Obj::Conj(bs)),
            Err(e) => Err(e),
        },
        None => syntax_error_at(mexp.span()).wrap_in_err(),
    }
}

/// Reads a disjunction, else a conjunction.
pub fn mexp_to_prop_obj<'a>(mexp: &Mexp<'a>) -> (r: Result<Obj, ErrorInCtx>)
    ensures
        obj_result(r) == prop_obj_of(mexp@),
{
    let r1 = mexp_to_disj_obj(mexp);
    if r1.is_ok() {
        return r1;
    }
    mexp_to_conj_obj(mexp)
}

/// Reads the definition of a proposition: `name-t = object`.
pub fn mexp_to_obj_def<'a>(mexp: &Mexp<'a>) -> (r: Result<Def, ErrorInCtx>)
    ensures
        def_result(r) == obj_def_of(mexp@),
{
    match named_def_parts(mexp) {
        Some((name, rhs)) => {
            if prop_name_symbol_p(name) {
                match mexp_to_prop_obj(rhs) {
                    Ok(o) => Ok(Def::Obj(string_from(name), o)),
                    Err(e) => Err(e),
                }
            } else {
                make_err(Some("mexp_to_obj_def"), lines1(labeled("symbol = ", name)), mexp.span(), true).wrap_in_err()
            }
        },
        None => syntax_error_at(mexp.span()).wrap_in_err(),
    }
}

/// Reads an import: `name = import! ("url")`.
pub fn mexp_to_import_def<'a>(mexp: &Mexp<'a>) -> (r: Result<Def, ErrorInCtx>)
    ensures
        def_result(r) == import_def_of(mexp@),
{
    match named_def_parts(mexp) {
        Some((name, rhs)) => match tuple_apply_body(rhs, "import!") {
            Some(body) => {
                proof {
                    lemma_mexps_view_len(body@);
                    if body@.len() == 1 {
                        lemma_mexps_view_index(body@, 0);
                    }
                }
                if body.len() == 1 {
                    match &body[0] {
                        Mexp::Str { string, .. } => {
                            return Ok(Def::Import(string_from(name), string_from(string)));
                        },
                        _ => {},
                    }
                }
                make_err(None, lines1(string_from("fail to parse `import!`'s arg")), mexp.span(), true).wrap_in_err()
            },
            None => syntax_error_at(mexp.span()).wrap_in_err(),
        },
        None => syntax_error_at(mexp.span()).wrap_in_err(),
    }
}

/// `pre`, then `kw`, then `post`.
fn framed(pre: &str, kw: &str, post: &str) -> (s: String)
    ensures
        s@ == pre@ + kw@ + post@,
{
    let mut s = string_from(pre);
    push_str(&mut s, kw);
    push_str(&mut s, post);
    s
}

/// The view of a count and a proposition read, or of their error.
pub open spec fn counted_result(r: Result<(usize, Term), ErrorInCtx>) -> Result<(usize, TermView), ErrorInCtxView> {
    match r {
        Ok((n, t)) => Ok((n, term_view(t))),
        Err(e) => Err(e@),
    }
}

fn counted_value<'a>(span: Span, kw: &str, body1: &Vec<Mexp<'a>>, body2: &Vec<Mexp<'a>>) -> (r: Result<(usize, Term), ErrorInCtx>)
    ensures
        counted_result(r) == counted_of(span, kw@, mexps_view(body1@), mexps_view(body2@)),
{
    proof {
        lemma_mexps_view_len(body1@);
        lemma_mexps_view_len(body2@);
        if body1@.len() == 1 {
            lemma_mexps_view_index(body1@, 0);
        }
        if body2@.len() == 1 {
            lemma_mexps_view_index(body2@, 0);
        }
    }
    if body1.len() == 1 {
        if let Mexp::Sym { symbol, .. } = &body1[0] {
            match parse_usize(symbol) {
                None => {
                    return make_err(
                        None,
                        lines2(framed("fail to parse usize num in `", kw, "`"), labeled("symbol = ", symbol)),
                        span,
                        true,
                    ).wrap_in_err();
                },
                Some(n) => {
                    if body2.len() == 1 {
                        return match mexp_to_prop_term(&body2[0]) {
                            Ok(t) => Ok((n, t)),
                            Err(e) => Err(e),
                        };
                    } else {
                        return make_err(None, lines1(framed("fail to parse `", kw, "`'s body arg")), span, true).wrap_in_err();
                    }
                },
            }
        }
    }
    make_err(None, lines1(framed("fail to parse `", kw, "`'s first arg")), span, true).wrap_in_err()
}

fn mexp_to_named_counted_def<'a>(mexp: &Mexp<'a>, kw: &str, is_query: bool) -> (r: Result<Def, ErrorInCtx>)
    ensures
        def_result(r) == named_counted_def_of(mexp@, kw@, is_query),
{
    match named_def_parts(mexp) {
        Some((name, rhs)) => match counted_parts(rhs, kw) {
            Some((body1, body2)) => match counted_value(mexp.span(), kw, body1, body2) {
                Ok((n, t)) => {
                    if is_query {
                        Ok(Def::Query(string_from(name), n, t))
                    } else {
                        Ok(Def::Search(string_from(name), n, t))
                    }
                },
                Err(e) => Err(e),
            },
            None => syntax_error_at(mexp.span()).wrap_in_err(),
        },
        None => syntax_error_at(mexp.span()).wrap_in_err(),
    }
}

fn mexp_to_nameless_counted_def<'a>(mexp: &Mexp<'a>, kw: &str, kind: CountedKind) -> (r: Result<Def, ErrorInCtx>)
    ensures
        def_result(r) == nameless_counted_def_of(mexp@, kw@, kind),
{
    match counted_parts(mexp, kw) {
        Some((body1, body2)) => match counted_value(mexp.span(), kw, body1, body2) {
            Ok((n, t)) => Ok(match kind {
                CountedKind::Search => Def::NamelessSearch(n, t),
                CountedKind::Query => Def::NamelessQuery(n, t),
                CountedKind::Step => Def::Step(n, t),
            }),
            Err(e) => Err(e),
        },
        None => syntax_error_at(mexp.span()).wrap_in_err(),
    }
}

/// Reads a named search: `name = search! (count) { prop }`.
pub fn mexp_to_search_def<'a>(mexp: &Mexp<'a>) -> (r: Result<Def, ErrorInCtx>)
    ensures
        def_result(r) == named_counted_def_of(mexp@, "search!"@, false),
{
    mexp_to_named_counted_def(mexp, "search!", false)
}

/// Reads a nameless search: `search! (count) { prop }`.
pub fn mexp_to_nameless_search_def<'a>(mexp: &Mexp<'a>) -> (r: Result<Def, ErrorInCtx>)
    ensures
        def_result(r) == nameless_counted_def_of(mexp@, "search!"@, CountedKind::Search),
{
    mexp_to_nameless_counted_def(mexp, "search!", CountedKind::Search)
}

/// Reads a named query: `name = query! (count) { prop }`.
pub fn mexp_to_query_def<'a>(mexp: &Mexp<'a>) -> (r: Result<Def, ErrorInCtx>)
    ensures
        def_result(r) == named_counted_def_of(mexp@, "query!"@, true),
{
    mexp_to_named_counted_def(mexp, "query!", true)
}

/// Reads a nameless query: `query! (count) { prop }`.
pub fn mexp_to_nameless_query_def<'a>(mexp: &Mexp<'a>) -> (r: Result<Def, ErrorInCtx>)
    ensures
        def_result(r) == nameless_counted_def_of(mexp@, "query!"@, CountedKind::Query),
{
    mexp_to_nameless_counted_def(mexp, "query!", CountedKind::Query)
}

/// Reads a step: `step! (count) { prop }`.
pub fn mexp_to_step_def<'a>(mexp: &Mexp<'a>) -> (r: Result<Def, ErrorInCtx>)
    ensures
        def_result(r) == nameless_counted_def_of(mexp@, "step!"@, CountedKind::Step),
{
    mexp_to_nameless_counted_def(mexp, "step!", CountedKind::Step)
}

fn mexp_to_any_assert_def<'a>(mexp: &Mexp<'a>, negated: bool) -> (r: Result<Def, ErrorInCtx>)
    ensures
        def_result(r) == assert_def_of(mexp@, negated),
{
    let kw = if negated { "assert-not!" } else { "assert!" };
    match block_apply_body(mexp, kw) {
        Some(body) => {
            proof {
                lemma_mexps_view_len(body@);
                if body@.len() == 1 {
                    lemma_mexps_view_index(body@, 0);
                }
            }
            if body.len() == 1 {
                match mexp_to_prop_term(&body[0]) {
                    Ok(t) => {
                        if negated {
                            Ok(Def::AssertNot(t))
                        } else {
                            Ok(Def::Assert(t))
                        }
                    },
                    Err(e) => Err(e),
                }
            } else {
                make_err(None, lines1(string_from("fail to parse `assert!`'s body arg")), mexp.span(), true).wrap_in_err()
            }
        },
        None => syntax_error_at(mexp.span()).wrap_in_err(),
    }
}

/// Reads an assertion: `assert! { prop }`.
pub fn mexp_to_assert_def<'a>(mexp: &Mexp<'a>) -> (r: Result<Def, ErrorInCtx>)
    ensures
        def_result(r) == assert_def_of(mexp@, false),
{
    mexp_to_any_assert_def(mexp, false)
}

/// Reads a negated assertion: `assert-not! { prop }`.
pub fn mexp_to_assert_not_def<'a>(mexp: &Mexp<'a>) -> (r: Result<Def, ErrorInCtx>)
    ensures
        def_result(r) == assert_def_of(mexp@, true),
{
    mexp_to_any_assert_def(mexp, true)
}

/// Reads a note: `note { .. }`.
pub fn mexp_to_note_def<'a>(mexp: &Mexp<'a>) -> (r: Result<Def, ErrorInCtx>)
    ensures
        def_result(r) == note_def_of(mexp@),
{
    match block_apply_body(mexp, "note") {
        Some(_) => Ok(Def::Note),
        None => syntax_error_at(mexp.span()).wrap_in_err(),
    }
}

/// Reads a definition: the first kind of definition that reads, else the
/// error of the last kind tried.
pub fn mexp_to_def<'a>(mexp: &Mexp<'a>) -> (r: Result<Def, ErrorInCtx>)
    ensures
        def_result(r) == def_of(mexp@),
{
    let r = mexp_to_obj_def(mexp);
    if r.is_ok() {
        return r;
    }
    let r = mexp_to_import_def(mexp);
    if r.is_ok() {
        return r;
    }
    let r = mexp_to_search_def(mexp);
    if r.is_ok() {
        return r;
    }
    let r = mexp_to_nameless_search_def(mexp);
    if r.is_ok() {
        return r;
    }
    let r = mexp_to_query_def(mexp);
    if r.is_ok() {
        return r;
    }
    let r = mexp_to_nameless_query_def(mexp);
    if r.is_ok() {
        return r;
    }
    let r = mexp_to_assert_def(mexp);
    if r.is_ok() {
        return r;
    }
    let r = mexp_to_assert_not_def(mexp);
    if r.is_ok() {
        return r;
    }
    let r = mexp_to_note_def(mexp);
    if r.is_ok() {
        return r;
    }
    mexp_to_step_def(mexp)
}

proof fn lemma_defs_of_stays_err(ms: Seq<MexpView>, j: int, k: int)
    requires
        0 <= j <= k <= ms.len(),
        defs_of(ms.take(j)) is Err,
    ensures
        defs_of(ms.take(k)) == defs_of(ms.take(j)),
    decreases k - j,
{
    if j < k {
        lemma_defs_of_stays_err(ms, j, k - 1);
        assert(ms.take(k).drop_last() =~= ms.take(k - 1));
    }
}

/// Reads definitions one by one, up to the first error.
pub fn mexp_vec_to_def_vec<'a>(mexp_vec: &Vec<Mexp<'a>>) -> (r: Result<Vec<Def>, ErrorInCtx>)
    ensures
        defs_result(r) == defs_of(mexps_view(mexp_vec@)),
{
    let ghost ms = mexps_view(mexp_vec@);
    proof {
        lemma_mexps_view_len(mexp_vec@);
        assert(ms.take(0) =~= Seq::<MexpView>::empty());
        assert(defs_view(Seq::<Def>::empty()) =~= Seq::<DefView>::empty());
    }
    let mut vec: Vec<Def> = Vec::new();
    let mut i: usize = 0;
    while i < mexp_vec.len()
        invariant
            i <= mexp_vec@.len(),
            ms == mexps_view(mexp_vec@),
            ms.len() == mexp_vec@.len(),
            defs_of(ms.take(i as int)) == Ok::<Seq<DefView>, ErrorInCtxView>(defs_view(vec@)),
        decreases mexp_vec@.len() - i,
    {
        let r = mexp_to_def(&mexp_vec[i]);
        proof {
            lemma_mexps_view_index(mexp_vec@, i as int);
            assert(ms.take(i + 1).drop_last() =~= ms.take(i as int));
            assert(ms.take(i + 1).last() == mexp_view(mexp_vec@[i as int]));
        }
        match r {
            Ok(d) => {
                let ghost before = vec@;
                vec.push(d);
                proof {
                    assert(defs_view(vec@) =~= defs_view(before).push(def_view(d)));
                }
            },
            Err(e) => {
                proof {
                    lemma_defs_of_stays_err(ms, i + 1, ms.len() as int);
                    assert(ms.take(ms.len() as int) =~= ms);
                }
                return Err(e);
            },
        }
        i = i + 1;
    }
    proof {
        assert(ms.take(ms.len() as int) =~= ms);
    }
    Ok(vec)
}

/// Whether an argument holds nothing.
pub open spec fn args_empty(a: ArgsView) -> bool {
    match a {
        ArgsView::Vec(ts) => ts.len() == 0,
        ArgsView::Rec(bs) => bs.len() == 0,
    }
}

/// The text of a term: a name, followed by its argument where that holds
/// anything.
pub open spec fn term_text(t: TermView) -> Seq<char>
    decreases t, 3nat,
{
    match t {
        TermView::Var(_, name) => name,
        TermView::Cons(_, name, a) => if args_empty(a) { name } else { name + seq![' '] + args_text(a) },
        TermView::Prop(_, name, a) => if args_empty(a) { name } else { name + seq![' '] + args_text(a) },
        TermView::FieldRef(_, name) => name,
        TermView::TypeOfType(_) => seq!['t', 'y', 'p', 'e'],
    }
}

/// The text of an argument: terms in round brackets, separated by spaces,
/// or bindings in braces, separated by commas.
pub open spec fn args_text(a: ArgsView) -> Seq<char>
    decreases a, 2nat,
{
    match a {
        ArgsView::Vec(ts) => seq!['('] + terms_text(ts) + seq![')'],
        ArgsView::Rec(bs) => seq!['{', ' '] + bindings_text(bs) + seq![' ', '}'],
    }
}

/// The text of a binding: `name = term` or `name : term`.
pub open spec fn binding_text(b: BindingView) -> Seq<char>
    decreases b, 2nat,
{
    match b {
        BindingView::EqualTo(name, t) => name + seq![' ', '=', ' '] + term_text(t),
        BindingView::Inhabit(name, t) => name + seq![' ', ':', ' '] + term_text(t),
    }
}

/// The texts of terms, separated by spaces.
pub open spec fn terms_text(ts: Seq<TermView>) -> Seq<char>
    decreases ts, 1nat,
{
    if ts.len() == 0 {
        Seq::empty()
    } else if ts.len() == 1 {
        term_text(ts[0])
    } else {
        terms_text(ts.drop_last()) + seq![' '] + term_text(ts.last())
    }
}

/// The texts of bindings, separated by a comma and a space.
pub open spec fn bindings_text(bs: Seq<BindingView>) -> Seq<char>
    decreases bs, 1nat,
{
    if bs.len() == 0 {
        Seq::empty()
    } else if bs.len() == 1 {
        binding_text(bs[0])
    } else {
        bindings_text(bs.drop_last()) + seq![',', ' '] + binding_text(bs.last())
    }
}

proof fn lemma_terms_view_len(ts: Seq<Term>)
    ensures
        terms_view(ts).len() == ts.len(),
    decreases ts.len(),
{
    if ts.len() > 0 {
        lemma_terms_view_len(ts.drop_last());
    }
}

proof fn lemma_bindings_view_len(bs: Seq<Binding>)
    ensures
        bindings_view(bs).len() == bs.len(),
    decreases bs.len(),
{
    if bs.len() > 0 {
        lemma_bindings_view_len(bs.drop_last());
    }
}

fn write_term(t: &Term, s: &mut String)
    ensures
        final(s)@ == old(s)@ + term_text(t@),
    decreases t, 3nat,
{
    match t {
        Term::Var(_, name) => push_str(s, name.as_str()),
        Term::Cons(_, name, arg) | Term::Prop(_, name, arg) => {
            push_str(s, name.as_str());
            if !arg_is_empty(arg) {
                crate::text::push_char(s, ' ');
                write_arg(arg, s);
            }
        },
        Term::FieldRef(_, name) => push_str(s, name.as_str()),
        Term::TypeOfType(_) => {
            proof {
                reveal_strlit("type");
                assert("type"@ =~= seq!['t', 'y', 'p', 'e']);
            }
            push_str(s, "type");
        },
    }
}

fn arg_is_empty(a: &Arg) -> (r: bool)
    ensures
        r == args_empty(args_view(*a)),
{
    match a {
        Arg::Vec(ts) => {
            proof {
                lemma_terms_view_len(ts@);
            }
            ts.len() == 0
        },
        Arg::Rec(bs) => {
            proof {
                lemma_bindings_view_len(bs@);
            }
            bs.len() == 0
        },
    }
}

fn write_arg(a: &Arg, s: &mut String)
    ensures
        final(s)@ == old(s)@ + args_text(args_view(*a)),
    decreases a, 2nat,
{
    match a {
        Arg::Vec(ts) => {
            crate::text::push_char(s, '(');
            write_terms(ts, s);
            crate::text::push_char(s, ')');
        },
        Arg::Rec(bs) => {
            push_str(s, "{ ");
            write_bindings(bs, s);
            push_str(s, " }");
            proof {
                reveal_strlit("{ ");
                reveal_strlit(" }");
                assert("{ "@ =~= seq!['{', ' ']);
                assert(" }"@ =~= seq![' ', '}']);
            }
        },
    }
}

fn write_binding(b: &Binding, s: &mut String)
    ensures
        final(s)@ == old(s)@ + binding_text(binding_view(*b)),
    decreases b, 2nat,
{
    match b {
        Binding::EqualTo(name, t) => {
            push_str(s, name.as_str());
            push_str(s, " = ");
            write_term(t, s);
            proof {
                reveal_strlit(" = ");
                assert(" = "@ =~= seq![' ', '=', ' ']);
            }
        },
        Binding::Inhabit(name, t) => {
            push_str(s, name.as_str());
            push_str(s, " : ");
            write_term(t, s);
            proof {
                reveal_strlit(" : ");
                assert(" : "@ =~= seq![' ', ':', ' ']);
            }
        },
    }
}

fn write_terms(v: &Vec<Term>, s: &mut String)
    ensures
        final(s)@ == old(s)@ + terms_text(terms_view(v@)),
    decreases v, 1nat,
{
    let mut i: usize = 0;
    proof {
        assert(terms_view(v@.take(0)) =~= Seq::<TermView>::empty());
        assert(old(s)@ + Seq::<char>::empty() =~= old(s)@);
    }
    while i < v.len()
        invariant
            i <= v@.len(),
            s@ == old(s)@ + terms_text(terms_view(v@.take(i as int))),
        decreases v@.len() - i,
    {
        assert(decreases_to!(v => v@[i as int]));
        if i > 0 {
            crate::text::push_char(s, ' ');
        }
        write_term(&v[i], s);
        proof {
            let ts = terms_view(v@.take(i as int));
            assert(v@.take(i + 1) =~= v@.take(i as int).push(v@[i as int]));
            lemma_terms_view_push(v@.take(i as int), v@[i as int]);
            lemma_terms_view_len(v@.take(i as int));
            let ts2 = ts.push(term_view(v@[i as int]));
            assert(ts2.drop_last() =~= ts);
            if i == 0 {
                assert(ts2[0] == term_view(v@[i as int]));
            }
        }
        i = i + 1;
    }
    proof {
        assert(v@.take(v@.len() as int) =~= v@);
    }
}

fn write_bindings(v: &Vec<Binding>, s: &mut String)
    ensures
        final(s)@ == old(s)@ + bindings_text(bindings_view(v@)),
    decreases v, 1nat,
{
    let mut i: usize = 0;
    proof {
        assert(bindings_view(v@.take(0)) =~= Seq::<BindingView>::empty());
        assert(old(s)@ + Seq::<char>::empty() =~= old(s)@);
    }
    while i < v.len()
        invariant
            i <= v@.len(),
            s@ == old(s)@ + bindings_text(bindings_view(v@.take(i as int))),
        decreases v@.len() - i,
    {
        assert(decreases_to!(v => v@[i as int]));
        if i > 0 {
            push_str(s, ", ");
            proof {
                reveal_strlit(", ");
                assert(", "@ =~= seq![',', ' ']);
            }
        }
        write_binding(&v[i], s);
        proof {
            let bs = bindings_view(v@.take(i as int));
            assert(v@.take(i + 1) =~= v@.take(i as int).push(v@[i as int]));
            lemma_bindings_view_push(v@.take(i as int), v@[i as int]);
            lemma_bindings_view_len(v@.take(i as int));
            let bs2 = bs.push(binding_view(v@[i as int]));
            assert(bs2.drop_last() =~= bs);
            if i == 0 {
                assert(bs2[0] == binding_view(v@[i as int]));
            }
        }
        i = i + 1;
    }
    proof {
        assert(v@.take(v@.len() as int) =~= v@);
    }
}

impl Term {
    /// The text of the term.
    pub fn to_string(&self) -> (s: String)
        ensures
            s@ == term_text(self@),
    {
        let mut s = String::new();
        write_term(self, &mut s);
        s
    }

    /// Where the term stands in its source text.
    pub fn span(&self) -> (s: Span)
        ensures
            s == term_span(self@),
    {
        match self {
            Term::Var(span, _) => *span,
            Term::Cons(span, _, _) => *span,
            Term::Prop(span, _, _) => *span,
            Term::FieldRef(span, _) => *span,
            Term::TypeOfType(span) => *span,
        }
    }
}

/// Where a term stands in its source text.
pub open spec fn term_span(t: TermView) -> Span {
    match t {
        TermView::Var(span, _) => span,
        TermView::Cons(span, _, _) => span,
        TermView::Prop(span, _, _) => span,
        TermView::FieldRef(span, _) => span,
        TermView::TypeOfType(span) => span,
    }
}

impl Arg {
    /// Whether the argument holds nothing.
    pub fn is_empty(&self) -> (r: bool)
        ensures
            r == args_empty(args_view(*self)),
    {
        arg_is_empty(self)
    }

    /// The text of the argument.
    pub fn to_string(&self) -> (s: String)
        ensures
            s@ == args_text(args_view(*self)),
    {
        let mut s = String::new();
        write_arg(self, &mut s);
        s
    }
}

impl Binding {
    /// The text of the binding.
    pub fn to_string(&self) -> (s: String)
        ensures
            s@ == binding_text(binding_view(*self)),
    {
        let mut s = String::new();
        write_binding(self, &mut s);
        s
    }
}

/// Names separated by `sep`.
pub open spec fn joined(names: Seq<Seq<char>>, sep: Seq<char>) -> Seq<char>
    decreases names.len(),
{
    if names.len() == 0 {
        Seq::empty()
    } else if names.len() == 1 {
        names[0]
    } else {
        joined(names.drop_last(), sep) + sep + names.last()
    }
}

/// The text of an object: `disj (names) { bindings }` or
/// `conj { bindings }`, with `{}` for no bindings; a module, its named
/// objects one to a line in `$module-c { }`; what a search, a query or a
/// run of steps found, before it is laid out.
pub open spec fn obj_text(o: ObjView) -> Seq<char>
    decreases o, 1nat,
{
    match o {
        ObjView::Disj(names, bs) => "disj ("@ + joined(names, seq![' ']) + if bs.len() == 0 {
            ") {}"@
        } else {
            ") { "@ + bindings_text(bs) + " }"@
        },
        ObjView::Conj(bs) => if bs.len() == 0 { "conj {}"@ } else { "conj { "@ + bindings_text(bs) + " }"@ },
        ObjView::Module(es) => if module_lines(es).len() == 0 {
            "$module-c {}"@
        } else {
            "$module-c { "@ + module_lines(es) + " }"@
        },
        ObjView::SearchRes(qs) => search_res_text(qs),
        ObjView::QueryRes(xs, ss) => query_res_text(xs, ss),
        ObjView::StepRes(last, queue) => step_res_text(last, queue),
    }
}

/// The named objects of a module, each on a line `name = object`.
pub open spec fn module_lines(es: Seq<(Seq<char>, Option<ObjView>)>) -> Seq<char>
    decreases es, 0nat,
{
    if es.len() == 0 {
        Seq::empty()
    } else {
        module_lines(es.drop_last()) + match es.last().1 {
            Some(o) => es.last().0 + " = "@ + obj_text(o) + seq!['\n'],
            None => Seq::empty(),
        }
    }
}

/// Appends `names`, separated by `sep`.
pub fn push_joined(s: &mut String, names: &Vec<String>, sep: &str)
    ensures
        final(s)@ == old(s)@ + joined(names_view(names@), sep@),
{
    let mut i: usize = 0;
    proof {
        assert(names_view(names@.take(0)) =~= Seq::<Seq<char>>::empty());
        assert(old(s)@ + Seq::<char>::empty() =~= old(s)@);
    }
    while i < names.len()
        invariant
            i <= names@.len(),
            s@ == old(s)@ + joined(names_view(names@.take(i as int)), sep@),
        decreases names@.len() - i,
    {
        if i > 0 {
            push_str(s, sep);
        }
        push_str(s, names[i].as_str());
        proof {
            let ns = names_view(names@.take(i as int));
            let ns2 = names_view(names@.take(i + 1));
            assert(ns2 =~= ns.push(names@[i as int]@));
            assert(ns2.drop_last() =~= ns);
        }
        i = i + 1;
    }
    proof {
        assert(names@.take(names@.len() as int) =~= names@);
    }
}

impl Obj {
    /// The text of the object.
    pub fn to_string(&self) -> (s: String)
        ensures
            s@ == obj_text(obj_view(*self)),
        decreases self, 1nat,
    {
        let mut s = String::new();
        match self {
            Obj::Disj(names, bs) => {
                push_str(&mut s, "disj (");
                push_joined(&mut s, names, " ");
                proof {
                    lemma_bindings_view_len(bs@);
                    reveal_strlit(" ");
                    assert(" "@ =~= seq![' ']);
                }
                if bs.len() == 0 {
                    push_str(&mut s, ") {}");
                } else {
                    push_str(&mut s, ") { ");
                    write_bindings(bs, &mut s);
                    push_str(&mut s, " }");
                }
            },
            Obj::Conj(bs) => {
                proof {
                    lemma_bindings_view_len(bs@);
                }
                if bs.len() == 0 {
                    push_str(&mut s, "conj {}");
                } else {
                    push_str(&mut s, "conj { ");
                    write_bindings(bs, &mut s);
                    push_str(&mut s, " }");
                }
            },
            Obj::Module(m) => {
                return m.to_string();
            },
            Obj::SearchRes(res) => {
                return res.to_string();
            },
            Obj::QueryRes(res) => {
                return res.to_string();
            },
            Obj::StepRes(res) => {
                return res.to_string();
            },
        }
        proof {
            assert(s@ =~= obj_text(obj_view(*self)));
        }
        s
    }
}

/// The names `ns` followed by the names of the variables of a term that
/// are not among them yet, in the order first met.
pub open spec fn collect_term(ns: Seq<Seq<char>>, t: TermView) -> Seq<Seq<char>>
    decreases t, 3nat,
{
    match t {
        TermView::Var(_, name) => if ns.contains(name) { ns } else { ns.push(name) },
        TermView::Cons(_, _, a) => collect_args(ns, a),
        TermView::Prop(_, _, a) => collect_args(ns, a),
        _ => ns,
    }
}

/// The names collected from the terms of an argument.
pub open spec fn collect_args(ns: Seq<Seq<char>>, a: ArgsView) -> Seq<Seq<char>>
    decreases a, 2nat,
{
    match a {
        ArgsView::Vec(ts) => collect_terms(ns, ts),
        ArgsView::Rec(bs) => collect_bindings(ns, bs),
    }
}

/// The names collected from the term of a binding.
pub open spec fn collect_binding(ns: Seq<Seq<char>>, b: BindingView) -> Seq<Seq<char>>
    decreases b, 2nat,
{
    match b {
        BindingView::EqualTo(_, t) => collect_term(ns, t),
        BindingView::Inhabit(_, t) => collect_term(ns, t),
    }
}

/// The names collected from terms, one after another.
pub open spec fn collect_terms(ns: Seq<Seq<char>>, ts: Seq<TermView>) -> Seq<Seq<char>>
    decreases ts, 1nat,
{
    if ts.len() == 0 { ns } else { collect_term(collect_terms(ns, ts.drop_last()), ts.last()) }
}

/// The names collected from bindings, one after another.
pub open spec fn collect_bindings(ns: Seq<Seq<char>>, bs: Seq<BindingView>) -> Seq<Seq<char>>
    decreases bs, 1nat,
{
    if bs.len() == 0 { ns } else { collect_binding(collect_bindings(ns, bs.drop_last()), bs.last()) }
}

pub(crate) fn contains_name(v: &Vec<String>, name: &String) -> (r: bool)
    ensures
        r == names_view(v@).contains(name@),
{
    let mut i: usize = 0;
    while i < v.len()
        invariant
            i <= v@.len(),
            forall|j: int| 0 <= j < i ==> v@[j]@ != name@,
        decreases v@.len() - i,
    {
        if str_eq(v[i].as_str(), name.as_str()) {
            proof {
                assert(names_view(v@)[i as int] == name@);
            }
            return true;
        }
        i = i + 1;
    }
    proof {
        if names_view(v@).contains(name@) {
            let k = choose|k: int| 0 <= k < names_view(v@).len() && names_view(v@)[k] == name@;
            assert(v@[k]@ == name@);
        }
    }
    false
}

/// Adds to `var_name_vec` the names of the variables of `term` that it
/// does not hold yet, in the order first met.
pub fn collect_var_name_vec_from_term(var_name_vec: &mut Vec<String>, term: &Term)
    ensures
        names_view(final(var_name_vec)@) == collect_term(names_view(old(var_name_vec)@), term@),
    decreases term, 3nat,
{
    match term {
        Term::Var(_, name) => {
            if !contains_name(var_name_vec, name) {
                let ghost before = var_name_vec@;
                var_name_vec.push(string_from(name.as_str()));
                proof {
                    assert(names_view(var_name_vec@) =~= names_view(before).push(name@));
                }
            }
        },
        Term::Cons(_, _, arg) => collect_var_name_vec_from_arg(var_name_vec, arg),
        Term::Prop(_, _, arg) => collect_var_name_vec_from_arg(var_name_vec, arg),
        Term::FieldRef(..) => {},
        Term::TypeOfType(_) => {},
    }
}

/// Adds to `var_name_vec` the names of the variables of the terms of
/// `arg` that it does not hold yet, in the order first met.
pub fn collect_var_name_vec_from_arg(var_name_vec: &mut Vec<String>, arg: &Arg)
    ensures
        names_view(final(var_name_vec)@) == collect_args(names_view(old(var_name_vec)@), args_view(*arg)),
    decreases arg, 2nat,
{
    match arg {
        Arg::Vec(ts) => collect_from_terms(var_name_vec, ts),
        Arg::Rec(bs) => collect_from_bindings(var_name_vec, bs),
    }
}

fn collect_from_binding(var_name_vec: &mut Vec<String>, b: &Binding)
    ensures
        names_view(final(var_name_vec)@) == collect_binding(names_view(old(var_name_vec)@), binding_view(*b)),
    decreases b, 0nat,
{
    match b {
        Binding::EqualTo(_, t) => collect_var_name_vec_from_term(var_name_vec, t),
        Binding::Inhabit(_, t) => collect_var_name_vec_from_term(var_name_vec, t),
    }
}

fn collect_from_terms(var_name_vec: &mut Vec<String>, ts: &Vec<Term>)
    ensures
        names_view(final(var_name_vec)@) == collect_terms(names_view(old(var_name_vec)@), terms_view(ts@)),
    decreases ts, 1nat,
{
    let mut i: usize = 0;
    proof {
        assert(terms_view(ts@.take(0)) =~= Seq::<TermView>::empty());
    }
    while i < ts.len()
        invariant
            i <= ts@.len(),
            names_view(var_name_vec@) == collect_terms(names_view(old(var_name_vec)@), terms_view(ts@.take(i as int))),
        decreases ts@.len() - i,
    {
        assert(decreases_to!(ts => ts@[i as int]));
        collect_var_name_vec_from_term(var_name_vec, &ts[i]);
        proof {
            assert(ts@.take(i + 1) =~= ts@.take(i as int).push(ts@[i as int]));
            lemma_terms_view_push(ts@.take(i as int), ts@[i as int]);
            let tv = terms_view(ts@.take(i as int)).push(term_view(ts@[i as int]));
            assert(tv.drop_last() =~= terms_view(ts@.take(i as int)));
        }
        i = i + 1;
    }
    proof {
        assert(ts@.take(ts@.len() as int) =~= ts@);
    }
}

fn collect_from_bindings(var_name_vec: &mut Vec<String>, bs: &Vec<Binding>)
    ensures
        names_view(final(var_name_vec)@) == collect_bindings(names_view(old(var_name_vec)@), bindings_view(bs@)),
    decreases bs, 1nat,
{
    let mut i: usize = 0;
    proof {
        assert(bindings_view(bs@.take(0)) =~= Seq::<BindingView>::empty());
    }
    while i < bs.len()
        invariant
            i <= bs@.len(),
            names_view(var_name_vec@) == collect_bindings(names_view(old(var_name_vec)@), bindings_view(bs@.take(i as int))),
        decreases bs@.len() - i,
    {
        assert(decreases_to!(bs => bs@[i as int]));
        collect_from_binding(var_name_vec, &bs[i]);
        proof {
            assert(bs@.take(i + 1) =~= bs@.take(i as int).push(bs@[i as int]));
            lemma_bindings_view_push(bs@.take(i as int), bs@[i as int]);
            let bv = bindings_view(bs@.take(i as int)).push(binding_view(bs@[i as int]));
            assert(bv.drop_last() =~= bindings_view(bs@.take(i as int)));
        }
        i = i + 1;
    }
    proof {
        assert(bs@.take(bs@.len() as int) =~= bs@);
    }
}

/// Whether no name occurs twice.
pub open spec fn distinct(ns: Seq<Seq<char>>) -> bool {
    forall|i: int, j: int| 0 <= i < j < ns.len() ==> ns[i] != ns[j]
}

proof fn lemma_collect_term(ns: Seq<Seq<char>>, t: TermView)
    ensures
        ns.is_prefix_of(collect_term(ns, t)),
        distinct(ns) ==> distinct(collect_term(ns, t)),
    decreases t, 3nat,
{
    match t {
        TermView::Var(_, name) => {
            if !ns.contains(name) {
                assert(ns.is_prefix_of(ns.push(name)));
                if distinct(ns) {
                    assert forall|i: int, j: int| 0 <= i < j < ns.push(name).len() implies ns.push(name)[i] != ns.push(name)[j] by {
                        if j == ns.len() {
                            assert(ns[i] == ns.push(name)[i]);
                        }
                    }
                }
            } else {
                assert(ns.is_prefix_of(ns));
            }
        },
        TermView::Cons(_, _, a) => lemma_collect_args(ns, a),
        TermView::Prop(_, _, a) => lemma_collect_args(ns, a),
        _ => {
            assert(ns.is_prefix_of(ns));
        },
    }
}

proof fn lemma_collect_args(ns: Seq<Seq<char>>, a: ArgsView)
    ensures
        ns.is_prefix_of(collect_args(ns, a)),
        distinct(ns) ==> distinct(collect_args(ns, a)),
    decreases a, 2nat,
{
    match a {
        ArgsView::Vec(ts) => lemma_collect_terms(ns, ts),
        ArgsView::Rec(bs) => lemma_collect_bindings(ns, bs),
    }
}

proof fn lemma_collect_binding(ns: Seq<Seq<char>>, b: BindingView)
    ensures
        ns.is_prefix_of(collect_binding(ns, b)),
        distinct(ns) ==> distinct(collect_binding(ns, b)),
    decreases b, 2nat,
{
    match b {
        BindingView::EqualTo(_, t) => lemma_collect_term(ns, t),
        BindingView::Inhabit(_, t) => lemma_collect_term(ns, t),
    }
}

proof fn lemma_prefix_trans(a: Seq<Seq<char>>, b: Seq<Seq<char>>, c: Seq<Seq<char>>)
    requires
        a.is_prefix_of(b),
        b.is_prefix_of(c),
    ensures
        a.is_prefix_of(c),
{
    assert forall|i: int| 0 <= i < a.len() implies a[i] == c[i] by {
        assert(a[i] == b[i]);
    }
}

proof fn lemma_collect_terms(ns: Seq<Seq<char>>, ts: Seq<TermView>)
    ensures
        ns.is_prefix_of(collect_terms(ns, ts)),
        distinct(ns) ==> distinct(collect_terms(ns, ts)),
    decreases ts, 1nat,
{
    if ts.len() == 0 {
        assert(ns.is_prefix_of(ns));
    } else {
        lemma_collect_terms(ns, ts.drop_last());
        let mid = collect_terms(ns, ts.drop_last());
        lemma_collect_term(mid, ts.last());
        lemma_prefix_trans(ns, mid, collect_term(mid, ts.last()));
    }
}

proof fn lemma_collect_bindings(ns: Seq<Seq<char>>, bs: Seq<BindingView>)
    ensures
        ns.is_prefix_of(collect_bindings(ns, bs)),
        distinct(ns) ==> distinct(collect_bindings(ns, bs)),
    decreases bs, 1nat,
{
    if bs.len() == 0 {
        assert(ns.is_prefix_of(ns));
    } else {
        lemma_collect_bindings(ns, bs.drop_last());
        let mid = collect_bindings(ns, bs.drop_last());
        lemma_collect_binding(mid, bs.last());
        lemma_prefix_trans(ns, mid, collect_binding(mid, bs.last()));
    }
}

/// Collecting the variable names of a term keeps the names held before,
/// in front, and adds no name twice.
pub proof fn law_collect_keeps_names_distinct(ns: Seq<Seq<char>>, t: TermView)
    ensures
        ns.is_prefix_of(collect_term(ns, t)),
        distinct(ns) ==> distinct(collect_term(ns, t)),
{
    lemma_collect_term(ns, t);
}

} // verus!
