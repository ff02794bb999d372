//! The untyped logic language wissen: terms, substitutions with
//! unification, denotations of propositions, and its statements read from
//! M-expressions.

use vstd::prelude::*;
use std::sync::Arc;
use crate::dict::share;
use crate::cicada_value::{Id, Dic, dic_get, copy_string, hyphenated, uuid_hyphenated};
use crate::cicada::{joined, names_view, push_joined, or_else, tuple_apply, counted_shape, named_def_shape, ends_with_dash,
    usize_text, parse_usize, build_err, labeled, lines1, lines2, lines3, tuple_apply_body, counted_parts, named_def_parts,
    ends_with_dash_p};
use crate::error_report::{Span, ErrorMsg, ErrorMsgView, ErrorInCtx, ErrorInCtxView, strings_view};
use crate::mexp::{Mexp, MexpArg, MexpView, mexp_view, mexps_view, mexp_text, mexp_view_span, lemma_mexps_view_len, lemma_mexps_view_index};
use crate::text::{string_from, str_eq, push_str, push_char, push_decimal, decimal, byte_len};
use crate::mexp_syntax::{SyntaxTable, default_table, parse_tokens, Step};
use crate::lexing::lex_from;

verus! {

/// A variable: a name, and an id where it was made fresh.
#[derive(Debug, PartialEq, Eq)]
pub struct Var {
    pub name: String,
    pub id: Option<Id>,
}

/// A constructor applied to terms.
#[derive(Debug, PartialEq, Eq)]
pub struct Cons {
    pub head: String,
    pub body: Vec<Term>,
}

/// A term: a variable or a constructor applied to terms.
#[derive(Debug, PartialEq, Eq)]
pub enum Term {
    Var(Var),
    Cons(Cons),
}

/// What a variable is.
pub struct VarView {
    pub name: Seq<char>,
    pub id: Option<Id>,
}

/// What a term is.
pub enum TermView {
    Var(VarView),
    Cons(Seq<char>, Seq<TermView>),
}

/// The view of a variable.
pub open spec fn var_view(x: Var) -> VarView {
    VarView { name: x.name@, id: x.id }
}

/// The view of a term.
pub open spec fn term_view(t: Term) -> TermView
    decreases t, 2nat,
{
    match t {
        Term::Var(x) => TermView::Var(var_view(x)),
        Term::Cons(c) => TermView::Cons(c.head@, terms_view(c.body@)),
    }
}

/// The views of terms.
pub open spec fn terms_view(ts: Seq<Term>) -> Seq<TermView>
    decreases ts, 1nat,
{
    if ts.len() == 0 {
        Seq::empty()
    } else {
        terms_view(ts.drop_last()).push(term_view(ts.last()))
    }
}

impl View for Var {
    type V = VarView;

    open spec fn view(&self) -> VarView {
        var_view(*self)
    }
}

impl View for Term {
    type V = TermView;

    open spec fn view(&self) -> TermView {
        term_view(*self)
    }
}

/// The terms of a view are the views of the terms, one by one.
pub proof fn lemma_terms_view(ts: Seq<Term>)
    ensures
        terms_view(ts).len() == ts.len(),
        forall|i: int| 0 <= i < ts.len() ==> #[trigger] terms_view(ts)[i] == term_view(ts[i]),
    decreases ts.len(),
{
    if ts.len() > 0 {
        lemma_terms_view(ts.drop_last());
        assert forall|i: int| 0 <= i < ts.len() implies #[trigger] terms_view(ts)[i] == term_view(ts[i]) by {
            if i < ts.len() - 1 {
                assert(ts.drop_last()[i] == ts[i]);
            }
        }
    }
}

/// A copy of a variable.
pub fn copy_var(x: &Var) -> (r: Var)
    ensures
        r@ == x@,
{
    Var { name: copy_string(&x.name), id: x.id }
}

/// A copy of a term.
pub fn copy_term(t: &Term) -> (r: Term)
    ensures
        r@ == t@,
    decreases t, 2nat,
{
    match t {
        Term::Var(x) => Term::Var(copy_var(x)),
        Term::Cons(c) => Term::Cons(Cons { head: copy_string(&c.head), body: copy_terms(&c.body) }),
    }
}

/// A copy of terms.
pub fn copy_terms(v: &Vec<Term>) -> (r: Vec<Term>)
    ensures
        terms_view(r@) == terms_view(v@),
    decreases v, 1nat,
{
    let mut out: Vec<Term> = Vec::new();
    let mut i: usize = 0;
    proof {
        assert(v@.take(0) =~= Seq::<Term>::empty());
        assert(out@ =~= Seq::<Term>::empty());
    }
    while i < v.len()
        invariant
            i <= v@.len(),
            terms_view(out@) == terms_view(v@.take(i as int)),
        decreases v@.len() - i,
    {
        assert(decreases_to!(v => v@[i as int]));
        let c = copy_term(&v[i]);
        let ghost before = out@;
        out.push(c);
        proof {
            assert(out@.drop_last() =~= before);
            assert(v@.take(i + 1).drop_last() =~= v@.take(i as int));
            assert(v@.take(i + 1).last() == v@[i as int]);
        }
        i = i + 1;
    }
    proof {
        assert(v@.take(v@.len() as int) =~= v@);
    }
    out
}

/// Whether two variables are the same.
pub fn var_eq(a: &Var, b: &Var) -> (r: bool)
    ensures
        r == (a@ == b@),
{
    a.id == b.id && str_eq(a.name.as_str(), b.name.as_str())
}

impl Term {
    /// A fresh variable named `s`.
    pub fn var(s: &str) -> (t: Term)
        ensures
            t@ matches TermView::Var(x) && x.name == s@ && x.id matches Some(Id::Uuid(_)),
    {
        Term::Var(Var { name: string_from(s), id: Some(Id::uuid()) })
    }

    /// The variable named `s`, with no id.
    pub fn var_no_id(s: &str) -> (t: Term)
        ensures
            t@ == TermView::Var(VarView { name: s@, id: None }),
    {
        Term::Var(Var { name: string_from(s), id: None })
    }

    /// The variable named `s` numbered `counter`.
    pub fn var_local(s: &str, counter: usize) -> (t: Term)
        ensures
            t@ == TermView::Var(VarView { name: s@, id: Some(Id::Local(counter)) }),
    {
        Term::Var(Var { name: string_from(s), id: Some(Id::Local(counter)) })
    }

    /// The constructor `h` applied to `vec`.
    pub fn cons(h: &str, vec: Vec<Term>) -> (t: Term)
        ensures
            t@ == TermView::Cons(h@, terms_view(vec@)),
    {
        Term::Cons(Cons { head: string_from(h), body: vec })
    }
}

/// A substitution: bindings of variables to terms, the latest first.
#[derive(Debug, PartialEq, Eq)]
pub enum Subst {
    Null,
    Cons { var: Var, term: Term, next: Arc<Subst> },
}

/// The bindings of a substitution, the latest first.
pub open spec fn bindings(s: Subst) -> Seq<(VarView, TermView)>
    decreases s,
{
    match s {
        Subst::Null => Seq::empty(),
        Subst::Cons { var, term, next } => seq![(var@, term@)] + bindings(*next),
    }
}

impl View for Subst {
    type V = Seq<(VarView, TermView)>;

    open spec fn view(&self) -> Seq<(VarView, TermView)> {
        bindings(*self)
    }
}

impl Clone for Subst {
    fn clone(&self) -> (r: Self)
        ensures
            r@ == self@,
    {
        match self {
            Subst::Null => Subst::Null,
            Subst::Cons { var, term, next } => Subst::Cons { var: copy_var(var), term: copy_term(term), next: share(next) },
        }
    }
}

/// The term the latest binding of `x` binds it to.
pub open spec fn find_spec(bs: Seq<(VarView, TermView)>, x: VarView) -> Option<TermView>
    decreases bs.len(),
{
    if bs.len() == 0 {
        None
    } else if bs[0].0 == x {
        Some(bs[0].1)
    } else {
        find_spec(bs.drop_first(), x)
    }
}

/// Whether the term is a variable that the bindings bind.
pub open spec fn bound(bs: Seq<(VarView, TermView)>, t: TermView) -> bool {
    t is Var && find_spec(bs, t->Var_0) is Some
}

/// Where a term leads through the bindings within `fuel` steps.
pub open spec fn walk_fuel(bs: Seq<(VarView, TermView)>, t: TermView, fuel: nat) -> TermView
    decreases fuel,
{
    if fuel > 0 && bound(bs, t) {
        walk_fuel(bs, find_spec(bs, t->Var_0)->Some_0, (fuel - 1) as nat)
    } else {
        t
    }
}

/// Whether walking the term through the bindings comes to a term that is
/// not a bound variable.
pub open spec fn walk_ends(bs: Seq<(VarView, TermView)>, t: TermView) -> bool {
    exists|fuel: nat| !bound(bs, #[trigger] walk_fuel(bs, t, fuel))
}

/// Where a term leads through the bindings, where the walk ends.
pub open spec fn walk_spec(bs: Seq<(VarView, TermView)>, t: TermView) -> TermView {
    walk_fuel(bs, t, choose|fuel: nat| !bound(bs, #[trigger] walk_fuel(bs, t, fuel)))
}

/// Whether `x` occurs in `t` walked through the bindings, within `fuel`
/// steps and levels: `None` where the fuel runs out.
pub open spec fn occurs_fuel(bs: Seq<(VarView, TermView)>, x: VarView, t: TermView, fuel: nat) -> Option<bool>
    decreases fuel, 0nat,
{
    if fuel == 0 {
        None
    } else {
        let w = walk_fuel(bs, t, fuel);
        if bound(bs, w) {
            None
        } else {
            match w {
                TermView::Var(y) => Some(y == x),
                TermView::Cons(_, body) => occurs_list(bs, x, body, 0, (fuel - 1) as nat),
            }
        }
    }
}

/// Whether `x` occurs in one of the terms from index `i` on.
pub open spec fn occurs_list(bs: Seq<(VarView, TermView)>, x: VarView, ts: Seq<TermView>, i: int, fuel: nat) -> Option<bool>
    decreases fuel, 1nat + (if i < ts.len() { (ts.len() - i) as nat } else { 0nat }),
{
    if i < 0 || i >= ts.len() {
        Some(false)
    } else {
        match occurs_fuel(bs, x, ts[i], fuel) {
            None => None,
            Some(true) => Some(true),
            Some(false) => occurs_list(bs, x, ts, i + 1, fuel),
        }
    }
}

/// Whether the search for `x` in `t` comes to an end.
pub open spec fn occurs_ends(bs: Seq<(VarView, TermView)>, x: VarView, t: TermView) -> bool {
    exists|fuel: nat| #[trigger] occurs_fuel(bs, x, t, fuel) is Some
}

/// Whether `x` occurs in `t`, where the search ends.
pub open spec fn occurs_spec(bs: Seq<(VarView, TermView)>, x: VarView, t: TermView) -> bool {
    occurs_fuel(bs, x, t, choose|fuel: nat| #[trigger] occurs_fuel(bs, x, t, fuel) is Some)->Some_0
}

/// Unifying `u` and `v` in `bs` within `fuel` steps and levels: `None`
/// where the fuel runs out; else `Some(None)` where the terms cannot be
/// made equal and `Some(Some(bs2))` with the bindings that make them
/// equal.  Both terms are walked first; a variable is bound to the other
/// term where it does not occur in it; constructors of one head and
/// length are unified argument by argument.
pub open spec fn unify_fuel(bs: Seq<(VarView, TermView)>, u: TermView, v: TermView, fuel: nat)
    -> Option<Option<Seq<(VarView, TermView)>>>
    decreases fuel, 0nat,
{
    if fuel == 0 {
        None
    } else {
        let wu = walk_fuel(bs, u, fuel);
        let wv = walk_fuel(bs, v, fuel);
        let f = (fuel - 1) as nat;
        if bound(bs, wu) || bound(bs, wv) {
            None
        } else if wu is Var && wv is Var && wu == wv {
            Some(Some(bs))
        } else if wu is Var {
            match occurs_fuel(bs, wu->Var_0, wv, f) {
                None => None,
                Some(true) => Some(None),
                Some(false) => Some(Some(seq![(wu->Var_0, wv)] + bs)),
            }
        } else if wv is Var {
            match occurs_fuel(bs, wv->Var_0, wu, f) {
                None => None,
                Some(true) => Some(None),
                Some(false) => Some(Some(seq![(wv->Var_0, wu)] + bs)),
            }
        } else if wu->Cons_0 != wv->Cons_0 || wu->Cons_1.len() != wv->Cons_1.len() {
            Some(None)
        } else {
            unify_list(bs, wu->Cons_1, wv->Cons_1, 0, f)
        }
    }
}

/// Unifying the terms of `us` and `vs` pair by pair from index `i` on.
pub open spec fn unify_list(bs: Seq<(VarView, TermView)>, us: Seq<TermView>, vs: Seq<TermView>, i: int, fuel: nat)
    -> Option<Option<Seq<(VarView, TermView)>>>
    decreases fuel, 1nat + (if i < us.len() { (us.len() - i) as nat } else { 0nat }),
{
    if i < 0 || i >= us.len() || i >= vs.len() {
        Some(Some(bs))
    } else {
        match unify_fuel(bs, us[i], vs[i], fuel) {
            None => None,
            Some(None) => Some(None),
            Some(Some(bs2)) => unify_list(bs2, us, vs, i + 1, fuel),
        }
    }
}

/// Whether unifying `u` and `v` in `bs` comes to an end.
pub open spec fn unify_ends(bs: Seq<(VarView, TermView)>, u: TermView, v: TermView) -> bool {
    exists|fuel: nat| #[trigger] unify_fuel(bs, u, v, fuel) is Some
}

/// What unifying `u` and `v` in `bs` gives, where it ends.
pub open spec fn unify_spec(bs: Seq<(VarView, TermView)>, u: TermView, v: TermView) -> Option<Seq<(VarView, TermView)>> {
    unify_fuel(bs, u, v, choose|fuel: nat| #[trigger] unify_fuel(bs, u, v, fuel) is Some)->Some_0
}

/// A term with every bound variable replaced, all the way down, by what
/// it walks to, within `fuel`: `None` where the fuel runs out.
pub open spec fn deep_walk_fuel(bs: Seq<(VarView, TermView)>, t: TermView, fuel: nat) -> Option<TermView>
    decreases fuel, 0nat,
{
    if fuel == 0 {
        None
    } else {
        let w = walk_fuel(bs, t, fuel);
        if bound(bs, w) {
            None
        } else {
            match w {
                TermView::Var(_) => Some(w),
                TermView::Cons(h, body) => match deep_walk_list(bs, body, body.len() as int, (fuel - 1) as nat) {
                    Some(b) => Some(TermView::Cons(h, b)),
                    None => None,
                },
            }
        }
    }
}

/// The first `k` terms, each walked all the way down.
pub open spec fn deep_walk_list(bs: Seq<(VarView, TermView)>, ts: Seq<TermView>, k: int, fuel: nat) -> Option<Seq<TermView>>
    decreases fuel, 1nat + (if k > 0 { k as nat } else { 0nat }),
{
    if k <= 0 || k > ts.len() {
        Some(Seq::empty())
    } else {
        match deep_walk_list(bs, ts, k - 1, fuel) {
            None => None,
            Some(prev) => match deep_walk_fuel(bs, ts[k - 1], fuel) {
                None => None,
                Some(w) => Some(prev.push(w)),
            },
        }
    }
}

/// Whether walking `t` all the way down in `bs` comes to an end.
pub open spec fn deep_walk_ends(bs: Seq<(VarView, TermView)>, t: TermView) -> bool {
    exists|fuel: nat| #[trigger] deep_walk_fuel(bs, t, fuel) is Some
}

/// `t` walked all the way down in `bs`, where that ends.
pub open spec fn deep_walk_spec(bs: Seq<(VarView, TermView)>, t: TermView) -> TermView {
    deep_walk_fuel(bs, t, choose|fuel: nat| #[trigger] deep_walk_fuel(bs, t, fuel) is Some)->Some_0
}

/// The bindings that rename each variable of `t`, as walked in `bs`, to
/// one of its name numbered by the count of bindings before it, within
/// `fuel`: `None` where the fuel runs out or the count reaches
/// `usize::MAX`.
pub open spec fn localize_fuel(bs: Seq<(VarView, TermView)>, t: TermView, fuel: nat) -> Option<Seq<(VarView, TermView)>>
    decreases fuel, 0nat,
{
    if fuel == 0 {
        None
    } else {
        let w = walk_fuel(bs, t, fuel);
        if bound(bs, w) {
            None
        } else {
            match w {
                TermView::Var(x) => if bs.len() < usize::MAX {
                    Some(seq![(x, TermView::Var(VarView { name: x.name, id: Some(Id::Local(bs.len() as usize)) }))] + bs)
                } else {
                    None
                },
                TermView::Cons(_, body) => localize_list(bs, body, 0, (fuel - 1) as nat),
            }
        }
    }
}

/// The renaming bindings of the terms from index `i` on, one after
/// another.
pub open spec fn localize_list(bs: Seq<(VarView, TermView)>, ts: Seq<TermView>, i: int, fuel: nat)
    -> Option<Seq<(VarView, TermView)>>
    decreases fuel, 1nat + (if i < ts.len() { (ts.len() - i) as nat } else { 0nat }),
{
    if i < 0 || i >= ts.len() {
        Some(bs)
    } else {
        match localize_fuel(bs, ts[i], fuel) {
            None => None,
            Some(bs2) => localize_list(bs2, ts, i + 1, fuel),
        }
    }
}

/// Whether renaming the variables of `t` in `bs` comes to an end.
pub open spec fn localize_ends(bs: Seq<(VarView, TermView)>, t: TermView) -> bool {
    exists|fuel: nat| #[trigger] localize_fuel(bs, t, fuel) is Some
}

/// The renaming bindings of the variables of `t` in `bs`, where that ends.
pub open spec fn localize_spec(bs: Seq<(VarView, TermView)>, t: TermView) -> Seq<(VarView, TermView)> {
    localize_fuel(bs, t, choose|fuel: nat| #[trigger] localize_fuel(bs, t, fuel) is Some)->Some_0
}

/// Whether each step of reading back the variable `x` in `bs` ends.
pub open spec fn reify_ends(bs: Seq<(VarView, TermView)>, x: VarView) -> bool {
    let t = deep_walk_spec(bs, TermView::Var(x));
    &&& deep_walk_ends(bs, TermView::Var(x))
    &&& localize_ends(Seq::empty(), t)
    &&& deep_walk_ends(localize_spec(Seq::empty(), t), t)
}

/// The variable `x` read back from `bs`: walked all the way down, with
/// its variables renamed to ones numbered in the order they are met.
pub open spec fn reify_spec(bs: Seq<(VarView, TermView)>, x: VarView) -> TermView {
    let t = deep_walk_spec(bs, TermView::Var(x));
    deep_walk_spec(localize_spec(Seq::empty(), t), t)
}

/// The result of a unification as the exec code gives it.
pub open spec fn matches_outcome(r: Option<Subst>, o: Option<Seq<(VarView, TermView)>>) -> bool {
    match o {
        Some(bs) => r matches Some(s) && s@ == bs,
        None => r is None,
    }
}

impl Subst {
    /// The substitution that binds nothing.
    pub fn new() -> (s: Subst)
        ensures
            s@ == Seq::<(VarView, TermView)>::empty(),
    {
        Subst::Null
    }

    /// This substitution with `var` bound to `term` before its bindings.
    pub fn extend(&self, var: Var, term: Term) -> (s: Subst)
        ensures
            s@ == seq![(var@, term@)] + self@,
    {
        Subst::Cons { var, term, next: Arc::new(self.clone()) }
    }

    /// The term the latest binding of `var` binds it to.
    pub fn find(&self, var: &Var) -> (r: Option<&Term>)
        ensures
            match r {
                Some(t) => find_spec(self@, var@) == Some(t@),
                None => find_spec(self@, var@) is None,
            },
        decreases self,
    {
        match self {
            Subst::Null => None,
            Subst::Cons { var: first, term, next } => {
                proof {
                    assert(self@.drop_first() =~= next@);
                }
                if var_eq(first, var) {
                    Some(term)
                } else {
                    next.find(var)
                }
            },
        }
    }

    /// Whether the substitution binds nothing.
    pub fn null_p(&self) -> (r: bool)
        ensures
            r == (self@.len() == 0),
    {
        match self {
            Subst::Null => true,
            Subst::Cons { .. } => false,
        }
    }

    /// Whether the substitution binds something.
    pub fn cons_p(&self) -> (r: bool)
        ensures
            r == (self@.len() > 0),
    {
        !self.null_p()
    }

    /// The number of bindings.
    pub fn len(&self) -> (n: usize)
        requires
            self@.len() <= usize::MAX,
        ensures
            n == self@.len(),
    {
        let mut n: usize = 0;
        let mut subst = self;
        loop
            invariant
                n + subst@.len() == self@.len(),
                self@.len() <= usize::MAX,
            ensures
                n == self@.len(),
            decreases subst@.len(),
        {
            match subst {
                Subst::Null => {
                    break;
                },
                Subst::Cons { next, .. } => {
                    n = n + 1;
                    subst = next;
                },
            }
        }
        n
    }

    fn walk_in(&self, term: &Term, Ghost(fuel): Ghost<nat>) -> (r: Term)
        requires
            !bound(self@, walk_fuel(self@, term@, fuel)),
        ensures
            r@ == walk_fuel(self@, term@, fuel),
        decreases fuel,
    {
        match term {
            Term::Var(var) => match self.find(var) {
                Some(new_term) => self.walk_in(new_term, Ghost((fuel - 1) as nat)),
                None => copy_term(term),
            },
            _ => copy_term(term),
        }
    }

    /// Where `term` leads through the bindings: to a term that is not a
    /// bound variable.
    pub fn walk(&self, term: &Term) -> (r: Term)
        requires
            walk_ends(self@, term@),
        ensures
            r@ == walk_spec(self@, term@),
    {
        let ghost fuel = choose|fuel: nat| !bound(self@, #[trigger] walk_fuel(self@, term@, fuel));
        self.walk_in(term, Ghost(fuel))
    }

    fn occurs_in(&self, var: &Var, term: &Term, Ghost(fuel): Ghost<nat>) -> (r: bool)
        requires
            occurs_fuel(self@, var@, term@, fuel) is Some,
        ensures
            r == occurs_fuel(self@, var@, term@, fuel)->Some_0,
        decreases fuel, 0nat,
    {
        let w = self.walk_in(term, Ghost(fuel));
        match &w {
            Term::Var(var1) => var_eq(var1, var),
            Term::Cons(cons) => {
                let ghost f = (fuel - 1) as nat;
                let ghost ts = terms_view(cons.body@);
                proof {
                    lemma_terms_view(cons.body@);
                }
                let mut i: usize = 0;
                while i < cons.body.len()
                    invariant
                        i <= cons.body@.len(),
                        ts == terms_view(cons.body@),
                        ts.len() == cons.body@.len(),
                        forall|j: int| 0 <= j < cons.body@.len() ==> #[trigger] ts[j] == term_view(cons.body@[j]),
                        occurs_list(self@, var@, ts, i as int, f) == occurs_list(self@, var@, ts, 0, f),
                        occurs_list(self@, var@, ts, 0, f) is Some,
                        fuel > 0,
                        f == fuel - 1,
                        occurs_fuel(self@, var@, term@, fuel) == occurs_list(self@, var@, ts, 0, f),
                    decreases cons.body@.len() - i,
                {
                    if self.occurs_in(var, &cons.body[i], Ghost(f)) {
                        return true;
                    }
                    i = i + 1;
                }
                false
            },
        }
    }

    /// Whether `var` occurs in `term` walked through the bindings.
    pub fn var_occur_p(&self, var: &Var, term: &Term) -> (r: bool)
        requires
            occurs_ends(self@, var@, term@),
        ensures
            r == occurs_spec(self@, var@, term@),
    {
        let ghost fuel = choose|fuel: nat| #[trigger] occurs_fuel(self@, var@, term@, fuel) is Some;
        self.occurs_in(var, term, Ghost(fuel))
    }

    fn unify_in(&self, u: &Term, v: &Term, Ghost(fuel): Ghost<nat>) -> (r: Option<Subst>)
        requires
            unify_fuel(self@, u@, v@, fuel) is Some,
        ensures
            matches_outcome(r, unify_fuel(self@, u@, v@, fuel)->Some_0),
        decreases fuel, 0nat,
    {
        let wu = self.walk_in(u, Ghost(fuel));
        let wv = self.walk_in(v, Ghost(fuel));
        let ghost f = (fuel - 1) as nat;
        if let (Term::Var(a), Term::Var(b)) = (&wu, &wv) {
            if var_eq(a, b) {
                return Some(self.clone());
            }
        }
        if let Term::Var(a) = &wu {
            if self.occurs_in(a, &wv, Ghost(f)) {
                return None;
            }
            return Some(self.extend(copy_var(a), copy_term(&wv)));
        }
        if let Term::Var(b) = &wv {
            if self.occurs_in(b, &wu, Ghost(f)) {
                return None;
            }
            return Some(self.extend(copy_var(b), copy_term(&wu)));
        }
        match (&wu, &wv) {
            (Term::Cons(ut), Term::Cons(vt)) => {
                proof {
                    lemma_terms_view(ut.body@);
                    lemma_terms_view(vt.body@);
                }
                if !str_eq(ut.head.as_str(), vt.head.as_str()) {
                    return None;
                }
                if ut.body.len() != vt.body.len() {
                    return None;
                }
                let ghost usv = terms_view(ut.body@);
                let ghost vsv = terms_view(vt.body@);
                let mut subst = self.clone();
                let mut i: usize = 0;
                while i < ut.body.len()
                    invariant
                        ut.body@.len() == vt.body@.len(),
                        usv == terms_view(ut.body@),
                        vsv == terms_view(vt.body@),
                        usv.len() == ut.body@.len(),
                        vsv.len() == vt.body@.len(),
                        forall|j: int| 0 <= j < ut.body@.len() ==> #[trigger] usv[j] == term_view(ut.body@[j]),
                        forall|j: int| 0 <= j < vt.body@.len() ==> #[trigger] vsv[j] == term_view(vt.body@[j]),
                        i <= ut.body@.len(),
                        fuel > 0,
                        f == fuel - 1,
                        unify_list(subst@, usv, vsv, i as int, f) == unify_fuel(self@, u@, v@, fuel),
                        unify_fuel(self@, u@, v@, fuel) is Some,
                    decreases ut.body@.len() - i,
                {
                    match subst.unify_in(&ut.body[i], &vt.body[i], Ghost(f)) {
                        Some(s) => {
                            subst = s;
                        },
                        None => {
                            return None;
                        },
                    }
                    i = i + 1;
                }
                Some(subst)
            },
            _ => None,
        }
    }
}

impl Subst {
    /// Unifies `u` and `v`: the bindings, before those of this
    /// substitution, that make the two terms equal, or `None` where there
    /// are none.
    pub fn unify(&self, u: &Term, v: &Term) -> (r: Option<Subst>)
        requires
            unify_ends(self@, u@, v@),
        ensures
            matches_outcome(r, unify_spec(self@, u@, v@)),
    {
        let ghost fuel = choose|fuel: nat| #[trigger] unify_fuel(self@, u@, v@, fuel) is Some;
        self.unify_in(u, v, Ghost(fuel))
    }

    fn deep_walk_in(&self, term: &Term, Ghost(fuel): Ghost<nat>) -> (r: Term)
        requires
            deep_walk_fuel(self@, term@, fuel) is Some,
        ensures
            r@ == deep_walk_fuel(self@, term@, fuel)->Some_0,
        decreases fuel, 0nat,
    {
        let w = self.walk_in(term, Ghost(fuel));
        let ghost f = (fuel - 1) as nat;
        match w {
            Term::Var(_) => w,
            Term::Cons(Cons { head, body }) => {
                let ghost ts = terms_view(body@);
                proof {
                    lemma_terms_view(body@);
                    lemma_deep_walk_list_prefix(self@, ts, ts.len() as int, f);
                    assert(terms_view(Seq::<Term>::empty()) =~= Seq::<TermView>::empty());
                }
                let mut out: Vec<Term> = Vec::new();
                let mut i: usize = 0;
                while i < body.len()
                    invariant
                        i <= body@.len(),
                        ts == terms_view(body@),
                        ts.len() == body@.len(),
                        forall|j: int| 0 <= j < body@.len() ==> #[trigger] ts[j] == term_view(body@[j]),
                        forall|k: int| 0 <= k <= body@.len() ==> #[trigger] deep_walk_list(self@, ts, k, f) is Some,
                        deep_walk_list(self@, ts, i as int, f) == Some(terms_view(out@)),
                        fuel > 0,
                        f == fuel - 1,
                    decreases body@.len() - i,
                {
                    assert(deep_walk_list(self@, ts, i + 1, f) is Some);
                    let w = self.deep_walk_in(&body[i], Ghost(f));
                    let ghost before = out@;
                    out.push(w);
                    proof {
                        assert(out@.drop_last() =~= before);
                    }
                    i = i + 1;
                }
                Term::Cons(Cons { head, body: out })
            },
        }
    }

    /// `term` with every bound variable replaced, all the way down, by
    /// what it walks to.
    pub fn deep_walk(&self, term: &Term) -> (r: Term)
        requires
            deep_walk_ends(self@, term@),
        ensures
            r@ == deep_walk_spec(self@, term@),
    {
        let ghost fuel = choose|fuel: nat| #[trigger] deep_walk_fuel(self@, term@, fuel) is Some;
        self.deep_walk_in(term, Ghost(fuel))
    }

    fn localize_in(&self, term: &Term, Ghost(fuel): Ghost<nat>) -> (r: Subst)
        requires
            localize_fuel(self@, term@, fuel) is Some,
        ensures
            r@ == localize_fuel(self@, term@, fuel)->Some_0,
        decreases fuel, 0nat,
    {
        let w = self.walk_in(term, Ghost(fuel));
        match &w {
            Term::Var(var) => {
                let n = self.len();
                self.extend(copy_var(var), Term::Var(Var { name: copy_string(&var.name), id: Some(Id::Local(n)) }))
            },
            Term::Cons(cons) => {
                let ghost f = (fuel - 1) as nat;
                let ghost ts = terms_view(cons.body@);
                proof {
                    lemma_terms_view(cons.body@);
                }
                let mut subst = self.clone();
                let mut i: usize = 0;
                while i < cons.body.len()
                    invariant
                        i <= cons.body@.len(),
                        ts == terms_view(cons.body@),
                        ts.len() == cons.body@.len(),
                        forall|j: int| 0 <= j < cons.body@.len() ==> #[trigger] ts[j] == term_view(cons.body@[j]),
                        localize_list(subst@, ts, i as int, f) == localize_list(self@, ts, 0, f),
                        localize_list(self@, ts, 0, f) is Some,
                        fuel > 0,
                        f == fuel - 1,
                    decreases cons.body@.len() - i,
                {
                    subst = subst.localize_in(&cons.body[i], Ghost(f));
                    i = i + 1;
                }
                subst
            },
        }
    }

    /// These bindings with bindings before them that rename each variable
    /// of `term`, as walked here, to one numbered by the count of bindings
    /// at that point.
    pub fn localize_by_term(&self, term: &Term) -> (r: Subst)
        requires
            localize_ends(self@, term@),
        ensures
            r@ == localize_spec(self@, term@),
    {
        let ghost fuel = choose|fuel: nat| #[trigger] localize_fuel(self@, term@, fuel) is Some;
        self.localize_in(term, Ghost(fuel))
    }

    /// The variable `var` read back: walked all the way down, with its
    /// variables renamed to ones numbered in the order they are met.
    pub fn reify_var(&self, var: &Var) -> (r: Term)
        requires
            reify_ends(self@, var@),
        ensures
            r@ == reify_spec(self@, var@),
    {
        let term = Term::Var(copy_var(var));
        let term = self.deep_walk(&term);
        let new_subst = Subst::new();
        let local_subst = new_subst.localize_by_term(&term);
        local_subst.deep_walk(&term)
    }
}

proof fn lemma_deep_walk_list_prefix(bs: Seq<(VarView, TermView)>, ts: Seq<TermView>, n: int, fuel: nat)
    requires
        0 <= n <= ts.len(),
        deep_walk_list(bs, ts, n, fuel) is Some,
    ensures
        forall|k: int| 0 <= k <= n ==> #[trigger] deep_walk_list(bs, ts, k, fuel) is Some,
    decreases n,
{
    if n > 0 {
        lemma_deep_walk_list_prefix(bs, ts, n - 1, fuel);
    }
}

/// A proposition: a name applied to terms.
#[derive(Debug, PartialEq, Eq)]
pub struct Prop {
    pub name: String,
    pub args: Vec<Term>,
}

/// The denotation of a proposition: one of named propositions, or a
/// pattern of terms with the propositions that must hold then.
#[derive(Debug, PartialEq, Eq)]
pub enum Den {
    Disj(Vec<String>),
    Conj(Vec<Term>, Vec<Prop>),
}

/// What a proposition is.
pub struct PropView {
    pub name: Seq<char>,
    pub args: Seq<TermView>,
}

/// What a denotation is.
pub enum DenView {
    Disj(Seq<Seq<char>>),
    Conj(Seq<TermView>, Seq<PropView>),
}

/// The view of a proposition.
pub open spec fn prop_view(p: Prop) -> PropView {
    PropView { name: p.name@, args: terms_view(p.args@) }
}

/// The views of propositions.
pub open spec fn props_view(ps: Seq<Prop>) -> Seq<PropView> {
    ps.map_values(|p: Prop| prop_view(p))
}

/// The view of a denotation.
pub open spec fn den_view(d: Den) -> DenView {
    match d {
        Den::Disj(names) => DenView::Disj(names_view(names@)),
        Den::Conj(terms, props) => DenView::Conj(terms_view(terms@), props_view(props@)),
    }
}

impl View for Prop {
    type V = PropView;

    open spec fn view(&self) -> PropView {
        prop_view(*self)
    }
}

impl View for Den {
    type V = DenView;

    open spec fn view(&self) -> DenView {
        den_view(*self)
    }
}

/// A copy of a proposition.
pub fn copy_prop(p: &Prop) -> (r: Prop)
    ensures
        r@ == p@,
{
    Prop { name: copy_string(&p.name), args: copy_terms(&p.args) }
}

/// The propositions of a matrix, row by row.
pub open spec fn matrix_view(m: Seq<Vec<Arc<Prop>>>) -> Seq<Seq<PropView>> {
    m.map_values(|row: Vec<Arc<Prop>>| row_view(row))
}

/// The propositions of a row.
pub open spec fn row_view(row: Vec<Arc<Prop>>) -> Seq<PropView> {
    row@.map_values(|p: Arc<Prop>| prop_view(*p))
}

/// Whether applying the denotation to `args` in `bs` comes to an end: a
/// pattern of another arity fails at once, else its terms are unified with
/// the arguments pair by pair.
pub open spec fn apply_ends(den: DenView, args: Seq<TermView>, bs: Seq<(VarView, TermView)>) -> bool {
    match den {
        DenView::Disj(_) => true,
        DenView::Conj(terms, _) => args.len() != terms.len()
            || exists|fuel: nat| #[trigger] unify_list(bs, args, terms, 0, fuel) is Some,
    }
}

/// What applying the denotation to `args` in `bs` gives, where it ends:
/// for a disjunction, one row for each of its names, that name applied to
/// the arguments, and the bindings unchanged; for a pattern of the same
/// arity whose terms unify with the arguments, one row of its
/// propositions and the bindings that unify them; else nothing.
pub open spec fn apply_spec(den: DenView, args: Seq<TermView>, bs: Seq<(VarView, TermView)>)
    -> Option<(Seq<Seq<PropView>>, Seq<(VarView, TermView)>)>
{
    match den {
        DenView::Disj(names) => Some((Seq::new(names.len(), |i: int| seq![PropView { name: names[i], args }]), bs)),
        DenView::Conj(terms, props) => if args.len() != terms.len() {
            None
        } else {
            let fuel = choose|fuel: nat| #[trigger] unify_list(bs, args, terms, 0, fuel) is Some;
            match unify_list(bs, args, terms, 0, fuel)->Some_0 {
                Some(bs2) => Some((seq![props], bs2)),
                None => None,
            }
        },
    }
}

impl Den {
    /// Applies the denotation to `args` in `subst`: the rows of
    /// propositions that must hold then, with the bindings that hold.
    pub fn apply(self, args: &Vec<Term>, subst: Subst) -> (r: Option<(Vec<Vec<Arc<Prop>>>, Subst)>)
        requires
            apply_ends(self@, terms_view(args@), subst@),
        ensures
            match apply_spec(self@, terms_view(args@), subst@) {
                Some((m, bs)) => r matches Some((rm, rs)) && matrix_view(rm@) == m && rs@ == bs,
                None => r is None,
            },
    {
        let ghost dv = self@;
        proof {
            lemma_terms_view(args@);
        }
        match &self {
            Den::Disj(name_vec) => {
                let mut prop_matrix: Vec<Vec<Arc<Prop>>> = Vec::new();
                let mut i: usize = 0;
                while i < name_vec.len()
                    invariant
                        i <= name_vec@.len(),
                        prop_matrix@.len() == i,
                        forall|j: int| 0 <= j < i ==> #[trigger] row_view(prop_matrix@[j])
                            == seq![PropView { name: name_vec@[j]@, args: terms_view(args@) }],
                    decreases name_vec@.len() - i,
                {
                    let prop = Arc::new(Prop { name: copy_string(&name_vec[i]), args: copy_terms(args) });
                    let row = vec![prop];
                    proof {
                        assert(row_view(row) =~= seq![PropView { name: name_vec@[i as int]@, args: terms_view(args@) }]);
                    }
                    prop_matrix.push(row);
                    i = i + 1;
                }
                proof {
                    let names = names_view(name_vec@);
                    assert(matrix_view(prop_matrix@) =~= Seq::new(names.len(), |k: int| seq![PropView { name: names[k], args: terms_view(args@) }]));
                }
                Some((prop_matrix, subst))
            },
            Den::Conj(terms, prop_vec) => {
                proof {
                    lemma_terms_view(terms@);
                }
                if args.len() != terms.len() {
                    return None;
                }
                let ghost av = terms_view(args@);
                let ghost tv = terms_view(terms@);
                let ghost fuel = choose|fuel: nat| #[trigger] unify_list(subst@, av, tv, 0, fuel) is Some;
                let ghost start = subst@;
                let mut cur = subst;
                let mut i: usize = 0;
                while i < args.len()
                    invariant
                        args@.len() == terms@.len(),
                        av == terms_view(args@),
                        tv == terms_view(terms@),
                        av.len() == args@.len(),
                        tv.len() == terms@.len(),
                        forall|j: int| 0 <= j < args@.len() ==> #[trigger] av[j] == term_view(args@[j]),
                        forall|j: int| 0 <= j < terms@.len() ==> #[trigger] tv[j] == term_view(terms@[j]),
                        i <= args@.len(),
                        unify_list(cur@, av, tv, i as int, fuel) == unify_list(start, av, tv, 0, fuel),
                        unify_list(start, av, tv, 0, fuel) is Some,
                        dv == DenView::Conj(tv, props_view(prop_vec@)),
                        dv == self@,
                        start == subst@,
                        fuel == (choose|fuel: nat| #[trigger] unify_list(start, av, tv, 0, fuel) is Some),
                    decreases args@.len() - i,
                {
                    match cur.unify_in(&args[i], &terms[i], Ghost(fuel)) {
                        Some(s) => {
                            cur = s;
                        },
                        None => {
                            return None;
                        },
                    }
                    i = i + 1;
                }
                let mut row: Vec<Arc<Prop>> = Vec::new();
                let mut k: usize = 0;
                while k < prop_vec.len()
                    invariant
                        k <= prop_vec@.len(),
                        row@.len() == k,
                        forall|j: int| 0 <= j < k ==> #[trigger] prop_view(*row@[j]) == prop_view(prop_vec@[j]),
                    decreases prop_vec@.len() - k,
                {
                    row.push(Arc::new(copy_prop(&prop_vec[k])));
                    k = k + 1;
                }
                let m = vec![row];
                proof {
                    assert(row_view(row) =~= props_view(prop_vec@));
                    assert(matrix_view(m@) =~= seq![props_view(prop_vec@)]);
                }
                Some((m, cur))
            },
        }
    }
}

/// Whether an exec result of unifying within a budget is what `o`, the
/// result within that fuel, says: `None` where the fuel runs out.
pub open spec fn fuel_outcome(r: Option<Option<Subst>>, o: Option<Option<Seq<(VarView, TermView)>>>) -> bool {
    match o {
        None => r is None,
        Some(x) => r matches Some(y) && matches_outcome(y, x),
    }
}

impl Subst {
    fn bound_p(&self, t: &Term) -> (r: bool)
        ensures
            r == bound(self@, t@),
    {
        match t {
            Term::Var(x) => self.find(x).is_some(),
            _ => false,
        }
    }

    /// Where `term` leads through the bindings within `fuel` steps.
    pub fn walk_within(&self, term: &Term, fuel: usize) -> (r: Term)
        ensures
            r@ == walk_fuel(self@, term@, fuel as nat),
        decreases fuel,
    {
        if fuel == 0 {
            return copy_term(term);
        }
        match term {
            Term::Var(var) => match self.find(var) {
                Some(new_term) => self.walk_within(new_term, fuel - 1),
                None => copy_term(term),
            },
            _ => copy_term(term),
        }
    }

    fn occurs_within(&self, var: &Var, term: &Term, fuel: usize) -> (r: Option<bool>)
        ensures
            r == occurs_fuel(self@, var@, term@, fuel as nat),
        decreases fuel, 0nat,
    {
        if fuel == 0 {
            return None;
        }
        let w = self.walk_within(term, fuel);
        if self.bound_p(&w) {
            return None;
        }
        match &w {
            Term::Var(var1) => Some(var_eq(var1, var)),
            Term::Cons(cons) => {
                let f = fuel - 1;
                let ghost ts = terms_view(cons.body@);
                proof {
                    lemma_terms_view(cons.body@);
                }
                let mut i: usize = 0;
                while i < cons.body.len()
                    invariant
                        i <= cons.body@.len(),
                        ts == terms_view(cons.body@),
                        ts.len() == cons.body@.len(),
                        forall|j: int| 0 <= j < cons.body@.len() ==> #[trigger] ts[j] == term_view(cons.body@[j]),
                        occurs_list(self@, var@, ts, i as int, f as nat) == occurs_list(self@, var@, ts, 0, f as nat),
                        fuel > 0,
                        f == fuel - 1,
                        occurs_fuel(self@, var@, term@, fuel as nat) == occurs_list(self@, var@, ts, 0, f as nat),
                    decreases cons.body@.len() - i,
                {
                    match self.occurs_within(var, &cons.body[i], f) {
                        None => {
                            return None;
                        },
                        Some(true) => {
                            return Some(true);
                        },
                        Some(false) => {},
                    }
                    i = i + 1;
                }
                Some(false)
            },
        }
    }

    /// Unifies `u` and `v` within `fuel` steps of walking and levels of
    /// nesting: `None` where the fuel runs out, else what `unify` gives.
    pub fn unify_within(&self, u: &Term, v: &Term, fuel: usize) -> (r: Option<Option<Subst>>)
        ensures
            fuel_outcome(r, unify_fuel(self@, u@, v@, fuel as nat)),
        decreases fuel, 0nat,
    {
        if fuel == 0 {
            return None;
        }
        let wu = self.walk_within(u, fuel);
        let wv = self.walk_within(v, fuel);
        if self.bound_p(&wu) || self.bound_p(&wv) {
            return None;
        }
        let f = fuel - 1;
        if let (Term::Var(a), Term::Var(b)) = (&wu, &wv) {
            if var_eq(a, b) {
                return Some(Some(self.clone()));
            }
        }
        if let Term::Var(a) = &wu {
            return match self.occurs_within(a, &wv, f) {
                None => None,
                Some(true) => Some(None),
                Some(false) => Some(Some(self.extend(copy_var(a), copy_term(&wv)))),
            };
        }
        if let Term::Var(b) = &wv {
            return match self.occurs_within(b, &wu, f) {
                None => None,
                Some(true) => Some(None),
                Some(false) => Some(Some(self.extend(copy_var(b), copy_term(&wu)))),
            };
        }
        match (&wu, &wv) {
            (Term::Cons(ut), Term::Cons(vt)) => {
                proof {
                    lemma_terms_view(ut.body@);
                    lemma_terms_view(vt.body@);
                }
                if !str_eq(ut.head.as_str(), vt.head.as_str()) {
                    return Some(None);
                }
                if ut.body.len() != vt.body.len() {
                    return Some(None);
                }
                let ghost usv = terms_view(ut.body@);
                let ghost vsv = terms_view(vt.body@);
                let mut subst = self.clone();
                let mut i: usize = 0;
                while i < ut.body.len()
                    invariant
                        ut.body@.len() == vt.body@.len(),
                        usv == terms_view(ut.body@),
                        vsv == terms_view(vt.body@),
                        usv.len() == ut.body@.len(),
                        vsv.len() == vt.body@.len(),
                        forall|j: int| 0 <= j < ut.body@.len() ==> #[trigger] usv[j] == term_view(ut.body@[j]),
                        forall|j: int| 0 <= j < vt.body@.len() ==> #[trigger] vsv[j] == term_view(vt.body@[j]),
                        i <= ut.body@.len(),
                        fuel > 0,
                        f == fuel - 1,
                        unify_list(subst@, usv, vsv, i as int, f as nat) == unify_fuel(self@, u@, v@, fuel as nat),
                    decreases ut.body@.len() - i,
                {
                    match subst.unify_within(&ut.body[i], &vt.body[i], f) {
                        Some(Some(s)) => {
                            subst = s;
                        },
                        Some(None) => {
                            return Some(None);
                        },
                        None => {
                            return None;
                        },
                    }
                    i = i + 1;
                }
                Some(Some(subst))
            },
            _ => None,
        }
    }
}

/// What applying the denotation to `args` in `bs` gives, unifying within
/// `fuel`: `None` where the fuel runs out; else as `apply_spec`.
pub open spec fn apply_fuel(den: DenView, args: Seq<TermView>, bs: Seq<(VarView, TermView)>, fuel: nat)
    -> Option<Option<(Seq<Seq<PropView>>, Seq<(VarView, TermView)>)>>
{
    match den {
        DenView::Disj(names) => Some(Some((Seq::new(names.len(), |i: int| seq![PropView { name: names[i], args }]), bs))),
        DenView::Conj(terms, props) => if args.len() != terms.len() {
            Some(None)
        } else {
            match unify_list(bs, args, terms, 0, fuel) {
                None => None,
                Some(None) => Some(None),
                Some(Some(bs2)) => Some(Some((seq![props], bs2))),
            }
        },
    }
}

impl Den {
    /// Applies the denotation to `args` in `subst`, unifying within
    /// `fuel`: `None` where the fuel runs out, else what `apply` gives.
    pub fn apply_within(&self, args: &Vec<Term>, subst: Subst, fuel: usize) -> (r: Option<Option<(Vec<Vec<Arc<Prop>>>, Subst)>>)
        ensures
            match apply_fuel(self@, terms_view(args@), subst@, fuel as nat) {
                None => r is None,
                Some(None) => r matches Some(None),
                Some(Some((m, bs))) => r matches Some(Some((rm, rs))) && matrix_view(rm@) == m && rs@ == bs,
            },
    {
        proof {
            lemma_terms_view(args@);
        }
        match self {
            Den::Disj(name_vec) => {
                let mut prop_matrix: Vec<Vec<Arc<Prop>>> = Vec::new();
                let mut i: usize = 0;
                while i < name_vec.len()
                    invariant
                        i <= name_vec@.len(),
                        prop_matrix@.len() == i,
                        forall|j: int| 0 <= j < i ==> #[trigger] row_view(prop_matrix@[j])
                            == seq![PropView { name: name_vec@[j]@, args: terms_view(args@) }],
                    decreases name_vec@.len() - i,
                {
                    let prop = Arc::new(Prop { name: copy_string(&name_vec[i]), args: copy_terms(args) });
                    let row = vec![prop];
                    proof {
                        assert(row_view(row) =~= seq![PropView { name: name_vec@[i as int]@, args: terms_view(args@) }]);
                    }
                    prop_matrix.push(row);
                    i = i + 1;
                }
                proof {
                    let names = names_view(name_vec@);
                    assert(matrix_view(prop_matrix@) =~= Seq::new(names.len(), |k: int| seq![PropView { name: names[k], args: terms_view(args@) }]));
                }
                Some(Some((prop_matrix, subst)))
            },
            Den::Conj(terms, prop_vec) => {
                proof {
                    lemma_terms_view(terms@);
                }
                if args.len() != terms.len() {
                    return Some(None);
                }
                let ghost av = terms_view(args@);
                let ghost tv = terms_view(terms@);
                let ghost start = subst@;
                proof {
                    assert(self@ == DenView::Conj(tv, props_view(prop_vec@)));
                }
                let mut cur = subst;
                let mut i: usize = 0;
                while i < args.len()
                    invariant
                        args@.len() == terms@.len(),
                        av == terms_view(args@),
                        tv == terms_view(terms@),
                        av.len() == args@.len(),
                        tv.len() == terms@.len(),
                        forall|j: int| 0 <= j < args@.len() ==> #[trigger] av[j] == term_view(args@[j]),
                        forall|j: int| 0 <= j < terms@.len() ==> #[trigger] tv[j] == term_view(terms@[j]),
                        i <= args@.len(),
                        unify_list(cur@, av, tv, i as int, fuel as nat) == unify_list(start, av, tv, 0, fuel as nat),
                        self@ == DenView::Conj(tv, props_view(prop_vec@)),
                        start == subst@,
                    decreases args@.len() - i,
                {
                    proof {
                        assert(av[i as int] == term_view(args@[i as int]));
                        assert(tv[i as int] == term_view(terms@[i as int]));
                    }
                    match cur.unify_within(&args[i], &terms[i], fuel) {
                        Some(Some(s)) => {
                            cur = s;
                        },
                        Some(None) => {
                            return Some(None);
                        },
                        None => {
                            return None;
                        },
                    }
                    i = i + 1;
                }
                let mut row: Vec<Arc<Prop>> = Vec::new();
                let mut k: usize = 0;
                while k < prop_vec.len()
                    invariant
                        k <= prop_vec@.len(),
                        row@.len() == k,
                        forall|j: int| 0 <= j < k ==> #[trigger] prop_view(*row@[j]) == prop_view(prop_vec@[j]),
                    decreases prop_vec@.len() - k,
                {
                    row.push(Arc::new(copy_prop(&prop_vec[k])));
                    k = k + 1;
                }
                let m = vec![row];
                proof {
                    assert(row_view(row) =~= props_view(prop_vec@));
                    assert(matrix_view(m@) =~= seq![props_view(prop_vec@)]);
                }
                Some(Some((m, cur)))
            },
        }
    }
}

/// A statement of a wissen program: a denotation given a name, a query
/// for a number of answers, or a search for a number of proofs.
#[derive(Debug, PartialEq, Eq)]
pub enum Statement {
    Den(String, Den),
    Query(usize, Vec<Prop>),
    Prove(usize, Vec<Prop>),
}

/// What a statement is.
pub enum StatementView {
    Den(Seq<char>, DenView),
    Query(usize, Seq<PropView>),
    Prove(usize, Seq<PropView>),
}

/// The view of a statement.
pub open spec fn statement_view(st: Statement) -> StatementView {
    match st {
        Statement::Den(name, den) => StatementView::Den(name@, den_view(den)),
        Statement::Query(n, ps) => StatementView::Query(n, props_view(ps@)),
        Statement::Prove(n, ps) => StatementView::Prove(n, props_view(ps@)),
    }
}

impl View for Statement {
    type V = StatementView;

    open spec fn view(&self) -> StatementView {
        statement_view(*self)
    }
}

/// The text of an id: the hyphenated UUID of a random one, the decimal
/// numeral of a counter.
pub open spec fn id_text(id: Id) -> Seq<char> {
    match id {
        Id::Uuid(n) => hyphenated(n),
        Id::Local(c) => decimal(c as nat),
    }
}

/// The text of a variable: its name, then `#` and its id where it has
/// one.
pub open spec fn var_text(x: VarView) -> Seq<char> {
    match x.id {
        Some(id) => x.name + seq!['#'] + id_text(id),
        None => x.name,
    }
}

/// The text of a term: a variable, or a head followed by its arguments in
/// round brackets where it has any.
pub open spec fn term_text(t: TermView) -> Seq<char>
    decreases t, 1nat,
{
    match t {
        TermView::Var(x) => var_text(x),
        TermView::Cons(h, body) => if body.len() == 0 { h } else { h + seq![' ', '('] + terms_text(body) + seq![')'] },
    }
}

/// The texts of terms separated by spaces.
pub open spec fn terms_text(ts: Seq<TermView>) -> Seq<char>
    decreases ts, 0nat,
{
    if ts.len() == 0 {
        Seq::empty()
    } else if ts.len() == 1 {
        term_text(ts[0])
    } else {
        terms_text(ts.drop_last()) + seq![' '] + term_text(ts.last())
    }
}

fn write_id(id: Id, s: &mut String)
    ensures
        final(s)@ == old(s)@ + id_text(id),
{
    match id {
        Id::Uuid(n) => {
            let h = uuid_hyphenated(n);
            push_str(s, h.as_str());
        },
        Id::Local(c) => {
            push_decimal(s, c as u64);
        },
    }
}

fn write_var(x: &Var, s: &mut String)
    ensures
        final(s)@ == old(s)@ + var_text(x@),
{
    push_str(s, x.name.as_str());
    match x.id {
        Some(id) => {
            push_char(s, '#');
            write_id(id, s);
        },
        None => {},
    }
}

fn write_term(t: &Term, s: &mut String)
    ensures
        final(s)@ == old(s)@ + term_text(t@),
    decreases t, 1nat,
{
    match t {
        Term::Var(x) => write_var(x, s),
        Term::Cons(c) => {
            proof {
                lemma_terms_view(c.body@);
            }
            push_str(s, c.head.as_str());
            if c.body.len() > 0 {
                push_char(s, ' ');
                push_char(s, '(');
                write_terms(&c.body, s);
                push_char(s, ')');
            }
        },
    }
}

fn write_terms(v: &Vec<Term>, s: &mut String)
    ensures
        final(s)@ == old(s)@ + terms_text(terms_view(v@)),
    decreases v, 0nat,
{
    let mut i: usize = 0;
    proof {
        assert(terms_view(v@.take(0)) =~= Seq::<TermView>::empty());
        assert(old(s)@ + Seq::<char>::empty() =~= old(s)@);
    }
    while i < v.len()
        invariant
            i <= v@.len(),
            s@ == old(s)@ + terms_text(terms_view(v@.take(i as int))),
        decreases v@.len() - i,
    {
        assert(decreases_to!(v => v@[i as int]));
        if i > 0 {
            push_char(s, ' ');
        }
        write_term(&v[i], s);
        proof {
            let ts = terms_view(v@.take(i as int));
            assert(v@.take(i + 1).drop_last() =~= v@.take(i as int));
            assert(terms_view(v@.take(i + 1)) == ts.push(term_view(v@[i as int])));
            lemma_terms_view(v@.take(i as int));
            let ts2 = ts.push(term_view(v@[i as int]));
            assert(ts2.drop_last() =~= ts);
            if i == 0 {
                assert(ts2[0] == term_view(v@[i as int]));
            }
        }
        i = i + 1;
    }
    proof {
        assert(v@.take(v@.len() as int) =~= v@);
    }
}

impl Id {
    /// The text of the id as wissen writes it: the whole hyphenated UUID,
    /// or the counter.
    pub fn to_wissen_string(&self) -> (s: String)
        ensures
            s@ == id_text(*self),
    {
        let mut s = String::new();
        write_id(*self, &mut s);
        s
    }
}

impl Var {
    /// The text of the variable.
    pub fn to_string(&self) -> (s: String)
        ensures
            s@ == var_text(self@),
    {
        let mut s = String::new();
        write_var(self, &mut s);
        s
    }
}

impl Term {
    /// The text of the term.
    pub fn to_string(&self) -> (s: String)
        ensures
            s@ == term_text(self@),
    {
        let mut s = String::new();
        write_term(self, &mut s);
        s
    }
}

impl Cons {
    /// The text of the constructor applied to its terms.
    pub fn to_string(&self) -> (s: String)
        ensures
            s@ == term_text(TermView::Cons(self.head@, terms_view(self.body@))),
    {
        let mut s = String::new();
        proof {
            lemma_terms_view(self.body@);
        }
        push_str(&mut s, self.head.as_str());
        if self.body.len() > 0 {
            push_char(&mut s, ' ');
            push_char(&mut s, '(');
            write_terms(&self.body, &mut s);
            push_char(&mut s, ')');
        }
        s
    }
}

/// The text of a proposition: its name, then its terms in round brackets.
pub open spec fn prop_text(p: PropView) -> Seq<char> {
    p.name + seq![' ', '('] + terms_text(p.args) + seq![')']
}

/// The texts of propositions separated by spaces.
pub open spec fn props_text(ps: Seq<PropView>) -> Seq<char>
    decreases ps.len(),
{
    if ps.len() == 0 {
        Seq::empty()
    } else if ps.len() == 1 {
        prop_text(ps[0])
    } else {
        props_text(ps.drop_last()) + seq![' '] + prop_text(ps.last())
    }
}

/// The text of a denotation: `disj (names)`, or `conj (terms)` followed
/// by its propositions in braces, `{}` for none.
pub open spec fn den_text(d: DenView) -> Seq<char> {
    match d {
        DenView::Disj(names) => "disj ("@ + joined(names, seq![' ']) + seq![')'],
        DenView::Conj(terms, props) => "conj ("@ + terms_text(terms) + seq![')', ' ']
            + if props.len() == 0 { seq!['{', '}'] } else { seq!['{', ' '] + props_text(props) + seq![' ', '}'] },
    }
}

fn write_prop(p: &Prop, s: &mut String)
    ensures
        final(s)@ == old(s)@ + prop_text(p@),
{
    push_str(s, p.name.as_str());
    push_char(s, ' ');
    push_char(s, '(');
    write_terms(&p.args, s);
    push_char(s, ')');
}

impl Prop {
    /// The text of the proposition.
    pub fn to_string(&self) -> (s: String)
        ensures
            s@ == prop_text(self@),
    {
        let mut s = String::new();
        write_prop(self, &mut s);
        s
    }
}

impl Den {
    /// The text of the denotation.
    pub fn to_string(&self) -> (r: String)
        ensures
            r@ == den_text(self@),
    {
        let mut s = String::new();
        match self {
            Den::Disj(names) => {
                push_str(&mut s, "disj (");
                push_joined(&mut s, names, " ");
                push_char(&mut s, ')');
                proof {
                    reveal_strlit(" ");
                    assert(" "@ =~= seq![' ']);
                }
            },
            Den::Conj(terms, props) => {
                push_str(&mut s, "conj (");
                write_terms(terms, &mut s);
                push_char(&mut s, ')');
                push_char(&mut s, ' ');
                if props.len() == 0 {
                    push_char(&mut s, '{');
                    push_char(&mut s, '}');
                } else {
                    push_char(&mut s, '{');
                    push_char(&mut s, ' ');
                    let ghost start = s@;
                    let mut i: usize = 0;
                    proof {
                        assert(props_view(props@.take(0)) =~= Seq::<PropView>::empty());
                        assert(start + Seq::<char>::empty() =~= start);
                    }
                    while i < props.len()
                        invariant
                            i <= props@.len(),
                            s@ == start + props_text(props_view(props@.take(i as int))),
                        decreases props@.len() - i,
                    {
                        if i > 0 {
                            push_char(&mut s, ' ');
                        }
                        write_prop(&props[i], &mut s);
                        proof {
                            let ps = props_view(props@.take(i as int));
                            let ps2 = props_view(props@.take(i + 1));
                            assert(ps2 =~= ps.push(prop_view(props@[i as int])));
                            assert(ps2.drop_last() =~= ps);
                        }
                        i = i + 1;
                    }
                    proof {
                        assert(props@.take(props@.len() as int) =~= props@);
                    }
                    push_char(&mut s, ' ');
                    push_char(&mut s, '}');
                }
            },
        }
        proof {
            assert(s@ =~= den_text(self@));
        }
        s
    }
}

/// The text of the bindings: `var = term` and a line break for each, the
/// latest first.
pub open spec fn subst_text(bs: Seq<(VarView, TermView)>) -> Seq<char>
    decreases bs.len(),
{
    if bs.len() == 0 {
        Seq::empty()
    } else {
        var_text(bs[0].0) + seq![' ', '=', ' '] + term_text(bs[0].1) + seq!['\n'] + subst_text(bs.drop_first())
    }
}

impl Subst {
    /// The text of the bindings.
    pub fn to_string(&self) -> (r: String)
        ensures
            r@ == subst_text(self@),
    {
        let mut s = String::new();
        let mut subst = self;
        let ghost k: int = 0;
        proof {
            assert(self@.skip(0) =~= self@);
        }
        loop
            invariant
                0 <= k <= self@.len(),
                subst@ == self@.skip(k),
                s@ + subst_text(subst@) == subst_text(self@),
            ensures
                s@ == subst_text(self@),
            decreases subst@.len(),
        {
            match subst {
                Subst::Null => {
                    proof {
                        assert(s@ + Seq::<char>::empty() =~= s@);
                    }
                    break;
                },
                Subst::Cons { var, term, next } => {
                    let ghost before = s@;
                    write_var(var, &mut s);
                    push_str(&mut s, " = ");
                    write_term(term, &mut s);
                    push_char(&mut s, '\n');
                    proof {
                        reveal_strlit(" = ");
                        assert(" = "@ =~= seq![' ', '=', ' ']);
                        assert(subst@.drop_first() =~= next@);
                        assert(self@.skip(k + 1) =~= self@.skip(k).drop_first());
                        k = k + 1;
                        assert(s@ + subst_text(next@) =~= before + subst_text(subst@));
                    }
                    subst = next;
                },
            }
        }
        s
    }
}

/// The grammar that syntax errors of wissen point to.
pub const GRAMMAR: &'static str = r#"
Statement::Den = { den-name? "=" Den }
Statement::Query = { "query" '(' num? ')' '{' list (Prop) '}' }
Statement::Prove = { "prove" '(' num? ')' '{' list (Prop) '}' }
Den::Disj = { "disj" '(' list (den-name?) ')' }
Den::Conj = { "conj" '(' list (Term) ')' '{' list (Prop) '}' }
Term::Var = { unique-var-name? }
Term::Cons = { cons-name? '(' list (Term) ')' }
Prop::Cons = { den-name? '(' list (Term) ')' }
"#;

/// The note about the grammar that syntax errors carry.
pub open spec fn grammar_note() -> ErrorMsgView {
    ErrorMsgView { head: Some("grammar :"@), lines: seq![GRAMMAR@] }
}

/// An error with the given head and lines, located at `span`, with the
/// note about the grammar where `noted`.
pub open spec fn err(head: Option<Seq<char>>, lines: Seq<Seq<char>>, span: Span, noted: bool) -> ErrorInCtxView {
    ErrorInCtxView {
        msg: ErrorMsgView { head, lines },
        infos: Seq::empty(),
        notes: if noted { seq![grammar_note()] } else { Seq::empty() },
        span: Some(span),
    }
}

/// The plain syntax error at `span`.
pub open spec fn syntax_err(span: Span) -> ErrorInCtxView {
    err(Some("syntex error"@), Seq::empty(), span, true)
}

/// The error on a symbol that is no proposition name.
pub open spec fn prop_name_err(symbol: Seq<char>, span: Span) -> ErrorInCtxView {
    err(None, seq!["expecting prop name"@, "which must end with `-t`"@, "symbol = "@ + symbol], span, true)
}

/// A proposition name read from a symbol ending with `-t`.
pub open spec fn prop_name_of(m: MexpView) -> Result<Seq<char>, ErrorInCtxView> {
    match m {
        MexpView::Sym { span, symbol } => if ends_with_dash(symbol, 't') {
            Ok(symbol)
        } else {
            Err(prop_name_err(symbol, span))
        },
        _ => Err(err(None, seq!["expecting prop name"@, "mexp = "@ + mexp_text(m)], mexp_view_span(m), false)),
    }
}

/// A term read from `cons-c (terms)`, `cons-c` or a variable name.
pub open spec fn term_of(m: MexpView) -> Result<TermView, ErrorInCtxView>
    decreases m, 1nat,
{
    match m {
        MexpView::Apply { span, head, arg } => match (*head, arg) {
            (MexpView::Sym { symbol, .. }, crate::mexp::ArgView::Tuple { body, .. }) => if ends_with_dash(symbol, 'c') {
                match terms_of(body) {
                    Ok(ts) => Ok(TermView::Cons(symbol, ts)),
                    Err(e) => Err(e),
                }
            } else {
                Err(err(None, seq!["expecting cons name"@, "which must end with `-c`"@, "symbol = "@ + symbol], span, true))
            },
            _ => Err(syntax_err(span)),
        },
        MexpView::Sym { span, symbol } => if ends_with_dash(symbol, 'c') {
            Ok(TermView::Cons(symbol, Seq::empty()))
        } else if ends_with_dash(symbol, 't') {
            Err(err(None, seq!["expecting cons name or var"@, "but found prop name which end with `-t`"@, "symbol = "@ + symbol], span, true))
        } else {
            Ok(TermView::Var(VarView { name: symbol, id: None }))
        },
        _ => Err(syntax_err(mexp_view_span(m))),
    }
}

/// Terms read one by one, up to the first error.
pub open spec fn terms_of(ms: Seq<MexpView>) -> Result<Seq<TermView>, ErrorInCtxView>
    decreases ms, 0nat,
{
    if ms.len() == 0 {
        Ok(Seq::empty())
    } else {
        match terms_of(ms.drop_last()) {
            Err(e) => Err(e),
            Ok(ts) => match term_of(ms.last()) {
                Ok(t) => Ok(ts.push(t)),
                Err(e) => Err(e),
            },
        }
    }
}

/// A proposition read from `name-t (terms)`.
pub open spec fn prop_of(m: MexpView) -> Result<PropView, ErrorInCtxView> {
    match m {
        MexpView::Apply { span, head, arg } => match (*head, arg) {
            (MexpView::Sym { symbol, .. }, crate::mexp::ArgView::Tuple { body, .. }) => if ends_with_dash(symbol, 't') {
                match terms_of(body) {
                    Ok(ts) => Ok(PropView { name: symbol, args: ts }),
                    Err(e) => Err(e),
                }
            } else {
                Err(prop_name_err(symbol, span))
            },
            _ => Err(syntax_err(span)),
        },
        _ => Err(syntax_err(mexp_view_span(m))),
    }
}

/// Propositions read one by one, up to the first error.
pub open spec fn props_of(ms: Seq<MexpView>) -> Result<Seq<PropView>, ErrorInCtxView>
    decreases ms.len(),
{
    if ms.len() == 0 {
        Ok(Seq::empty())
    } else {
        match props_of(ms.drop_last()) {
            Err(e) => Err(e),
            Ok(ps) => match prop_of(ms.last()) {
                Ok(p) => Ok(ps.push(p)),
                Err(e) => Err(e),
            },
        }
    }
}

/// Proposition names read one by one, up to the first error.
pub open spec fn prop_names_of(ms: Seq<MexpView>) -> Result<Seq<Seq<char>>, ErrorInCtxView>
    decreases ms.len(),
{
    if ms.len() == 0 {
        Ok(Seq::empty())
    } else {
        match prop_names_of(ms.drop_last()) {
            Err(e) => Err(e),
            Ok(ns) => match prop_name_of(ms.last()) {
                Ok(n) => Ok(ns.push(n)),
                Err(e) => Err(e),
            },
        }
    }
}

/// A disjunction read from `disj (names)`.
pub open spec fn disj_den_of(m: MexpView) -> Result<DenView, ErrorInCtxView> {
    match tuple_apply(m, "disj"@) {
        Some(body) => match prop_names_of(body) {
            Ok(ns) => Ok(DenView::Disj(ns)),
            Err(e) => Err(e),
        },
        None => Err(syntax_err(mexp_view_span(m))),
    }
}

/// A pattern read from `conj (terms) { props }`.
pub open spec fn conj_den_of(m: MexpView) -> Result<DenView, ErrorInCtxView> {
    match counted_shape(m, "conj"@) {
        Some((body1, body2)) => match terms_of(body1) {
            Err(e) => Err(e),
            Ok(ts) => match props_of(body2) {
                Ok(ps) => Ok(DenView::Conj(ts, ps)),
                Err(e) => Err(e),
            },
        },
        None => Err(syntax_err(mexp_view_span(m))),
    }
}

/// A denotation: a disjunction, else a pattern.
pub open spec fn den_of(m: MexpView) -> Result<DenView, ErrorInCtxView> {
    or_else(disj_den_of(m), conj_den_of(m))
}

/// A statement read from `name-t = den`.
pub open spec fn den_statement_of(m: MexpView) -> Result<StatementView, ErrorInCtxView> {
    match named_def_shape(m) {
        Some((name, rhs)) => if ends_with_dash(name, 't') {
            match den_of(rhs) {
                Ok(d) => Ok(StatementView::Den(name, d)),
                Err(e) => Err(e),
            }
        } else {
            Err(prop_name_err(name, mexp_view_span(m)))
        },
        None => Err(syntax_err(mexp_view_span(m))),
    }
}

/// A statement read from `kw (count) { props }`: a query where
/// `is_prove` is false, else a search for proofs.
pub open spec fn counted_statement_of(m: MexpView, is_prove: bool) -> Result<StatementView, ErrorInCtxView> {
    let kw = if is_prove { "prove"@ } else { "query"@ };
    let span = mexp_view_span(m);
    match counted_shape(m, kw) {
        Some((body1, body2)) => if body1.len() == 1 && body1[0] is Sym {
            let symbol = body1[0]->Sym_symbol;
            match usize_text(symbol) {
                None => Err(err(
                    None,
                    seq![if is_prove { "fail to parse usize num in `prove`"@ } else { "fail to parse usize num in `prop`"@ }, "symbol = "@ + symbol],
                    span,
                    true,
                )),
                Some(n) => match props_of(body2) {
                    Ok(ps) => Ok(if is_prove { StatementView::Prove(n, ps) } else { StatementView::Query(n, ps) }),
                    Err(e) => Err(e),
                },
            }
        } else {
            Err(err(None, seq!["fail to parse prop's first arg"@], span, true))
        },
        None => Err(syntax_err(span)),
    }
}

/// A statement: the first of a denotation, a query and a search that
/// reads, else the error of the last.
pub open spec fn statement_of(m: MexpView) -> Result<StatementView, ErrorInCtxView> {
    or_else(den_statement_of(m), or_else(counted_statement_of(m, false), counted_statement_of(m, true)))
}

/// Statements read one by one, up to the first error.
pub open spec fn statements_of(ms: Seq<MexpView>) -> Result<Seq<StatementView>, ErrorInCtxView>
    decreases ms.len(),
{
    if ms.len() == 0 {
        Ok(Seq::empty())
    } else {
        match statements_of(ms.drop_last()) {
            Err(e) => Err(e),
            Ok(ss) => match statement_of(ms.last()) {
                Ok(st) => Ok(ss.push(st)),
                Err(e) => Err(e),
            },
        }
    }
}

/// The view of a read, or of its error.
pub open spec fn result_view<T, V>(r: Result<T, ErrorInCtx>, f: spec_fn(T) -> V) -> Result<V, ErrorInCtxView> {
    match r {
        Ok(x) => Ok(f(x)),
        Err(e) => Err(e@),
    }
}

fn note_about_grammar() -> (m: ErrorMsg)
    ensures
        m@ == grammar_note(),
{
    let m = ErrorMsg::new().head("grammar :").line(GRAMMAR);
    proof {
        assert(m@.lines =~= seq![GRAMMAR@]);
    }
    m
}

fn make_err(head: Option<&str>, lines: Vec<String>, span: Span, noted: bool) -> (e: ErrorInCtx)
    ensures
        e@ == err(crate::error_report::option_str_view(head), strings_view(lines@), span, noted),
{
    let note = if noted { Some(note_about_grammar()) } else { None };
    build_err(head, lines, span, note)
}

fn syntax_error_at(span: Span) -> (e: ErrorInCtx)
    ensures
        e@ == syntax_err(span),
{
    let v: Vec<String> = Vec::new();
    proof {
        assert(strings_view(v@) =~= Seq::<Seq<char>>::empty());
    }
    make_err(Some("syntex error"), v, span, true)
}

fn prop_name_error(symbol: &str, span: Span) -> (e: ErrorInCtx)
    ensures
        e@ == prop_name_err(symbol@, span),
{
    make_err(
        None,
        lines3(string_from("expecting prop name"), string_from("which must end with `-t`"), labeled("symbol = ", symbol)),
        span,
        true,
    )
}

/// Reads a proposition name: a symbol ending with `-t`.
pub fn mexp_to_prop_name<'a>(mexp: &Mexp<'a>) -> (r: Result<String, ErrorInCtx>)
    ensures
        result_view(r, |n: String| n@) == prop_name_of(mexp@),
{
    match mexp {
        Mexp::Sym { span, symbol } => {
            if ends_with_dash_p(symbol, 't') {
                Ok(string_from(symbol))
            } else {
                prop_name_error(symbol, *span).wrap_in_err()
            }
        },
        _ => {
            let text = mexp.to_string();
            make_err(None, lines2(string_from("expecting prop name"), labeled("mexp = ", text.as_str())), mexp.span(), false).wrap_in_err()
        },
    }
}

/// Reads a term: `cons-c (terms)`, `cons-c`, or a variable name.
pub fn mexp_to_term<'a>(mexp: &Mexp<'a>) -> (r: Result<Term, ErrorInCtx>)
    ensures
        result_view(r, |t: Term| t@) == term_of(mexp@),
    decreases mexp, 1nat,
{
    match mexp {
        Mexp::Apply { span, head, arg } => {
            proof {
                assert(mexp@ matches MexpView::Apply { head: h, arg: a, span: sp } && *h == head@ && a == arg@ && sp == *span);
            }
            match (&**head, arg) {
                (Mexp::Sym { symbol, .. }, MexpArg::Tuple { body, .. }) => {
                    if ends_with_dash_p(symbol, 'c') {
                        assert(decreases_to!(mexp => body));
                        match mexp_vec_to_term_vec(body) {
                            Ok(ts) => Ok(Term::cons(symbol, ts)),
                            Err(e) => Err(e),
                        }
                    } else {
                        make_err(
                            None,
                            lines3(string_from("expecting cons name"), string_from("which must end with `-c`"), labeled("symbol = ", symbol)),
                            *span,
                            true,
                        ).wrap_in_err()
                    }
                },
                _ => syntax_error_at(*span).wrap_in_err(),
            }
        },
        Mexp::Sym { span, symbol } => {
            if ends_with_dash_p(symbol, 'c') {
                let t = Term::cons(symbol, Vec::new());
                proof {
                    assert(terms_view(Seq::<Term>::empty()) =~= Seq::<TermView>::empty());
                }
                Ok(t)
            } else if ends_with_dash_p(symbol, 't') {
                make_err(
                    None,
                    lines3(
                        string_from("expecting cons name or var"),
                        string_from("but found prop name which end with `-t`"),
                        labeled("symbol = ", symbol),
                    ),
                    *span,
                    true,
                ).wrap_in_err()
            } else {
                Ok(Term::var_no_id(symbol))
            }
        },
        _ => syntax_error_at(mexp.span()).wrap_in_err(),
    }
}

proof fn lemma_terms_of_stays_err(ms: Seq<MexpView>, j: int, k: int)
    requires
        0 <= j <= k <= ms.len(),
        terms_of(ms.take(j)) is Err,
    ensures
        terms_of(ms.take(k)) == terms_of(ms.take(j)),
    decreases k - j,
{
    if j < k {
        lemma_terms_of_stays_err(ms, j, k - 1);
        assert(ms.take(k).drop_last() =~= ms.take(k - 1));
    }
}

/// Reads terms one by one, up to the first error.
pub fn mexp_vec_to_term_vec<'a>(mexp_vec: &Vec<Mexp<'a>>) -> (r: Result<Vec<Term>, ErrorInCtx>)
    ensures
        result_view(r, |ts: Vec<Term>| terms_view(ts@)) == terms_of(mexps_view(mexp_vec@)),
    decreases mexp_vec, 0nat,
{
    let ghost ms = mexps_view(mexp_vec@);
    proof {
        lemma_mexps_view_len(mexp_vec@);
        assert(ms.take(0) =~= Seq::<MexpView>::empty());
        assert(terms_view(Seq::<Term>::empty()) =~= Seq::<TermView>::empty());
    }
    let mut vec: Vec<Term> = Vec::new();
    let mut i: usize = 0;
    while i < mexp_vec.len()
        invariant
            i <= mexp_vec@.len(),
            ms == mexps_view(mexp_vec@),
            ms.len() == mexp_vec@.len(),
            terms_of(ms.take(i as int)) == Ok::<Seq<TermView>, ErrorInCtxView>(terms_view(vec@)),
        decreases mexp_vec@.len() - i,
    {
        assert(decreases_to!(mexp_vec => mexp_vec@[i as int]));
        let r = mexp_to_term(&mexp_vec[i]);
        proof {
            lemma_mexps_view_index(mexp_vec@, i as int);
            assert(ms.take(i + 1).drop_last() =~= ms.take(i as int));
            assert(ms.take(i + 1).last() == mexp_view(mexp_vec@[i as int]));
        }
        match r {
            Ok(t) => {
                let ghost before = vec@;
                vec.push(t);
                proof {
                    assert(vec@.drop_last() =~= before);
                }
            },
            Err(e) => {
                proof {
                    lemma_terms_of_stays_err(ms, i + 1, ms.len() as int);
                    assert(ms.take(ms.len() as int) =~= ms);
                }
                return Err(e);
            },
        }
        i = i + 1;
    }
    proof {
        assert(ms.take(ms.len() as int) =~= ms);
    }
    Ok(vec)
}

/// Reads a proposition: `name-t (terms)`.
pub fn mexp_to_prop<'a>(mexp: &Mexp<'a>) -> (r: Result<Prop, ErrorInCtx>)
    ensures
        result_view(r, |p: Prop| p@) == prop_of(mexp@),
{
    match mexp {
        Mexp::Apply { span, head, arg } => {
            proof {
                assert(mexp@ matches MexpView::Apply { head: h, arg: a, span: sp } && *h == head@ && a == arg@ && sp == *span);
            }
            match (&**head, arg) {
                (Mexp::Sym { symbol, .. }, MexpArg::Tuple { body, .. }) => {
                    if ends_with_dash_p(symbol, 't') {
                        match mexp_vec_to_term_vec(body) {
                            Ok(ts) => Ok(Prop { name: string_from(symbol), args: ts }),
                            Err(e) => Err(e),
                        }
                    } else {
                        prop_name_error(symbol, *span).wrap_in_err()
                    }
                },
                _ => syntax_error_at(*span).wrap_in_err(),
            }
        },
        _ => syntax_error_at(mexp.span()).wrap_in_err(),
    }
}

proof fn lemma_props_of_stays_err(ms: Seq<MexpView>, j: int, k: int)
    requires
        0 <= j <= k <= ms.len(),
        props_of(ms.take(j)) is Err,
    ensures
        props_of(ms.take(k)) == props_of(ms.take(j)),
    decreases k - j,
{
    if j < k {
        lemma_props_of_stays_err(ms, j, k - 1);
        assert(ms.take(k).drop_last() =~= ms.take(k - 1));
    }
}

/// Reads propositions one by one, up to the first error.
pub fn mexp_vec_to_prop_vec<'a>(mexp_vec: &Vec<Mexp<'a>>) -> (r: Result<Vec<Prop>, ErrorInCtx>)
    ensures
        result_view(r, |ps: Vec<Prop>| props_view(ps@)) == props_of(mexps_view(mexp_vec@)),
{
    let ghost ms = mexps_view(mexp_vec@);
    proof {
        lemma_mexps_view_len(mexp_vec@);
        assert(ms.take(0) =~= Seq::<MexpView>::empty());
        assert(props_view(Seq::<Prop>::empty()) =~= Seq::<PropView>::empty());
    }
    let mut vec: Vec<Prop> = Vec::new();
    let mut i: usize = 0;
    while i < mexp_vec.len()
        invariant
            i <= mexp_vec@.len(),
            ms == mexps_view(mexp_vec@),
            ms.len() == mexp_vec@.len(),
            props_of(ms.take(i as int)) == Ok::<Seq<PropView>, ErrorInCtxView>(props_view(vec@)),
        decreases mexp_vec@.len() - i,
    {
        let r = mexp_to_prop(&mexp_vec[i]);
        proof {
            lemma_mexps_view_index(mexp_vec@, i as int);
            assert(ms.take(i + 1).drop_last() =~= ms.take(i as int));
            assert(ms.take(i + 1).last() == mexp_view(mexp_vec@[i as int]));
        }
        match r {
            Ok(p) => {
                let ghost before = vec@;
                vec.push(p);
                proof {
                    assert(props_view(vec@) =~= props_view(before).push(prop_view(p)));
                }
            },
            Err(e) => {
                proof {
                    lemma_props_of_stays_err(ms, i + 1, ms.len() as int);
                    assert(ms.take(ms.len() as int) =~= ms);
                }
                return Err(e);
            },
        }
        i = i + 1;
    }
    proof {
        assert(ms.take(ms.len() as int) =~= ms);
    }
    Ok(vec)
}

proof fn lemma_prop_names_of_stays_err(ms: Seq<MexpView>, j: int, k: int)
    requires
        0 <= j <= k <= ms.len(),
        prop_names_of(ms.take(j)) is Err,
    ensures
        prop_names_of(ms.take(k)) == prop_names_of(ms.take(j)),
    decreases k - j,
{
    if j < k {
        lemma_prop_names_of_stays_err(ms, j, k - 1);
        assert(ms.take(k).drop_last() =~= ms.take(k - 1));
    }
}

/// Reads proposition names one by one, up to the first error.
pub fn mexp_vec_to_prop_name_vec<'a>(mexp_vec: &Vec<Mexp<'a>>) -> (r: Result<Vec<String>, ErrorInCtx>)
    ensures
        result_view(r, |ns: Vec<String>| names_view(ns@)) == prop_names_of(mexps_view(mexp_vec@)),
{
    let ghost ms = mexps_view(mexp_vec@);
    proof {
        lemma_mexps_view_len(mexp_vec@);
        assert(ms.take(0) =~= Seq::<MexpView>::empty());
        assert(names_view(Seq::<String>::empty()) =~= Seq::<Seq<char>>::empty());
    }
    let mut vec: Vec<String> = Vec::new();
    let mut i: usize = 0;
    while i < mexp_vec.len()
        invariant
            i <= mexp_vec@.len(),
            ms == mexps_view(mexp_vec@),
            ms.len() == mexp_vec@.len(),
            prop_names_of(ms.take(i as int)) == Ok::<Seq<Seq<char>>, ErrorInCtxView>(names_view(vec@)),
        decreases mexp_vec@.len() - i,
    {
        let r = mexp_to_prop_name(&mexp_vec[i]);
        proof {
            lemma_mexps_view_index(mexp_vec@, i as int);
            assert(ms.take(i + 1).drop_last() =~= ms.take(i as int));
            assert(ms.take(i + 1).last() == mexp_view(mexp_vec@[i as int]));
        }
        match r {
            Ok(n) => {
                let ghost before = vec@;
                vec.push(n);
                proof {
                    assert(names_view(vec@) =~= names_view(before).push(n@));
                }
            },
            Err(e) => {
                proof {
                    lemma_prop_names_of_stays_err(ms, i + 1, ms.len() as int);
                    assert(ms.take(ms.len() as int) =~= ms);
                }
                return Err(e);
            },
        }
        i = i + 1;
    }
    proof {
        assert(ms.take(ms.len() as int) =~= ms);
    }
    Ok(vec)
}

/// Reads a disjunction: `disj (names)`.
pub fn mexp_to_disj_den<'a>(mexp: &Mexp<'a>) -> (r: Result<Den, ErrorInCtx>)
    ensures
        result_view(r, |d: Den| d@) == disj_den_of(mexp@),
{
    match tuple_apply_body(mexp, "disj") {
        Some(body) => match mexp_vec_to_prop_name_vec(body) {
            Ok(ns) => Ok(Den::Disj(ns)),
            Err(e) => Err(e),
        },
        None => syntax_error_at(mexp.span()).wrap_in_err(),
    }
}

/// Reads a pattern: `conj (terms) { props }`.
pub fn mexp_to_conj_den<'a>(mexp: &Mexp<'a>) -> (r: Result<Den, ErrorInCtx>)
    ensures
        result_view(r, |d: Den| d@) == conj_den_of(mexp@),
{
    match counted_parts(mexp, "conj") {
        Some((body1, body2)) => {
            let ts = match mexp_vec_to_term_vec(body1) {
                Ok(ts) => ts,
                Err(e) => {
                    return Err(e);
                },
            };
            match mexp_vec_to_prop_vec(body2) {
                Ok(ps) => Ok(Den::Conj(ts, ps)),
                Err(e) => Err(e),
            }
        },
        None => syntax_error_at(mexp.span()).wrap_in_err(),
    }
}

/// Reads a denotation: a disjunction, else a pattern.
pub fn mexp_to_den<'a>(mexp: &Mexp<'a>) -> (r: Result<Den, ErrorInCtx>)
    ensures
        result_view(r, |d: Den| d@) == den_of(mexp@),
{
    let r1 = mexp_to_disj_den(mexp);
    if r1.is_ok() {
        return r1;
    }
    mexp_to_conj_den(mexp)
}

/// Reads the statement `name-t = den`.
pub fn mexp_to_den_statement<'a>(mexp: &Mexp<'a>) -> (r: Result<Statement, ErrorInCtx>)
    ensures
        result_view(r, |st: Statement| st@) == den_statement_of(mexp@),
{
    match named_def_parts(mexp) {
        Some((name, rhs)) => {
            if ends_with_dash_p(name, 't') {
                match mexp_to_den(rhs) {
                    Ok(d) => Ok(Statement::Den(string_from(name), d)),
                    Err(e) => Err(e),
                }
            } else {
                prop_name_error(name, mexp.span()).wrap_in_err()
            }
        },
        None => syntax_error_at(mexp.span()).wrap_in_err(),
    }
}

fn mexp_to_counted_statement<'a>(mexp: &Mexp<'a>, is_prove: bool) -> (r: Result<Statement, ErrorInCtx>)
    ensures
        result_view(r, |st: Statement| st@) == counted_statement_of(mexp@, is_prove),
{
    let kw = if is_prove { "prove" } else { "query" };
    match counted_parts(mexp, kw) {
        Some((body1, body2)) => {
            proof {
                lemma_mexps_view_len(body1@);
                if body1@.len() == 1 {
                    lemma_mexps_view_index(body1@, 0);
                }
            }
            if body1.len() == 1 {
                if let Mexp::Sym { symbol, .. } = &body1[0] {
                    return match parse_usize(symbol) {
                        None => {
                            let line = if is_prove {
                                string_from("fail to parse usize num in `prove`")
                            } else {
                                string_from("fail to parse usize num in `prop`")
                            };
                            make_err(None, lines2(line, labeled("symbol = ", symbol)), mexp.span(), true).wrap_in_err()
                        },
                        Some(n) => match mexp_vec_to_prop_vec(body2) {
                            Ok(ps) => {
                                if is_prove {
                                    Ok(Statement::Prove(n, ps))
                                } else {
                                    Ok(Statement::Query(n, ps))
                                }
                            },
                            Err(e) => Err(e),
                        },
                    };
                }
            }
            make_err(None, lines1(string_from("fail to parse prop's first arg")), mexp.span(), true).wrap_in_err()
        },
        None => syntax_error_at(mexp.span()).wrap_in_err(),
    }
}

/// Reads the statement `query (count) { props }`.
pub fn mexp_to_prop_statement<'a>(mexp: &Mexp<'a>) -> (r: Result<Statement, ErrorInCtx>)
    ensures
        result_view(r, |st: Statement| st@) == counted_statement_of(mexp@, false),
{
    mexp_to_counted_statement(mexp, false)
}

/// Reads the statement `prove (count) { props }`.
pub fn mexp_to_prove_statement<'a>(mexp: &Mexp<'a>) -> (r: Result<Statement, ErrorInCtx>)
    ensures
        result_view(r, |st: Statement| st@) == counted_statement_of(mexp@, true),
{
    mexp_to_counted_statement(mexp, true)
}

/// Reads a statement: the first of a denotation, a query and a search
/// that reads.
pub fn mexp_to_statement<'a>(mexp: &Mexp<'a>) -> (r: Result<Statement, ErrorInCtx>)
    ensures
        result_view(r, |st: Statement| st@) == statement_of(mexp@),
{
    let r1 = mexp_to_den_statement(mexp);
    if r1.is_ok() {
        return r1;
    }
    let r2 = mexp_to_prop_statement(mexp);
    if r2.is_ok() {
        return r2;
    }
    mexp_to_prove_statement(mexp)
}

proof fn lemma_statements_of_stays_err(ms: Seq<MexpView>, j: int, k: int)
    requires
        0 <= j <= k <= ms.len(),
        statements_of(ms.take(j)) is Err,
    ensures
        statements_of(ms.take(k)) == statements_of(ms.take(j)),
    decreases k - j,
{
    if j < k {
        lemma_statements_of_stays_err(ms, j, k - 1);
        assert(ms.take(k).drop_last() =~= ms.take(k - 1));
    }
}

/// Reads statements one by one, up to the first error.
pub fn mexp_vec_to_statement_vec<'a>(mexp_vec: &Vec<Mexp<'a>>) -> (r: Result<Vec<Statement>, ErrorInCtx>)
    ensures
        result_view(r, |ss: Vec<Statement>| ss@.map_values(|st: Statement| st@)) == statements_of(mexps_view(mexp_vec@)),
{
    let ghost ms = mexps_view(mexp_vec@);
    proof {
        lemma_mexps_view_len(mexp_vec@);
        assert(ms.take(0) =~= Seq::<MexpView>::empty());
    }
    let mut vec: Vec<Statement> = Vec::new();
    let mut i: usize = 0;
    proof {
        assert(vec@.map_values(|st: Statement| st@) =~= Seq::<StatementView>::empty());
    }
    while i < mexp_vec.len()
        invariant
            i <= mexp_vec@.len(),
            ms == mexps_view(mexp_vec@),
            ms.len() == mexp_vec@.len(),
            statements_of(ms.take(i as int)) == Ok::<Seq<StatementView>, ErrorInCtxView>(vec@.map_values(|st: Statement| st@)),
        decreases mexp_vec@.len() - i,
    {
        let r = mexp_to_statement(&mexp_vec[i]);
        proof {
            lemma_mexps_view_index(mexp_vec@, i as int);
            assert(ms.take(i + 1).drop_last() =~= ms.take(i as int));
            assert(ms.take(i + 1).last() == mexp_view(mexp_vec@[i as int]));
        }
        match r {
            Ok(st) => {
                let ghost before = vec@;
                vec.push(st);
                proof {
                    assert(vec@.map_values(|x: Statement| x@) =~= before.map_values(|x: Statement| x@).push(st@));
                }
            },
            Err(e) => {
                proof {
                    lemma_statements_of_stays_err(ms, i + 1, ms.len() as int);
                    assert(ms.take(ms.len() as int) =~= ms);
                }
                return Err(e);
            },
        }
        i = i + 1;
    }
    proof {
        assert(ms.take(ms.len() as int) =~= ms);
    }
    Ok(vec)
}

/// Whether `bs2` is `bs` with bindings put before them.
pub open spec fn extends(bs: Seq<(VarView, TermView)>, bs2: Seq<(VarView, TermView)>) -> bool {
    bs.len() <= bs2.len() && bs2.subrange(bs2.len() - bs.len(), bs2.len() as int) == bs
}

proof fn lemma_extends_refl(bs: Seq<(VarView, TermView)>)
    ensures
        extends(bs, bs),
{
    assert(bs.subrange(0, bs.len() as int) =~= bs);
}

proof fn lemma_extends_cons(bs: Seq<(VarView, TermView)>, b: (VarView, TermView))
    ensures
        extends(bs, seq![b] + bs),
{
    let c = seq![b] + bs;
    assert(c.subrange(c.len() - bs.len(), c.len() as int) =~= bs);
}

proof fn lemma_extends_trans(a: Seq<(VarView, TermView)>, b: Seq<(VarView, TermView)>, c: Seq<(VarView, TermView)>)
    requires
        extends(a, b),
        extends(b, c),
    ensures
        extends(a, c),
{
    let sb = c.subrange(c.len() - b.len(), c.len() as int);
    let sa = b.subrange(b.len() - a.len(), b.len() as int);
    assert forall|k: int| 0 <= k < a.len() implies #[trigger] c.subrange(c.len() - a.len(), c.len() as int)[k] == a[k] by {
        assert(sb[b.len() - a.len() + k] == c[c.len() - a.len() + k]);
        assert(sa[k] == b[b.len() - a.len() + k]);
    }
    assert(c.subrange(c.len() - a.len(), c.len() as int) =~= a);
}

proof fn lemma_unify_extends(bs: Seq<(VarView, TermView)>, u: TermView, v: TermView, fuel: nat)
    requires
        unify_fuel(bs, u, v, fuel) matches Some(Some(_)),
    ensures
        extends(bs, unify_fuel(bs, u, v, fuel)->Some_0->Some_0),
    decreases fuel, 0nat,
{
    let wu = walk_fuel(bs, u, fuel);
    let wv = walk_fuel(bs, v, fuel);
    lemma_extends_refl(bs);
    if wu is Var && wv is Var && wu == wv {
    } else if wu is Var {
        lemma_extends_cons(bs, (wu->Var_0, wv));
    } else if wv is Var {
        lemma_extends_cons(bs, (wv->Var_0, wu));
    } else {
        lemma_unify_list_extends(bs, wu->Cons_1, wv->Cons_1, 0, (fuel - 1) as nat);
    }
}

proof fn lemma_unify_list_extends(bs: Seq<(VarView, TermView)>, us: Seq<TermView>, vs: Seq<TermView>, i: int, fuel: nat)
    requires
        unify_list(bs, us, vs, i, fuel) matches Some(Some(_)),
    ensures
        extends(bs, unify_list(bs, us, vs, i, fuel)->Some_0->Some_0),
    decreases fuel, 1nat + (if i < us.len() { (us.len() - i) as nat } else { 0nat }),
{
    if i < 0 || i >= us.len() || i >= vs.len() {
        lemma_extends_refl(bs);
    } else {
        let b1 = unify_fuel(bs, us[i], vs[i], fuel)->Some_0->Some_0;
        lemma_unify_extends(bs, us[i], vs[i], fuel);
        lemma_unify_list_extends(b1, us, vs, i + 1, fuel);
        lemma_extends_trans(bs, b1, unify_list(bs, us, vs, i, fuel)->Some_0->Some_0);
    }
}

/// Unifying, where it ends and succeeds, keeps every binding: what comes
/// back is the given bindings with new ones put before them.
pub proof fn law_unify_keeps(bs: Seq<(VarView, TermView)>, u: TermView, v: TermView)
    requires
        unify_ends(bs, u, v),
        unify_spec(bs, u, v) is Some,
    ensures
        extends(bs, unify_spec(bs, u, v)->Some_0),
{
    let fuel = choose|fuel: nat| #[trigger] unify_fuel(bs, u, v, fuel) is Some;
    lemma_unify_extends(bs, u, v, fuel);
}

proof fn lemma_unify_self(bs: Seq<(VarView, TermView)>, t: TermView, fuel: nat)
    requires
        unify_fuel(bs, t, t, fuel) is Some,
    ensures
        unify_fuel(bs, t, t, fuel) == Some(Some(bs)),
    decreases fuel, 0nat,
{
    let w = walk_fuel(bs, t, fuel);
    if !(w is Var) {
        lemma_unify_list_self(bs, w->Cons_1, 0, (fuel - 1) as nat);
    }
}

proof fn lemma_unify_list_self(bs: Seq<(VarView, TermView)>, ts: Seq<TermView>, i: int, fuel: nat)
    requires
        0 <= i,
        unify_list(bs, ts, ts, i, fuel) is Some,
    ensures
        unify_list(bs, ts, ts, i, fuel) == Some(Some(bs)),
    decreases fuel, 1nat + (if i < ts.len() { (ts.len() - i) as nat } else { 0nat }),
{
    if i < ts.len() {
        lemma_unify_self(bs, ts[i], fuel);
        lemma_unify_list_self(bs, ts, i + 1, fuel);
    }
}

/// Unifying a term with itself, where it ends, succeeds and binds nothing
/// new.
pub proof fn law_unify_self(bs: Seq<(VarView, TermView)>, t: TermView)
    requires
        unify_ends(bs, t, t),
    ensures
        unify_spec(bs, t, t) == Some(bs),
{
    let fuel = choose|fuel: nat| #[trigger] unify_fuel(bs, t, t, fuel) is Some;
    lemma_unify_self(bs, t, fuel);
}

/// Whether every variable that `bs` binds is bound by `bs2` to the same
/// term.
pub open spec fn keeps(bs: Seq<(VarView, TermView)>, bs2: Seq<(VarView, TermView)>) -> bool {
    forall|x: VarView| #[trigger] find_spec(bs, x) is Some ==> find_spec(bs2, x) == find_spec(bs, x)
}

/// Whether every walk that ends in `bs` still ends in `bs2`.
pub open spec fn ends_kept(bs: Seq<(VarView, TermView)>, bs2: Seq<(VarView, TermView)>) -> bool {
    forall|t: TermView| #[trigger] walk_ends(bs, t) ==> walk_ends(bs2, t)
}

proof fn lemma_walk_stays(bs: Seq<(VarView, TermView)>, t: TermView, f: nat, k: nat)
    requires
        !bound(bs, walk_fuel(bs, t, f)),
    ensures
        walk_fuel(bs, t, f + k) == walk_fuel(bs, t, f),
    decreases f,
{
    if f > 0 && bound(bs, t) {
        let next = find_spec(bs, t->Var_0)->Some_0;
        lemma_walk_stays(bs, next, (f - 1) as nat, k);
        assert(walk_fuel(bs, t, f + k) == walk_fuel(bs, next, (f + k - 1) as nat));
        assert((f + k - 1) as nat == (f - 1) as nat + k);
    }
}

proof fn lemma_walk_settled_at(bs: Seq<(VarView, TermView)>, t: TermView, f: nat)
    requires
        !bound(bs, walk_fuel(bs, t, f)),
    ensures
        walk_ends(bs, t),
        walk_spec(bs, t) == walk_fuel(bs, t, f),
        !bound(bs, walk_spec(bs, t)),
{
    let g = choose|fuel: nat| !bound(bs, #[trigger] walk_fuel(bs, t, fuel));
    assert(!bound(bs, walk_fuel(bs, t, g)));
    if g <= f {
        lemma_walk_stays(bs, t, g, (f - g) as nat);
    } else {
        lemma_walk_stays(bs, t, f, (g - f) as nat);
    }
}

proof fn lemma_walk_free(bs: Seq<(VarView, TermView)>, t: TermView)
    requires
        !bound(bs, t),
    ensures
        walk_ends(bs, t),
        walk_spec(bs, t) == t,
{
    lemma_walk_settled_at(bs, t, 0);
}

proof fn lemma_walk_ended(bs: Seq<(VarView, TermView)>, t: TermView)
    requires
        walk_ends(bs, t),
    ensures
        !bound(bs, walk_spec(bs, t)),
{
    let g = choose|fuel: nat| !bound(bs, #[trigger] walk_fuel(bs, t, fuel));
    lemma_walk_settled_at(bs, t, g);
}

proof fn lemma_walk_step(bs: Seq<(VarView, TermView)>, t: TermView)
    requires
        bound(bs, t),
        walk_ends(bs, t),
    ensures
        walk_ends(bs, find_spec(bs, t->Var_0)->Some_0),
        walk_spec(bs, t) == walk_spec(bs, find_spec(bs, t->Var_0)->Some_0),
{
    let next = find_spec(bs, t->Var_0)->Some_0;
    let g = choose|fuel: nat| !bound(bs, #[trigger] walk_fuel(bs, t, fuel));
    assert(!bound(bs, walk_fuel(bs, t, g)));
    assert(g > 0);
    assert(walk_fuel(bs, t, g) == walk_fuel(bs, next, (g - 1) as nat));
    lemma_walk_settled_at(bs, next, (g - 1) as nat);
    lemma_walk_settled_at(bs, t, g);
}

proof fn lemma_find_insert(bs: Seq<(VarView, TermView)>, a: VarView, w: TermView, x: VarView)
    ensures
        find_spec(seq![(a, w)] + bs, x) == (if x == a { Some(w) } else { find_spec(bs, x) }),
{
    let bs2 = seq![(a, w)] + bs;
    assert(bs2.drop_first() =~= bs);
    assert(bs2[0] == (a, w));
}

proof fn lemma_walk_insert_other(bs: Seq<(VarView, TermView)>, a: VarView, w: TermView, t: TermView, f: nat)
    requires
        find_spec(bs, a) is None,
        !bound(bs, walk_fuel(bs, t, f)),
        walk_fuel(bs, t, f) != TermView::Var(a),
    ensures
        walk_fuel(seq![(a, w)] + bs, t, f) == walk_fuel(bs, t, f),
    decreases f,
{
    let bs2 = seq![(a, w)] + bs;
    if t is Var {
        lemma_find_insert(bs, a, w, t->Var_0);
    }
    if f > 0 && bound(bs, t) {
        let next = find_spec(bs, t->Var_0)->Some_0;
        lemma_walk_insert_other(bs, a, w, next, (f - 1) as nat);
    }
}

proof fn lemma_walk_insert_hit(bs: Seq<(VarView, TermView)>, a: VarView, w: TermView, t: TermView, f: nat)
    requires
        find_spec(bs, a) is None,
        !bound(bs, w),
        w != TermView::Var(a),
        walk_fuel(bs, t, f) == TermView::Var(a),
    ensures
        walk_fuel(seq![(a, w)] + bs, t, f + 1) == w,
    decreases f,
{
    let bs2 = seq![(a, w)] + bs;
    lemma_find_insert(bs, a, w, a);
    if w is Var {
        lemma_find_insert(bs, a, w, w->Var_0);
    }
    if t is Var {
        lemma_find_insert(bs, a, w, t->Var_0);
    }
    assert(!bound(bs2, w));
    if f > 0 && bound(bs, t) {
        let next = find_spec(bs, t->Var_0)->Some_0;
        lemma_walk_insert_hit(bs, a, w, next, (f - 1) as nat);
        assert(walk_fuel(bs2, t, f + 1) == walk_fuel(bs2, next, f));
        assert((f - 1) as nat + 1 == f);
    } else {
        assert(t == TermView::Var(a));
        assert(walk_fuel(bs2, t, f + 1) == walk_fuel(bs2, w, f));
    }
}

/// Binding a variable that `bs` leaves free to a term that is not a
/// bound variable, nor that variable: every binding stays, every walk that
/// ended still ends, where it ended or, where that was the variable, at
/// the term.
proof fn lemma_insert_walks(bs: Seq<(VarView, TermView)>, a: VarView, w: TermView)
    requires
        find_spec(bs, a) is None,
        !bound(bs, w),
        w != TermView::Var(a),
    ensures
        keeps(bs, seq![(a, w)] + bs),
        ends_kept(bs, seq![(a, w)] + bs),
        forall|t: TermView| #[trigger] walk_ends(bs, t) ==> walk_spec(seq![(a, w)] + bs, t)
            == (if walk_spec(bs, t) == TermView::Var(a) { w } else { walk_spec(bs, t) }),
{
    let bs2 = seq![(a, w)] + bs;
    assert forall|x: VarView| #[trigger] find_spec(bs, x) is Some implies find_spec(bs2, x) == find_spec(bs, x) by {
        lemma_find_insert(bs, a, w, x);
    }
    assert forall|t: TermView| #[trigger] walk_ends(bs, t) implies walk_ends(bs2, t) && walk_spec(bs2, t)
        == (if walk_spec(bs, t) == TermView::Var(a) { w } else { walk_spec(bs, t) }) by {
        let g = choose|fuel: nat| !bound(bs, #[trigger] walk_fuel(bs, t, fuel));
        lemma_walk_settled_at(bs, t, g);
        let s = walk_spec(bs, t);
        if s == TermView::Var(a) {
            lemma_walk_insert_hit(bs, a, w, t, g);
            lemma_find_insert(bs, a, w, a);
            if w is Var {
                lemma_find_insert(bs, a, w, w->Var_0);
            }
            lemma_walk_settled_at(bs2, t, g + 1);
        } else {
            lemma_walk_insert_other(bs, a, w, t, g);
            if s is Var {
                lemma_find_insert(bs, a, w, s->Var_0);
            }
            lemma_walk_settled_at(bs2, t, g);
        }
    }
}

proof fn lemma_keeps_refl(bs: Seq<(VarView, TermView)>)
    ensures
        keeps(bs, bs),
        ends_kept(bs, bs),
{
}

proof fn lemma_keeps_trans(a: Seq<(VarView, TermView)>, b: Seq<(VarView, TermView)>, c: Seq<(VarView, TermView)>)
    requires
        keeps(a, b),
        keeps(b, c),
        ends_kept(a, b),
        ends_kept(b, c),
    ensures
        keeps(a, c),
        ends_kept(a, c),
{
    assert forall|x: VarView| #[trigger] find_spec(a, x) is Some implies find_spec(c, x) == find_spec(a, x) by {
        assert(find_spec(b, x) is Some);
    }
    assert forall|t: TermView| #[trigger] walk_ends(a, t) implies walk_ends(c, t) by {
        assert(walk_ends(b, t));
    }
}

proof fn lemma_walk_extend_at(bs: Seq<(VarView, TermView)>, bs2: Seq<(VarView, TermView)>, t: TermView, f: nat)
    requires
        keeps(bs, bs2),
        ends_kept(bs, bs2),
        !bound(bs, walk_fuel(bs, t, f)),
    ensures
        walk_ends(bs2, t),
        walk_spec(bs2, t) == walk_spec(bs2, walk_spec(bs, t)),
    decreases f,
{
    lemma_walk_settled_at(bs, t, f);
    assert(walk_ends(bs2, t));
    if f > 0 && bound(bs, t) {
        let next = find_spec(bs, t->Var_0)->Some_0;
        assert(find_spec(bs2, t->Var_0) == find_spec(bs, t->Var_0));
        lemma_walk_step(bs, t);
        lemma_walk_step(bs2, t);
        lemma_walk_extend_at(bs, bs2, next, (f - 1) as nat);
    } else {
        lemma_walk_free(bs, t);
    }
}

proof fn lemma_walk_extend(bs: Seq<(VarView, TermView)>, bs2: Seq<(VarView, TermView)>, t: TermView)
    requires
        keeps(bs, bs2),
        ends_kept(bs, bs2),
        walk_ends(bs, t),
    ensures
        walk_ends(bs2, t),
        walk_spec(bs2, t) == walk_spec(bs2, walk_spec(bs, t)),
{
    let g = choose|fuel: nat| !bound(bs, #[trigger] walk_fuel(bs, t, fuel));
    lemma_walk_extend_at(bs, bs2, t, g);
}

/// Whether `u` and `v` come to the same in `bs`, within `depth` levels:
/// their walks end, at one term, or at constructors of one head and
/// length whose arguments come to the same pair by pair.
pub open spec fn agree(bs: Seq<(VarView, TermView)>, u: TermView, v: TermView, depth: nat) -> bool
    decreases depth, 0nat,
{
    let wu = walk_spec(bs, u);
    let wv = walk_spec(bs, v);
    &&& walk_ends(bs, u)
    &&& walk_ends(bs, v)
    &&& {
        ||| wu == wv
        ||| depth > 0 && wu is Cons && wv is Cons && wu->Cons_0 == wv->Cons_0 && wu->Cons_1.len() == wv->Cons_1.len()
            && agree_list(bs, wu->Cons_1, wv->Cons_1, 0, (depth - 1) as nat)
    }
}

/// Whether the terms of `us` and `vs` from index `i` on come to the same
/// in `bs`, pair by pair.
pub open spec fn agree_list(bs: Seq<(VarView, TermView)>, us: Seq<TermView>, vs: Seq<TermView>, i: int, depth: nat) -> bool
    decreases depth, 1nat + (if i < us.len() { (us.len() - i) as nat } else { 0nat }),
{
    if i < 0 || i >= us.len() || i >= vs.len() {
        true
    } else {
        agree(bs, us[i], vs[i], depth) && agree_list(bs, us, vs, i + 1, depth)
    }
}

/// Whether `u` and `v` come to the same in `bs`.
pub open spec fn same_in(bs: Seq<(VarView, TermView)>, u: TermView, v: TermView) -> bool {
    exists|depth: nat| #[trigger] agree(bs, u, v, depth)
}

proof fn lemma_agree_list_all(bs: Seq<(VarView, TermView)>, us: Seq<TermView>, vs: Seq<TermView>, i: int, depth: nat)
    requires
        0 <= i,
        us.len() == vs.len(),
    ensures
        agree_list(bs, us, vs, i, depth) <==> forall|j: int| i <= j < us.len() ==> #[trigger] agree(bs, us[j], vs[j], depth),
    decreases us.len() - i,
{
    if i < us.len() {
        lemma_agree_list_all(bs, us, vs, i + 1, depth);
        if !agree(bs, us[i], vs[i], depth) {
            assert(!(forall|j: int| i <= j < us.len() ==> #[trigger] agree(bs, us[j], vs[j], depth)));
        }
    }
}

proof fn lemma_agree_extend(bs: Seq<(VarView, TermView)>, bs2: Seq<(VarView, TermView)>, u: TermView, v: TermView, depth: nat)
    requires
        keeps(bs, bs2),
        ends_kept(bs, bs2),
        agree(bs, u, v, depth),
    ensures
        agree(bs2, u, v, depth),
    decreases depth,
{
    let wu = walk_spec(bs, u);
    let wv = walk_spec(bs, v);
    lemma_walk_extend(bs, bs2, u);
    lemma_walk_extend(bs, bs2, v);
    if wu != wv {
        let us = wu->Cons_1;
        let vs = wv->Cons_1;
        let d = (depth - 1) as nat;
        lemma_walk_free(bs2, wu);
        lemma_walk_free(bs2, wv);
        lemma_agree_list_all(bs, us, vs, 0, d);
        assert forall|j: int| 0 <= j < us.len() implies #[trigger] agree(bs2, us[j], vs[j], d) by {
            assert(agree(bs, us[j], vs[j], d));
            lemma_agree_extend(bs, bs2, us[j], vs[j], d);
        }
        lemma_agree_list_all(bs2, us, vs, 0, d);
    }
}

proof fn lemma_unify_sound(bs: Seq<(VarView, TermView)>, u: TermView, v: TermView, fuel: nat)
    requires
        unify_fuel(bs, u, v, fuel) matches Some(Some(_)),
    ensures
        keeps(bs, unify_fuel(bs, u, v, fuel)->Some_0->Some_0),
        ends_kept(bs, unify_fuel(bs, u, v, fuel)->Some_0->Some_0),
        agree(unify_fuel(bs, u, v, fuel)->Some_0->Some_0, u, v, fuel),
    decreases fuel, 0nat,
{
    let wu = walk_fuel(bs, u, fuel);
    let wv = walk_fuel(bs, v, fuel);
    let bs2 = unify_fuel(bs, u, v, fuel)->Some_0->Some_0;
    lemma_walk_settled_at(bs, u, fuel);
    lemma_walk_settled_at(bs, v, fuel);
    if wu is Var && wv is Var && wu == wv {
        assert(bs2 == bs);
        lemma_keeps_refl(bs);
    } else if wu is Var {
        let a = wu->Var_0;
        assert(bs2 == seq![(a, wv)] + bs);
        lemma_insert_walks(bs, a, wv);
        assert(walk_ends(bs, u) && walk_ends(bs, v));
        assert(walk_spec(bs2, u) == wv);
        assert(walk_spec(bs2, v) == wv);
    } else if wv is Var {
        let b = wv->Var_0;
        assert(bs2 == seq![(b, wu)] + bs);
        lemma_insert_walks(bs, b, wu);
        assert(walk_ends(bs, u) && walk_ends(bs, v));
        assert(walk_spec(bs2, u) == wu);
        assert(walk_spec(bs2, v) == wu);
    } else {
        let us = wu->Cons_1;
        let vs = wv->Cons_1;
        let d = (fuel - 1) as nat;
        assert(bs2 == unify_list(bs, us, vs, 0, d)->Some_0->Some_0);
        lemma_unify_list_sound(bs, us, vs, 0, d);
        lemma_walk_extend(bs, bs2, u);
        lemma_walk_extend(bs, bs2, v);
        lemma_walk_free(bs2, wu);
        lemma_walk_free(bs2, wv);
        lemma_agree_list_all(bs2, us, vs, 0, d);
    }
}

proof fn lemma_unify_list_sound(bs: Seq<(VarView, TermView)>, us: Seq<TermView>, vs: Seq<TermView>, i: int, fuel: nat)
    requires
        0 <= i,
        us.len() == vs.len(),
        unify_list(bs, us, vs, i, fuel) matches Some(Some(_)),
    ensures
        keeps(bs, unify_list(bs, us, vs, i, fuel)->Some_0->Some_0),
        ends_kept(bs, unify_list(bs, us, vs, i, fuel)->Some_0->Some_0),
        forall|j: int| i <= j < us.len() ==> #[trigger] agree(unify_list(bs, us, vs, i, fuel)->Some_0->Some_0, us[j], vs[j], fuel),
    decreases fuel, 1nat + (if i < us.len() { (us.len() - i) as nat } else { 0nat }),
{
    if i >= us.len() {
        lemma_keeps_refl(bs);
    } else {
        let b1 = unify_fuel(bs, us[i], vs[i], fuel)->Some_0->Some_0;
        let b2 = unify_list(bs, us, vs, i, fuel)->Some_0->Some_0;
        lemma_unify_sound(bs, us[i], vs[i], fuel);
        lemma_unify_list_sound(b1, us, vs, i + 1, fuel);
        assert(b2 == unify_list(b1, us, vs, i + 1, fuel)->Some_0->Some_0);
        lemma_keeps_trans(bs, b1, b2);
        lemma_agree_extend(b1, b2, us[i], vs[i], fuel);
        assert forall|j: int| i <= j < us.len() implies #[trigger] agree(b2, us[j], vs[j], fuel) by {
            if j > i {
                assert(agree(unify_list(b1, us, vs, i + 1, fuel)->Some_0->Some_0, us[j], vs[j], fuel));
            }
        }
    }
}

/// Applying a conjunction to the arguments of a proposition proves it
/// against the conjunction's pattern: where it gives bindings, they keep
/// those it was given, make each argument come to the same as the term of
/// the pattern in its place, and ask for the conjunction's propositions
/// next.
pub proof fn law_apply_sound(terms: Seq<TermView>, props: Seq<PropView>, args: Seq<TermView>, bs: Seq<(VarView, TermView)>, fuel: nat)
    requires
        apply_fuel(DenView::Conj(terms, props), args, bs, fuel) matches Some(Some(_)),
    ensures
        apply_fuel(DenView::Conj(terms, props), args, bs, fuel) matches Some(Some((rows, bs2)))
            && rows == seq![props] && keeps(bs, bs2)
            && forall|j: int| 0 <= j < args.len() ==> #[trigger] same_in(bs2, args[j], terms[j]),
{
    lemma_unify_list_sound(bs, args, terms, 0, fuel);
    let bs2 = unify_list(bs, args, terms, 0, fuel)->Some_0->Some_0;
    assert forall|j: int| 0 <= j < args.len() implies #[trigger] same_in(bs2, args[j], terms[j]) by {
        assert(agree(bs2, args[j], terms[j], fuel));
    }
}

/// Unifying makes the two terms come to the same: where unifying `u` and
/// `v` ends with bindings, those bind every variable the given bindings
/// bind to the same term, every walk that ended still ends, and `u` and
/// `v` come to the same in them.
pub proof fn law_unify_sound(bs: Seq<(VarView, TermView)>, u: TermView, v: TermView)
    requires
        unify_ends(bs, u, v),
        unify_spec(bs, u, v) is Some,
    ensures
        keeps(bs, unify_spec(bs, u, v)->Some_0),
        ends_kept(bs, unify_spec(bs, u, v)->Some_0),
        same_in(unify_spec(bs, u, v)->Some_0, u, v),
{
    let fuel = choose|fuel: nat| #[trigger] unify_fuel(bs, u, v, fuel) is Some;
    lemma_unify_sound(bs, u, v, fuel);
    assert(agree(unify_spec(bs, u, v)->Some_0, u, v, fuel));
}

/// The tree of a deduction: the name of the pattern used, how many
/// propositions it asked for, and the subtrees that proved them so far.
#[derive(Debug, PartialEq, Eq)]
pub struct DeductionTree {
    pub conj_name: String,
    pub arity: usize,
    pub body: Vec<DeductionTree>,
}

/// What a deduction tree is.
pub struct TreeView {
    pub name: Seq<char>,
    pub arity: usize,
    pub body: Seq<TreeView>,
}

/// The view of a deduction tree.
pub open spec fn tree_view(t: DeductionTree) -> TreeView
    decreases t, 1nat,
{
    TreeView { name: t.conj_name@, arity: t.arity, body: trees_view(t.body@) }
}

/// The views of deduction trees.
pub open spec fn trees_view(ts: Seq<DeductionTree>) -> Seq<TreeView>
    decreases ts, 0nat,
{
    if ts.len() == 0 {
        Seq::empty()
    } else {
        trees_view(ts.drop_last()).push(tree_view(ts.last()))
    }
}

proof fn lemma_trees_view_push(ts: Seq<DeductionTree>, t: DeductionTree)
    ensures
        trees_view(ts.push(t)) == trees_view(ts).push(tree_view(t)),
{
    assert(ts.push(t).drop_last() =~= ts);
}

proof fn lemma_trees_view_len(ts: Seq<DeductionTree>)
    ensures
        trees_view(ts).len() == ts.len(),
    decreases ts.len(),
{
    if ts.len() > 0 {
        lemma_trees_view_len(ts.drop_last());
    }
}

proof fn lemma_trees_view_drop_last(ts: Seq<DeductionTree>)
    requires
        ts.len() > 0,
    ensures
        trees_view(ts.drop_last()) == trees_view(ts).drop_last(),
        trees_view(ts).last() == tree_view(ts.last()),
        trees_view(ts).len() == ts.len(),
    decreases ts.len(),
{
    if ts.len() > 1 {
        lemma_trees_view_drop_last(ts.drop_last());
    } else {
        assert(ts.drop_last() =~= Seq::<DeductionTree>::empty());
    }
    assert(trees_view(ts).drop_last() =~= trees_view(ts.drop_last()));
}

/// Whether a tree has all the subtrees it asked for.
pub open spec fn full(t: TreeView) -> bool {
    t.body.len() == t.arity
}

/// The stack of trees after the tree `last` is put on top of `rest`: while
/// the top is full and a tree lies below it, the top becomes the last
/// subtree of the tree below.
pub open spec fn converged(rest: Seq<TreeView>, last: TreeView) -> Seq<TreeView>
    decreases rest.len(),
{
    if rest.len() > 0 && full(last) {
        let next = rest.last();
        converged(rest.drop_last(), TreeView { name: next.name, arity: next.arity, body: next.body.push(last) })
    } else {
        rest.push(last)
    }
}

impl DeductionTree {
    /// Whether the tree has all the subtrees it asked for.
    pub fn full_p(&self) -> (r: bool)
        ensures
            r == full(tree_view(*self)),
    {
        proof {
            lemma_trees_len(self.body@);
        }
        self.body.len() == self.arity
    }
}

proof fn lemma_trees_len(ts: Seq<DeductionTree>)
    ensures
        trees_view(ts).len() == ts.len(),
    decreases ts.len(),
{
    if ts.len() > 0 {
        lemma_trees_len(ts.drop_last());
    }
}

/// Folds the full trees on top of the stack into the trees below them.
pub fn converge_deduction_tree(tree_stack: &mut Vec<DeductionTree>)
    requires
        old(tree_stack)@.len() > 0,
    ensures
        trees_view(final(tree_stack)@) == converged(trees_view(old(tree_stack)@).drop_last(), trees_view(old(tree_stack)@).last()),
{
    proof {
        lemma_trees_view_drop_last(tree_stack@);
    }
    let ghost goal = converged(trees_view(tree_stack@).drop_last(), trees_view(tree_stack@).last());
    let mut last = tree_stack.pop().unwrap();
    loop
        invariant
            converged(trees_view(tree_stack@), tree_view(last)) == goal,
        ensures
            trees_view(tree_stack@).push(tree_view(last)) == goal,
        decreases tree_stack@.len(),
    {
        proof {
            lemma_trees_len(tree_stack@);
        }
        if tree_stack.len() > 0 && last.full_p() {
            proof {
                lemma_trees_view_drop_last(tree_stack@);
            }
            let ghost lv = tree_view(last);
            let mut next = tree_stack.pop().unwrap();
            let ghost old_body = next.body@;
            next.body.push(last);
            proof {
                lemma_trees_view_push(old_body, last);
            }
            last = next;
        } else {
            break;
        }
    }
    let ghost before = tree_stack@;
    proof {
        lemma_trees_view_push(before, last);
    }
    tree_stack.push(last);
}

/// Records that the proposition `prop` was taken up by `den`: a pattern
/// opens a tree asking for its propositions, and full trees fold into the
/// trees below them; a disjunction leaves the stack as it was.
pub fn record_deduction_step(tree_stack: &mut Vec<DeductionTree>, prop: &Prop, den: &Den)
    ensures
        match den@ {
            DenView::Conj(_, props) => trees_view(final(tree_stack)@) == converged(
                trees_view(old(tree_stack)@),
                TreeView { name: prop@.name, arity: props.len() as usize, body: Seq::empty() },
            ),
            DenView::Disj(_) => final(tree_stack)@ == old(tree_stack)@,
        },
{
    if let Den::Conj(_, prop_vec) = den {
        let t = DeductionTree { conj_name: copy_string(&prop.name), arity: prop_vec.len(), body: Vec::new() };
        let ghost before = tree_stack@;
        proof {
            lemma_trees_view_push(before, t);
            assert(trees_view(Seq::<DeductionTree>::empty()) =~= Seq::<TreeView>::empty());
            assert(props_view(prop_vec@).len() == prop_vec@.len());
        }
        tree_stack.push(t);
        proof {
            lemma_trees_view_drop_last(tree_stack@);
            assert(tree_stack@.drop_last() =~= before);
        }
        converge_deduction_tree(tree_stack);
    }
}

/// The text of a deduction tree: its name, then its subtrees in braces.
pub open spec fn tree_text(t: TreeView) -> Seq<char>
    decreases t, 1nat,
{
    t.name + seq![' ', '{', ' '] + trees_text(t.body) + seq![' ', '}']
}

/// The texts of trees separated by spaces.
pub open spec fn trees_text(ts: Seq<TreeView>) -> Seq<char>
    decreases ts, 0nat,
{
    if ts.len() == 0 {
        Seq::empty()
    } else if ts.len() == 1 {
        tree_text(ts[0])
    } else {
        trees_text(ts.drop_last()) + seq![' '] + tree_text(ts.last())
    }
}

fn write_tree(t: &DeductionTree, s: &mut String)
    ensures
        final(s)@ == old(s)@ + tree_text(tree_view(*t)),
    decreases t, 1nat,
{
    push_str(s, t.conj_name.as_str());
    push_char(s, ' ');
    push_char(s, '{');
    push_char(s, ' ');
    let ghost start = s@;
    let mut i: usize = 0;
    proof {
        assert(trees_view(t.body@.take(0)) =~= Seq::<TreeView>::empty());
        assert(start + Seq::<char>::empty() =~= start);
    }
    while i < t.body.len()
        invariant
            i <= t.body@.len(),
            s@ == start + trees_text(trees_view(t.body@.take(i as int))),
        decreases t.body@.len() - i,
    {
        assert(decreases_to!(t => t.body@[i as int]));
        if i > 0 {
            push_char(s, ' ');
        }
        write_tree(&t.body[i], s);
        proof {
            let ts = trees_view(t.body@.take(i as int));
            assert(t.body@.take(i + 1) =~= t.body@.take(i as int).push(t.body@[i as int]));
            lemma_trees_view_push(t.body@.take(i as int), t.body@[i as int]);
            lemma_trees_len(t.body@.take(i as int));
            let ts2 = ts.push(tree_view(t.body@[i as int]));
            assert(ts2.drop_last() =~= ts);
            if i == 0 {
                assert(ts2[0] == tree_view(t.body@[i as int]));
            }
        }
        i = i + 1;
    }
    proof {
        assert(t.body@.take(t.body@.len() as int) =~= t.body@);
    }
    push_char(s, ' ');
    push_char(s, '}');
}

impl DeductionTree {
    /// The text of the tree.
    pub fn to_string(&self) -> (r: String)
        ensures
            r@ == tree_text(tree_view(*self)),
    {
        let mut s = String::new();
        write_tree(self, &mut s);
        s
    }
}

/// The variable that `x` is renamed to by the first pair of `m` whose
/// first variable is `x`.
pub open spec fn map_get(m: Seq<(VarView, VarView)>, x: VarView) -> Option<VarView>
    decreases m.len(),
{
    if m.len() == 0 {
        None
    } else if m[0].0 == x {
        Some(m[0].1)
    } else {
        map_get(m.drop_first(), x)
    }
}

/// A term with each variable that `m` renames replaced by its new name.
pub open spec fn renamed(m: Seq<(VarView, VarView)>, t: TermView) -> TermView
    decreases t, 1nat,
{
    match t {
        TermView::Var(x) => match map_get(m, x) {
            Some(y) => TermView::Var(y),
            None => t,
        },
        TermView::Cons(h, body) => TermView::Cons(h, renamed_list(m, body)),
    }
}

/// Terms renamed one by one.
pub open spec fn renamed_list(m: Seq<(VarView, VarView)>, ts: Seq<TermView>) -> Seq<TermView>
    decreases ts, 0nat,
{
    if ts.len() == 0 {
        Seq::empty()
    } else {
        renamed_list(m, ts.drop_last()).push(renamed(m, ts.last()))
    }
}

/// Whether `m` renames every variable of `t`.
pub open spec fn covers(m: Seq<(VarView, VarView)>, t: TermView) -> bool
    decreases t, 1nat,
{
    match t {
        TermView::Var(x) => map_get(m, x) is Some,
        TermView::Cons(_, body) => covers_list(m, body),
    }
}

/// Whether `m` renames every variable of the terms.
pub open spec fn covers_list(m: Seq<(VarView, VarView)>, ts: Seq<TermView>) -> bool
    decreases ts, 0nat,
{
    if ts.len() == 0 { true } else { covers_list(m, ts.drop_last()) && covers(m, ts.last()) }
}

/// Whether `m2` is `m` with pairs added after it, each renaming a
/// variable that `m` did not rename to a fresh variable of the same name.
pub open spec fn grows(m: Seq<(VarView, VarView)>, m2: Seq<(VarView, VarView)>) -> bool {
    &&& m.is_prefix_of(m2)
    &&& forall|i: int| m.len() <= i < m2.len() ==> #[trigger] m2[i].1.name == m2[i].0.name && m2[i].1.id is Some && m2[i].1.id->Some_0 is Uuid
    &&& forall|i: int| m.len() <= i < m2.len() ==> map_get(m2.take(i), #[trigger] m2[i].0) is None
}

proof fn lemma_map_get_prefix(m: Seq<(VarView, VarView)>, m2: Seq<(VarView, VarView)>, x: VarView)
    requires
        m.is_prefix_of(m2),
        map_get(m, x) is Some,
    ensures
        map_get(m2, x) == map_get(m, x),
    decreases m.len(),
{
    if m[0].0 != x {
        assert(m.drop_first().is_prefix_of(m2.drop_first())) by {
            assert forall|i: int| 0 <= i < m.drop_first().len() implies m.drop_first()[i] == m2.drop_first()[i] by {
                assert(m[i + 1] == m2[i + 1]);
            }
        }
        lemma_map_get_prefix(m.drop_first(), m2.drop_first(), x);
    }
}

proof fn lemma_renamed_prefix(m: Seq<(VarView, VarView)>, m2: Seq<(VarView, VarView)>, t: TermView)
    requires
        m.is_prefix_of(m2),
        covers(m, t),
    ensures
        renamed(m2, t) == renamed(m, t),
        covers(m2, t),
    decreases t, 1nat,
{
    match t {
        TermView::Var(x) => lemma_map_get_prefix(m, m2, x),
        TermView::Cons(_, body) => lemma_renamed_list_prefix(m, m2, body),
    }
}

proof fn lemma_renamed_list_prefix(m: Seq<(VarView, VarView)>, m2: Seq<(VarView, VarView)>, ts: Seq<TermView>)
    requires
        m.is_prefix_of(m2),
        covers_list(m, ts),
    ensures
        renamed_list(m2, ts) == renamed_list(m, ts),
        covers_list(m2, ts),
    decreases ts, 0nat,
{
    if ts.len() > 0 {
        lemma_renamed_list_prefix(m, m2, ts.drop_last());
        lemma_renamed_prefix(m, m2, ts.last());
    }
}

proof fn lemma_grows_trans(a: Seq<(VarView, VarView)>, b: Seq<(VarView, VarView)>, c: Seq<(VarView, VarView)>)
    requires
        grows(a, b),
        grows(b, c),
    ensures
        grows(a, c),
{
    assert forall|i: int| 0 <= i < a.len() implies a[i] == c[i] by {
        assert(a[i] == b[i]);
    }
    assert forall|i: int| a.len() <= i < c.len() implies map_get(c.take(i), #[trigger] c[i].0) is None by {
        if i < b.len() {
            assert(b[i] == c[i]);
            assert(b.take(i) =~= c.take(i));
        }
    }
    assert forall|i: int| a.len() <= i < c.len() implies #[trigger] c[i].1.name == c[i].0.name && c[i].1.id is Some && c[i].1.id->Some_0 is Uuid by {
        if i < b.len() {
            assert(b[i] == c[i]);
        }
    }
}

proof fn lemma_grows_refl(m: Seq<(VarView, VarView)>)
    ensures
        grows(m, m),
{
    assert(m.is_prefix_of(m));
}

/// The views of renaming pairs.
pub open spec fn pairs_view(m: Seq<(Var, Var)>) -> Seq<(VarView, VarView)> {
    m.map_values(|p: (Var, Var)| (p.0@, p.1@))
}

fn map_lookup(var_map: &Vec<(Var, Var)>, var: &Var) -> (r: Option<Var>)
    ensures
        match r {
            Some(y) => map_get(pairs_view(var_map@), var@) == Some(y@),
            None => map_get(pairs_view(var_map@), var@) is None,
        },
{
    let ghost m = pairs_view(var_map@);
    let mut i: usize = 0;
    proof {
        assert(m.skip(0) =~= m);
    }
    while i < var_map.len()
        invariant
            i <= var_map@.len(),
            m == pairs_view(var_map@),
            map_get(m.skip(i as int), var@) == map_get(m, var@),
        decreases var_map@.len() - i,
    {
        proof {
            assert(m.skip(i as int)[0] == m[i as int]);
            assert(m.skip(i as int).drop_first() =~= m.skip(i + 1));
        }
        if var_eq(&var_map[i].0, var) {
            return Some(copy_var(&var_map[i].1));
        }
        i = i + 1;
    }
    None
}

impl Term {
    /// The term with each variable renamed: by `var_map` where it renames
    /// it, else to a fresh variable of the same name, which `var_map` then
    /// records.
    pub fn duplicate(&self, var_map: &mut Vec<(Var, Var)>) -> (r: Term)
        ensures
            grows(pairs_view(old(var_map)@), pairs_view(final(var_map)@)),
            covers(pairs_view(final(var_map)@), self@),
            r@ == renamed(pairs_view(final(var_map)@), self@),
        decreases self, 1nat,
    {
        match self {
            Term::Var(var) => match map_lookup(var_map, var) {
                Some(dup_var) => {
                    proof {
                        lemma_grows_refl(pairs_view(var_map@));
                    }
                    Term::Var(dup_var)
                },
                None => {
                    let new_var = Var { name: copy_string(&var.name), id: Some(Id::uuid()) };
                    let ghost before = pairs_view(var_map@);
                    var_map.push((copy_var(var), copy_var(&new_var)));
                    proof {
                        let after = pairs_view(var_map@);
                        assert(after =~= before.push((var@, new_var@)));
                        assert(before.is_prefix_of(after));
                        assert(after.take(before.len() as int) =~= before);
                        lemma_map_get_push(before, var@, new_var@);
                    }
                    Term::Var(new_var)
                },
            },
            Term::Cons(cons) => {
                let body = duplicate_terms(&cons.body, var_map);
                Term::Cons(Cons { head: copy_string(&cons.head), body })
            },
        }
    }

    /// The term with each variable renamed to a fresh variable of the same
    /// name, one variable to one fresh variable.
    pub fn fresh(&self) -> (r: Term)
        ensures
            exists|m: Seq<(VarView, VarView)>| grows(Seq::empty(), m) && covers(m, self@) && r@ == renamed(m, self@),
    {
        let mut var_map: Vec<(Var, Var)> = Vec::new();
        proof {
            assert(pairs_view(var_map@) =~= Seq::<(VarView, VarView)>::empty());
        }
        self.duplicate(&mut var_map)
    }
}

proof fn lemma_map_get_push(m: Seq<(VarView, VarView)>, x: VarView, y: VarView)
    requires
        map_get(m, x) is None,
    ensures
        map_get(m.push((x, y)), x) == Some(y),
    decreases m.len(),
{
    if m.len() > 0 {
        assert(m.push((x, y)).drop_first() =~= m.drop_first().push((x, y)));
        lemma_map_get_push(m.drop_first(), x, y);
    }
}

/// Each term duplicated in turn, sharing the renaming.
pub fn duplicate_terms(v: &Vec<Term>, var_map: &mut Vec<(Var, Var)>) -> (r: Vec<Term>)
    ensures
        grows(pairs_view(old(var_map)@), pairs_view(final(var_map)@)),
        covers_list(pairs_view(final(var_map)@), terms_view(v@)),
        terms_view(r@) == renamed_list(pairs_view(final(var_map)@), terms_view(v@)),
    decreases v, 0nat,
{
    let ghost start = pairs_view(var_map@);
    let mut out: Vec<Term> = Vec::new();
    let mut i: usize = 0;
    proof {
        lemma_grows_refl(start);
        assert(terms_view(v@.take(0)) =~= Seq::<TermView>::empty());
        assert(terms_view(out@) =~= Seq::<TermView>::empty());
    }
    while i < v.len()
        invariant
            i <= v@.len(),
            grows(start, pairs_view(var_map@)),
            covers_list(pairs_view(var_map@), terms_view(v@.take(i as int))),
            terms_view(out@) == renamed_list(pairs_view(var_map@), terms_view(v@.take(i as int))),
            start == pairs_view(old(var_map)@),
        decreases v@.len() - i,
    {
        assert(decreases_to!(v => v@[i as int]));
        let ghost m1 = pairs_view(var_map@);
        let ghost prev = terms_view(v@.take(i as int));
        let t = v[i].duplicate(var_map);
        let ghost m2 = pairs_view(var_map@);
        let ghost before = out@;
        out.push(t);
        proof {
            lemma_grows_trans(start, m1, m2);
            lemma_renamed_list_prefix(m1, m2, prev);
            assert(v@.take(i + 1).drop_last() =~= v@.take(i as int));
            assert(v@.take(i + 1).last() == v@[i as int]);
            assert(out@.drop_last() =~= before);
            let cur = terms_view(v@.take(i + 1));
            assert(cur.drop_last() =~= prev);
        }
        i = i + 1;
    }
    proof {
        assert(v@.take(v@.len() as int) =~= v@);
    }
    out
}

/// A proposition with its terms renamed by `m`.
pub open spec fn renamed_prop(m: Seq<(VarView, VarView)>, p: PropView) -> PropView {
    PropView { name: p.name, args: renamed_list(m, p.args) }
}

/// Propositions renamed by `m`.
pub open spec fn renamed_props(m: Seq<(VarView, VarView)>, ps: Seq<PropView>) -> Seq<PropView> {
    ps.map_values(|p: PropView| renamed_prop(m, p))
}

/// Whether `m` renames every variable of the propositions.
pub open spec fn covers_props(m: Seq<(VarView, VarView)>, ps: Seq<PropView>) -> bool {
    forall|i: int| 0 <= i < ps.len() ==> covers_list(m, #[trigger] ps[i].args)
}

/// A denotation with its terms renamed by `m`.
pub open spec fn renamed_den(m: Seq<(VarView, VarView)>, d: DenView) -> DenView {
    match d {
        DenView::Disj(names) => DenView::Disj(names),
        DenView::Conj(terms, props) => DenView::Conj(renamed_list(m, terms), renamed_props(m, props)),
    }
}

/// Whether `m` renames every variable of the denotation.
pub open spec fn covers_den(m: Seq<(VarView, VarView)>, d: DenView) -> bool {
    match d {
        DenView::Disj(_) => true,
        DenView::Conj(terms, props) => covers_list(m, terms) && covers_props(m, props),
    }
}

impl Prop {
    /// The proposition with its terms duplicated, sharing the renaming.
    pub fn duplicate(&self, var_map: &mut Vec<(Var, Var)>) -> (r: Prop)
        ensures
            grows(pairs_view(old(var_map)@), pairs_view(final(var_map)@)),
            covers_list(pairs_view(final(var_map)@), self@.args),
            r@ == renamed_prop(pairs_view(final(var_map)@), self@),
    {
        Prop { name: copy_string(&self.name), args: duplicate_terms(&self.args, var_map) }
    }
}

fn copy_names(v: &Vec<String>) -> (r: Vec<String>)
    ensures
        names_view(r@) == names_view(v@),
{
    let mut out: Vec<String> = Vec::new();
    let mut i: usize = 0;
    while i < v.len()
        invariant
            i <= v@.len(),
            out@.len() == i,
            forall|j: int| 0 <= j < i ==> #[trigger] out@[j]@ == v@[j]@,
        decreases v@.len() - i,
    {
        out.push(copy_string(&v[i]));
        i = i + 1;
    }
    proof {
        assert(names_view(out@) =~= names_view(v@));
    }
    out
}

impl Den {
    /// The denotation with the terms of a pattern duplicated, sharing the
    /// renaming; a disjunction is copied as it is.
    pub fn duplicate(&self, var_map: &mut Vec<(Var, Var)>) -> (r: Den)
        ensures
            grows(pairs_view(old(var_map)@), pairs_view(final(var_map)@)),
            covers_den(pairs_view(final(var_map)@), self@),
            r@ == renamed_den(pairs_view(final(var_map)@), self@),
    {
        match self {
            Den::Disj(names) => {
                proof {
                    lemma_grows_refl(pairs_view(var_map@));
                }
                Den::Disj(copy_names(names))
            },
            Den::Conj(args, prop_vec) => {
                let ghost start = pairs_view(var_map@);
                let new_args = duplicate_terms(args, var_map);
                let ghost m1 = pairs_view(var_map@);
                let mut new_props: Vec<Prop> = Vec::new();
                let mut i: usize = 0;
                proof {
                    lemma_grows_refl(m1);
                }
                while i < prop_vec.len()
                    invariant
                        i <= prop_vec@.len(),
                        grows(m1, pairs_view(var_map@)),
                        grows(start, m1),
                        covers_list(m1, terms_view(args@)),
                        terms_view(new_args@) == renamed_list(m1, terms_view(args@)),
                        new_props@.len() == i,
                        forall|j: int| 0 <= j < i ==> covers_list(pairs_view(var_map@), #[trigger] prop_view(prop_vec@[j]).args),
                        forall|j: int| 0 <= j < i ==> #[trigger] prop_view(new_props@[j]) == renamed_prop(pairs_view(var_map@), prop_view(prop_vec@[j])),
                    decreases prop_vec@.len() - i,
                {
                    let ghost ma = pairs_view(var_map@);
                    let p = prop_vec[i].duplicate(var_map);
                    let ghost mb = pairs_view(var_map@);
                    proof {
                        lemma_grows_trans(m1, ma, mb);
                        assert forall|j: int| 0 <= j < i implies covers_list(mb, #[trigger] prop_view(prop_vec@[j]).args)
                            && prop_view(new_props@[j]) == renamed_prop(mb, prop_view(prop_vec@[j])) by {
                            lemma_renamed_list_prefix(ma, mb, prop_view(prop_vec@[j]).args);
                        }
                    }
                    new_props.push(p);
                    i = i + 1;
                }
                proof {
                    let m2 = pairs_view(var_map@);
                    lemma_grows_trans(start, m1, m2);
                    lemma_renamed_list_prefix(m1, m2, terms_view(args@));
                    assert(props_view(new_props@) =~= renamed_props(m2, props_view(prop_vec@)));
                }
                Den::Conj(new_args, new_props)
            },
        }
    }

    /// The denotation with each variable of a pattern renamed to a fresh
    /// variable of the same name, one variable to one fresh variable.
    pub fn fresh(&self) -> (r: Den)
        ensures
            exists|m: Seq<(VarView, VarView)>| grows(Seq::empty(), m) && covers_den(m, self@) && r@ == renamed_den(m, self@),
    {
        let mut var_map: Vec<(Var, Var)> = Vec::new();
        proof {
            assert(pairs_view(var_map@) =~= Seq::<(VarView, VarView)>::empty());
        }
        self.duplicate(&mut var_map)
    }
}

/// A copy of a denotation.
pub fn copy_den(d: &Den) -> (r: Den)
    ensures
        r@ == d@,
{
    match d {
        Den::Disj(names) => Den::Disj(copy_names(names)),
        Den::Conj(terms, props) => {
            let mut out: Vec<Prop> = Vec::new();
            let mut i: usize = 0;
            while i < props.len()
                invariant
                    i <= props@.len(),
                    out@.len() == i,
                    forall|j: int| 0 <= j < i ==> #[trigger] prop_view(out@[j]) == prop_view(props@[j]),
                decreases props@.len() - i,
            {
                out.push(copy_prop(&props[i]));
                i = i + 1;
            }
            proof {
                assert(props_view(out@) =~= props_view(props@));
            }
            Den::Conj(copy_terms(terms), out)
        },
    }
}

/// A wissen program: denotations of propositions by name, in the order
/// they were given.
#[derive(Debug, PartialEq, Eq)]
pub struct Wissen {
    pub den_dic: Dic<Den>,
}

/// The names and denotations of a program, in order.
pub open spec fn dens_view(es: Seq<(String, Option<Den>)>) -> Seq<(Seq<char>, Option<DenView>)> {
    es.map_values(|e: (String, Option<Den>)| (e.0@, match e.1 { Some(d) => Some(den_view(d)), None => None }))
}

/// The text of a program: `name = den` on a line of its own for each
/// denotation, between `<wissen>` and `</wissen>` lines.
pub open spec fn wissen_text(es: Seq<(Seq<char>, Option<DenView>)>) -> Seq<char> {
    "<wissen>\n"@ + den_lines(es) + "</wissen>\n"@
}

/// `name = den` and a line break for each entry with a denotation.
pub open spec fn den_lines(es: Seq<(Seq<char>, Option<DenView>)>) -> Seq<char>
    decreases es.len(),
{
    if es.len() == 0 {
        Seq::empty()
    } else {
        den_lines(es.drop_last()) + match es.last().1 {
            Some(d) => es.last().0 + seq![' ', '=', ' '] + den_text(d) + seq!['\n'],
            None => Seq::empty(),
        }
    }
}

impl Wissen {
    /// The program with no denotations.
    pub fn new() -> (w: Wissen)
        ensures
            w.den_dic.entries@.len() == 0,
    {
        Wissen { den_dic: Dic::new() }
    }

    /// Gives `name` the denotation `den`.
    pub fn den(&mut self, name: &str, den: &Den)
        ensures
            match crate::cicada_value::dic_find(old(self).den_dic.entries@, name@) {
                Some(i) => final(self).den_dic.entries@.len() == old(self).den_dic.entries@.len()
                    && final(self).den_dic.entries@[i].0@ == name@
                    && final(self).den_dic.entries@[i].1 is Some && den_view(final(self).den_dic.entries@[i].1->Some_0) == den@
                    && forall|j: int| 0 <= j < old(self).den_dic.entries@.len() && j != i ==> final(self).den_dic.entries@[j] == old(self).den_dic.entries@[j],
                None => final(self).den_dic.entries@.len() == old(self).den_dic.entries@.len() + 1
                    && final(self).den_dic.entries@.last().0@ == name@
                    && final(self).den_dic.entries@.last().1 is Some && den_view(final(self).den_dic.entries@.last().1->Some_0) == den@
                    && forall|j: int| 0 <= j < old(self).den_dic.entries@.len() ==> final(self).den_dic.entries@[j] == old(self).den_dic.entries@[j],
            },
    {
        self.den_dic.ins(name, Some(copy_den(den)));
    }

    /// A fresh copy of the denotation of `name`, where it has one.
    pub fn find_den(&self, name: &str) -> (r: Option<Den>)
        ensures
            match dic_get(self.den_dic.entries@, name@) {
                Some(d) => r matches Some(f) && exists|m: Seq<(VarView, VarView)>|
                    grows(Seq::empty(), m) && covers_den(m, d@) && f@ == renamed_den(m, d@),
                None => r is None,
            },
    {
        match self.den_dic.get(name) {
            Some(den) => Some(den.fresh()),
            None => None,
        }
    }

    /// The text of the program.
    pub fn to_string(&self) -> (r: String)
        ensures
            r@ == wissen_text(dens_view(self.den_dic.entries@)),
    {
        let ghost es = dens_view(self.den_dic.entries@);
        let mut s = String::new();
        push_str(&mut s, "<wissen>\n");
        let ghost start = s@;
        let mut i: usize = 0;
        proof {
            assert(es.take(0) =~= Seq::<(Seq<char>, Option<DenView>)>::empty());
            assert(start + Seq::<char>::empty() =~= start);
        }
        while i < self.den_dic.entries.len()
            invariant
                i <= self.den_dic.entries@.len(),
                es == dens_view(self.den_dic.entries@),
                s@ == start + den_lines(es.take(i as int)),
            decreases self.den_dic.entries@.len() - i,
        {
            proof {
                assert(es.take(i + 1).drop_last() =~= es.take(i as int));
                assert(es.take(i + 1).last() == es[i as int]);
            }
            match &self.den_dic.entries[i].1 {
                Some(den) => {
                    push_str(&mut s, self.den_dic.entries[i].0.as_str());
                    push_str(&mut s, " = ");
                    let text = den.to_string();
                    push_str(&mut s, text.as_str());
                    push_char(&mut s, '\n');
                    proof {
                        reveal_strlit(" = ");
                        assert(" = "@ =~= seq![' ', '=', ' ']);
                        assert(s@ =~= start + den_lines(es.take(i + 1)));
                    }
                },
                None => {
                    proof {
                        assert(s@ =~= start + den_lines(es.take(i + 1)));
                    }
                },
            }
            i = i + 1;
        }
        proof {
            assert(es.take(es.len() as int) =~= es);
        }
        push_str(&mut s, "</wissen>\n");
        s
    }
}

/// A copy of a deduction tree.
pub fn copy_tree(t: &DeductionTree) -> (r: DeductionTree)
    ensures
        tree_view(r) == tree_view(*t),
    decreases t, 1nat,
{
    DeductionTree { conj_name: copy_string(&t.conj_name), arity: t.arity, body: copy_trees(&t.body) }
}

/// A copy of deduction trees.
pub fn copy_trees(v: &Vec<DeductionTree>) -> (r: Vec<DeductionTree>)
    ensures
        trees_view(r@) == trees_view(v@),
    decreases v, 0nat,
{
    let mut out: Vec<DeductionTree> = Vec::new();
    let mut i: usize = 0;
    proof {
        assert(v@.take(0) =~= Seq::<DeductionTree>::empty());
        assert(out@ =~= Seq::<DeductionTree>::empty());
    }
    while i < v.len()
        invariant
            i <= v@.len(),
            trees_view(out@) == trees_view(v@.take(i as int)),
        decreases v@.len() - i,
    {
        assert(decreases_to!(v => v@[i as int]));
        let t = copy_tree(&v[i]);
        let ghost before = out@;
        out.push(t);
        proof {
            assert(out@.drop_last() =~= before);
            assert(v@.take(i + 1).drop_last() =~= v@.take(i as int));
        }
        i = i + 1;
    }
    proof {
        assert(v@.take(v@.len() as int) =~= v@);
    }
    out
}

/// A proof found: its bindings and the tree of its deductions.
#[derive(Debug, PartialEq, Eq)]
pub struct Qed {
    pub subst: Subst,
    pub deduction_tree: DeductionTree,
}

/// A proof under way: its bindings, the trees of deductions it is
/// building, and the propositions still to prove, first first.
#[derive(Debug, PartialEq, Eq)]
pub struct Proof {
    pub subst: Subst,
    pub tree_stack: Vec<DeductionTree>,
    pub prop_queue: Vec<Arc<Prop>>,
}

/// What one step of a proof gave: a proof found, the proofs that carry
/// it on, or nothing.
#[derive(Debug, PartialEq, Eq)]
pub enum ProofStep {
    One(Qed),
    More(Vec<Proof>),
    Fail,
}

/// A search for proofs: the proofs under way, first first.
#[derive(Debug, PartialEq, Eq)]
pub struct Proving {
    pub proof_queue: Vec<Proof>,
}

/// What a query or a search for proofs of a program found.
#[derive(Debug, PartialEq, Eq)]
pub enum WissenOutput {
    Query { prop_vec: Vec<Prop>, subst_vec: Vec<Subst> },
    Prove { prop_vec: Vec<Prop>, qed_vec: Vec<Qed> },
}

fn copy_props(v: &Vec<Arc<Prop>>) -> (r: Vec<Arc<Prop>>)
    ensures
        row_view(r) == row_view(*v),
{
    let mut out: Vec<Arc<Prop>> = Vec::new();
    let mut i: usize = 0;
    while i < v.len()
        invariant
            i <= v@.len(),
            out@.len() == i,
            forall|j: int| 0 <= j < i ==> prop_view(*#[trigger] out@[j]) == prop_view(*v@[j]),
        decreases v@.len() - i,
    {
        out.push(share(&v[i]));
        i = i + 1;
    }
    proof {
        assert(row_view(out) =~= row_view(*v));
    }
    out
}

/// The error of a search that did not end within the runtime's budget.
fn search_budget_error() -> (e: ErrorInCtx) {
    ErrorInCtx::new().head("Proving::next_qed").line("the search takes more steps than the runtime allows")
}

/// What a proof under way is: its bindings, the trees it is building,
/// and the propositions still to prove.
pub struct ProofView {
    pub subst: Seq<(VarView, TermView)>,
    pub trees: Seq<TreeView>,
    pub props: Seq<PropView>,
}

/// What a proof found is: its bindings and its deduction tree.
pub struct QedView {
    pub subst: Seq<(VarView, TermView)>,
    pub tree: TreeView,
}

/// What a step of a proof gave.
pub enum ProofStepView {
    One(QedView),
    More(Seq<ProofView>),
    Fail,
}

/// The view of a proof under way.
pub open spec fn proof_view(p: Proof) -> ProofView {
    ProofView { subst: p.subst@, trees: trees_view(p.tree_stack@), props: row_view(p.prop_queue) }
}

/// The views of proofs under way.
pub open spec fn proofs_view(ps: Seq<Proof>) -> Seq<ProofView> {
    ps.map_values(|p: Proof| proof_view(p))
}

/// The view of a proof found.
pub open spec fn qed_view(q: Qed) -> QedView {
    QedView { subst: q.subst@, tree: tree_view(q.deduction_tree) }
}

/// The view of a step.
pub open spec fn proof_step_view(s: ProofStep) -> ProofStepView {
    match s {
        ProofStep::One(q) => ProofStepView::One(qed_view(q)),
        ProofStep::More(ps) => ProofStepView::More(proofs_view(ps@)),
        ProofStep::Fail => ProofStepView::Fail,
    }
}

/// The view of a step, or `None` for its error.
pub open spec fn step_result_view(r: Result<ProofStep, ErrorInCtx>) -> Option<ProofStepView> {
    match r {
        Ok(s) => Some(proof_step_view(s)),
        Err(_) => None,
    }
}

/// Whether `f` is the denotation named `name` with its variables renamed
/// to fresh ones.
pub open spec fn fresh_den(w: Wissen, name: Seq<char>, f: DenView) -> bool {
    match dic_get(w.den_dic.entries@, name) {
        Some(d) => exists|m: Seq<(VarView, VarView)>| #[trigger] grows(Seq::empty(), m) && covers_den(m, d@) && f == renamed_den(m, d@),
        None => false,
    }
}

/// The trees after applying the denotation `f` to `prop`: a pattern opens
/// a tree waiting for as many subtrees as it has propositions.
pub open spec fn recorded(trees: Seq<TreeView>, prop: PropView, f: DenView) -> Seq<TreeView> {
    match f {
        DenView::Conj(_, props) => converged(trees, TreeView { name: prop.name, arity: props.len() as usize, body: Seq::empty() }),
        DenView::Disj(_) => trees,
    }
}

/// The step of `p` with the denotation `f` of its first proposition:
/// `None` where unifying runs out of budget; nothing where it fails; else
/// for each row of propositions the denotation asks for, a proof with the
/// new bindings and that row before the rest of its propositions.
pub open spec fn step_with(f: DenView, p: ProofView, r: Option<ProofStepView>) -> bool {
    match apply_fuel(f, p.props[0].args, p.subst, usize::MAX as nat) {
        None => r is None,
        Some(None) => r == Some(ProofStepView::Fail),
        Some(Some((rows, bs))) => r == Some(ProofStepView::More(Seq::new(rows.len(), |i: int| ProofView {
            subst: bs,
            trees: recorded(p.trees, p.props[0], f),
            props: rows[i] + p.props.drop_first(),
        }))),
    }
}

/// What one step of the proof `p` gives in the program `w`, for some
/// fresh renaming of the denotation it applies: with no proposition
/// left, the proof found, its tree the last one built; with a first
/// proposition that names no denotation, nothing; else the denotation,
/// renamed afresh, applied to it.
pub open spec fn step_rel(w: Wissen, p: ProofView, r: Option<ProofStepView>) -> bool {
    if p.props.len() == 0 {
        if p.trees.len() == 0 {
            r is None
        } else {
            r == Some(ProofStepView::One(QedView { subst: p.subst, tree: p.trees.last() }))
        }
    } else if dic_get(w.den_dic.entries@, p.props[0].name) is None {
        r == Some(ProofStepView::Fail)
    } else {
        exists|f: DenView| #[trigger] fresh_den(w, p.props[0].name, f) && step_with(f, p, r)
    }
}

/// Each step of a search proves the proposition it takes: where a step
/// of the proof `p` carries it on, it does so by a fresh renaming `f` of
/// the denotation the first proposition names, every proof it gives keeps
/// the bindings of `p`, and where `f` is a conjunction, each argument of
/// the proposition comes to the same, in the bindings of each proof, as
/// the term of the pattern in its place.
pub proof fn law_step_proves_its_proposition(w: Wissen, p: ProofView, ps: Seq<ProofView>)
    requires
        step_rel(w, p, Some(ProofStepView::More(ps))),
    ensures
        p.props.len() > 0,
        exists|f: DenView| #[trigger] fresh_den(w, p.props[0].name, f) && forall|i: int| 0 <= i < ps.len() ==> {
            &&& keeps(p.subst, (#[trigger] ps[i]).subst)
            &&& (f matches DenView::Conj(terms, _) ==> forall|j: int| 0 <= j < p.props[0].args.len()
                ==> #[trigger] same_in(ps[i].subst, p.props[0].args[j], terms[j]))
        },
{
    let f = choose|f: DenView| #[trigger] fresh_den(w, p.props[0].name, f) && step_with(f, p, Some(ProofStepView::More(ps)));
    match f {
        DenView::Disj(_) => {
            lemma_keeps_refl(p.subst);
        },
        DenView::Conj(terms, props) => {
            law_apply_sound(terms, props, p.props[0].args, p.subst, usize::MAX as nat);
        },
    }
    assert(fresh_den(w, p.props[0].name, f));
}

impl Proof {
    /// One step: with no proposition left, the proof, whose tree is the
    /// last one built; else the first proposition's denotation, renamed
    /// afresh, applied to it, each row of propositions it asks for put
    /// before the others in a proof of its own; nothing where it names no
    /// denotation or its pattern does not unify.
    pub fn step(&self, wissen: &Wissen) -> (r: Result<ProofStep, ErrorInCtx>)
        ensures
            step_rel(*wissen, proof_view(*self), step_result_view(r)),
    {
        let ghost pv = proof_view(*self);
        proof {
            lemma_trees_view_len(self.tree_stack@);
        }
        if self.prop_queue.len() == 0 {
            if self.tree_stack.len() == 0 {
                return Err(ErrorInCtx::new().head("Proof::step").line("no deduction tree"));
            }
            let n = self.tree_stack.len();
            let r = Ok(ProofStep::One(Qed { subst: self.subst.clone(), deduction_tree: copy_tree(&self.tree_stack[n - 1]) }));
            proof {
                lemma_trees_view_drop_last(self.tree_stack@);
            }
            return r;
        }
        let prop = share(&self.prop_queue[0]);
        proof {
            assert(pv.props[0] == prop_view(*prop));
        }
        let den = match wissen.find_den(prop.name.as_str()) {
            Some(d) => d,
            None => {
                return Ok(ProofStep::Fail);
            },
        };
        let ghost f = den@;
        proof {
            assert(fresh_den(*wissen, pv.props[0].name, f));
        }
        let (prop_matrix, new_subst) = match den.apply_within(&prop.args, self.subst.clone(), usize::MAX) {
            Some(Some(x)) => x,
            Some(None) => {
                proof {
                    assert(step_with(f, pv, Some(ProofStepView::Fail)));
                }
                return Ok(ProofStep::Fail);
            },
            None => {
                proof {
                    assert(step_with(f, pv, None));
                }
                return Err(search_budget_error());
            },
        };
        let ghost rows = matrix_view(prop_matrix@);
        let ghost bs = new_subst@;
        let ghost trees2 = recorded(pv.trees, pv.props[0], f);
        let ghost want = Seq::new(rows.len(), |i: int| ProofView { subst: bs, trees: trees2, props: rows[i] + pv.props.drop_first() });
        let mut proof_queue: Vec<Proof> = Vec::new();
        let mut k: usize = 0;
        while k < prop_matrix.len()
            invariant
                k <= prop_matrix@.len(),
                rows == matrix_view(prop_matrix@),
                rows.len() == prop_matrix@.len(),
                pv == proof_view(*self),
                pv.props.len() > 0,
                prop_view(*prop) == pv.props[0],
                den@ == f,
                bs == new_subst@,
                trees2 == recorded(pv.trees, pv.props[0], f),
                want == Seq::new(rows.len(), |i: int| ProofView { subst: bs, trees: trees2, props: rows[i] + pv.props.drop_first() }),
                proof_queue@.len() == k,
                forall|i: int| 0 <= i < k ==> #[trigger] proof_view(proof_queue@[i]) == want[i],
            decreases prop_matrix@.len() - k,
        {
            let mut tree_stack = copy_trees(&self.tree_stack);
            record_deduction_step(&mut tree_stack, &prop, &den);
            let mut queue = copy_props(&prop_matrix[k]);
            let ghost row = row_view(prop_matrix@[k as int]);
            proof {
                assert(rows[k as int] == row);
            }
            let mut j: usize = 1;
            while j < self.prop_queue.len()
                invariant
                    1 <= j <= self.prop_queue@.len(),
                    pv == proof_view(*self),
                    row_view(queue) == row + pv.props.subrange(1, j as int),
                decreases self.prop_queue@.len() - j,
            {
                let ghost before = row_view(queue);
                let x = share(&self.prop_queue[j]);
                queue.push(x);
                proof {
                    assert(row_view(queue) =~= before.push(prop_view(*x)));
                    assert(pv.props[j as int] == prop_view(*x));
                    assert(pv.props.subrange(1, j + 1) =~= pv.props.subrange(1, j as int).push(pv.props[j as int]));
                    assert(row + pv.props.subrange(1, j + 1) =~= (row + pv.props.subrange(1, j as int)).push(pv.props[j as int]));
                }
                j = j + 1;
            }
            proof {
                assert(pv.props.subrange(1, pv.props.len() as int) =~= pv.props.drop_first());
                assert(trees_view(tree_stack@) == trees2);
            }
            let p2 = Proof { subst: new_subst.clone(), tree_stack, prop_queue: queue };
            proof {
                assert(proof_view(p2).props =~= want[k as int].props);
                assert(proof_view(p2) == want[k as int]);
            }
            proof_queue.push(p2);
            k = k + 1;
        }
        let r = Ok(ProofStep::More(proof_queue));
        proof {
            assert(proofs_view(proof_queue@) =~= want);
            assert(step_with(f, pv, step_result_view(r)));
        }
        r
    }
}

impl Wissen {
    /// A search for proofs of `prop_vec`: one proof with no bindings, a
    /// tree named `root` waiting for as many subtrees as there are
    /// propositions, and those propositions to prove.
    pub fn proving(&self, prop_vec: &Vec<Prop>) -> (p: Proving)
        ensures
            p.proof_queue@.len() == 1,
            p.proof_queue@[0].subst@ == Seq::<(VarView, TermView)>::empty(),
            row_view(p.proof_queue@[0].prop_queue) == props_view(prop_vec@),
            trees_view(p.proof_queue@[0].tree_stack@)
                == seq![TreeView { name: "root"@, arity: prop_vec@.len() as usize, body: Seq::empty() }],
            proofs_view(p.proof_queue@) == seq![first_proof(props_view(prop_vec@))],
    {
        let mut prop_queue: Vec<Arc<Prop>> = Vec::new();
        let mut i: usize = 0;
        while i < prop_vec.len()
            invariant
                i <= prop_vec@.len(),
                prop_queue@.len() == i,
                forall|j: int| 0 <= j < i ==> prop_view(*#[trigger] prop_queue@[j]) == prop_view(prop_vec@[j]),
            decreases prop_vec@.len() - i,
        {
            prop_queue.push(Arc::new(copy_prop(&prop_vec[i])));
            i = i + 1;
        }
        let root = DeductionTree { conj_name: string_from("root"), arity: prop_vec.len(), body: Vec::new() };
        let tree_stack = vec![root];
        let proof = Proof { subst: Subst::new(), tree_stack, prop_queue };
        let p = Proving { proof_queue: vec![proof] };
        proof {
            assert(row_view(p.proof_queue@[0].prop_queue) =~= props_view(prop_vec@));
            assert(trees_view(root.body@) =~= Seq::<TreeView>::empty());
            assert(tree_stack@.drop_last() =~= Seq::<DeductionTree>::empty());
            assert(trees_view(tree_stack@) =~= seq![tree_view(root)]);
            assert(proofs_view(p.proof_queue@) =~= seq![first_proof(props_view(prop_vec@))]);
        }
        p
    }
}

/// The view of the result of looking for the next proof, `None` for its
/// error.
pub open spec fn next_result_view(r: Result<Option<Qed>, ErrorInCtx>) -> Option<Option<QedView>> {
    match r {
        Ok(Some(q)) => Some(Some(qed_view(q))),
        Ok(None) => Some(None),
        Err(_) => None,
    }
}

/// The views of proofs found.
pub open spec fn qeds_view(qs: Seq<Qed>) -> Seq<QedView> {
    qs.map_values(|q: Qed| qed_view(q))
}

/// The bindings of proofs found.
pub open spec fn qed_substs(qs: Seq<QedView>) -> Seq<Seq<(VarView, TermView)>> {
    qs.map_values(|q: QedView| q.subst)
}

/// The views of substitutions.
pub open spec fn substs_view(ss: Seq<Subst>) -> Seq<Seq<(VarView, TermView)>> {
    ss.map_values(|s: Subst| s@)
}

/// The proof a search for `props` starts from: no bindings, a tree named
/// `root` waiting for as many subtrees as there are propositions, and
/// those propositions to prove.
pub open spec fn first_proof(props: Seq<PropView>) -> ProofView {
    ProofView { subst: Seq::empty(), trees: seq![TreeView { name: "root"@, arity: props.len() as usize, body: Seq::empty() }], props }
}

/// Whether the output `o` holds what looking for the next proof `c`
/// times, from the start of a search for its propositions in `w`, found
/// (see `take_rel`): a query its bindings, a search its proofs.
pub open spec fn output_found(w: Wissen, c: usize, o: WissenOutput) -> bool {
    match o {
        WissenOutput::Query { prop_vec, subst_vec } => exists|q2: Seq<ProofView>, b2: nat, qs: Seq<QedView>|
            #[trigger] take_rel(w, seq![first_proof(props_view(prop_vec@))], usize::MAX as nat, c as nat, q2, b2, Some(qs))
            && substs_view(subst_vec@) == qed_substs(qs),
        WissenOutput::Prove { prop_vec, qed_vec } => exists|q2: Seq<ProofView>, b2: nat|
            #[trigger] take_rel(w, seq![first_proof(props_view(prop_vec@))], usize::MAX as nat, c as nat, q2, b2, Some(qeds_view(qed_vec@))),
    }
}

proof fn lemma_output_found(w: Wissen, c: usize, o: WissenOutput, q2: Seq<ProofView>, b2: nat, qs: Seq<QedView>)
    requires
        match o {
            WissenOutput::Query { prop_vec, subst_vec } =>
                take_rel(w, seq![first_proof(props_view(prop_vec@))], usize::MAX as nat, c as nat, q2, b2, Some(qs))
                && substs_view(subst_vec@) == qed_substs(qs),
            WissenOutput::Prove { prop_vec, qed_vec } =>
                take_rel(w, seq![first_proof(props_view(prop_vec@))], usize::MAX as nat, c as nat, q2, b2, Some(qs))
                && qs == qeds_view(qed_vec@),
        },
    ensures
        output_found(w, c, o),
{
}

/// Whether looking for the next proof `c` times, from the start of a
/// search for `props` in `w`, can end in an error.
pub open spec fn search_fails(w: Wissen, c: usize, props: Seq<PropView>) -> bool {
    exists|q2: Seq<ProofView>, b2: nat| #[trigger] take_rel(w, seq![first_proof(props)], usize::MAX as nat, c as nat, q2, b2, None)
}

/// The view of the proofs taken, `None` for an error.
pub open spec fn take_result_view(r: Result<Vec<Qed>, ErrorInCtx>) -> Option<Seq<QedView>> {
    match r {
        Ok(v) => Some(qeds_view(v@)),
        Err(_) => None,
    }
}

/// Looking for the next proof, breadth first, from the proofs under way
/// `q` with `b` steps left: with none under way, nothing, and `q` stays;
/// with no step left, an error; else the first proof takes a step, which
/// ends the search where it finds a proof or fails with an error, and
/// else puts what it gives after the others and goes on.  `q2` and `b2`
/// are the proofs and the steps left at the end, `r` its result (`None`
/// for an error).
pub open spec fn next_rel(w: Wissen, q: Seq<ProofView>, b: nat, q2: Seq<ProofView>, b2: nat, r: Option<Option<QedView>>) -> bool
    decreases b, 1nat,
{
    if q.len() == 0 {
        r == Some(None::<QedView>) && q2 == q && b2 == b
    } else if b == 0 {
        r is None && q2 == q && b2 == b
    } else {
        exists|s: Option<ProofStepView>| #[trigger] step_rel(w, q[0], s) && next_after(w, q, b, s, q2, b2, r)
    }
}

/// `next_rel` after the first proof of `q` took the step `s`.
pub open spec fn next_after(w: Wissen, q: Seq<ProofView>, b: nat, s: Option<ProofStepView>, q2: Seq<ProofView>, b2: nat,
    r: Option<Option<QedView>>) -> bool
    decreases b, 0nat,
{
    if b == 0 {
        false
    } else {
        match s {
            None => r is None && q2 == q.drop_first() && b2 == (b - 1) as nat,
            Some(ProofStepView::One(qd)) => r == Some(Some(qd)) && q2 == q.drop_first() && b2 == (b - 1) as nat,
            Some(ProofStepView::More(ps)) => next_rel(w, q.drop_first() + ps, (b - 1) as nat, q2, b2, r),
            Some(ProofStepView::Fail) => next_rel(w, q.drop_first(), (b - 1) as nat, q2, b2, r),
        }
    }
}

/// The proofs found by looking for the next one `n` times from `q` with
/// `b` steps left, in the order found; `None` where one of the looks ends
/// in an error.
pub open spec fn take_rel(w: Wissen, q: Seq<ProofView>, b: nat, n: nat, q2: Seq<ProofView>, b2: nat, r: Option<Seq<QedView>>) -> bool
    decreases n, 1nat,
{
    if n == 0 {
        r == Some(Seq::<QedView>::empty()) && q2 == q && b2 == b
    } else {
        exists|q1: Seq<ProofView>, b1: nat, r1: Option<Option<QedView>>| #[trigger] next_rel(w, q, b, q1, b1, r1)
            && take_after(w, q1, b1, n, r1, q2, b2, r)
    }
}

/// `take_rel` after the first look ended at `q1` and `b1` with `r1`.
pub open spec fn take_after(w: Wissen, q1: Seq<ProofView>, b1: nat, n: nat, r1: Option<Option<QedView>>, q2: Seq<ProofView>,
    b2: nat, r: Option<Seq<QedView>>) -> bool
    decreases n, 0nat,
{
    if n == 0 {
        false
    } else {
        match r1 {
            None => r is None && q2 == q1 && b2 == b1,
            Some(None) => take_rel(w, q1, b1, (n - 1) as nat, q2, b2, r),
            Some(Some(qd)) => match r {
                None => take_rel(w, q1, b1, (n - 1) as nat, q2, b2, None),
                Some(v) => v.len() > 0 && v[0] == qd && take_rel(w, q1, b1, (n - 1) as nat, q2, b2, Some(v.drop_first())),
            },
        }
    }
}

proof fn lemma_take_after_found(w: Wissen, q1: Seq<ProofView>, b1: nat, m: nat, x: Option<QedView>, q2: Seq<ProofView>,
    b2: nat, r2: Option<Seq<QedView>>)
    requires
        m > 0,
        take_rel(w, q1, b1, (m - 1) as nat, q2, b2, r2),
    ensures
        take_after(w, q1, b1, m, Some(x), q2, b2, prepend_found(x, r2)),
{
    match (x, r2) {
        (Some(qd), Some(v)) => {
            assert((seq![qd] + v).drop_first() =~= v);
        },
        _ => {},
    }
}

/// The proofs `r2`, with the proof `x` before them where there is one.
pub open spec fn prepend_found(x: Option<QedView>, r2: Option<Seq<QedView>>) -> Option<Seq<QedView>> {
    match r2 {
        None => None,
        Some(v) => Some(match x {
            Some(q) => seq![q] + v,
            None => v,
        }),
    }
}

/// The proofs `r2` after those of `v`.
pub open spec fn prepend_all(v: Seq<QedView>, r2: Option<Seq<QedView>>) -> Option<Seq<QedView>> {
    match r2 {
        None => None,
        Some(x) => Some(v + x),
    }
}

impl Proving {
    /// The next proof within `budget` steps, breadth first (see
    /// `next_rel`): `None` where the proofs run out.
    pub fn next_qed_within(&mut self, wissen: &Wissen, budget: &mut usize) -> (r: Result<Option<Qed>, ErrorInCtx>)
        ensures
            next_rel(*wissen, proofs_view(old(self).proof_queue@), *old(budget) as nat, proofs_view(final(self).proof_queue@),
                *final(budget) as nat, next_result_view(r)),
            *final(budget) <= *old(budget),
    {
        let ghost w = *wissen;
        let ghost q0 = proofs_view(self.proof_queue@);
        let ghost b0 = *budget as nat;
        loop
            invariant
                *budget <= *old(budget),
                w == *wissen,
                q0 == proofs_view(old(self).proof_queue@),
                b0 == *old(budget) as nat,
                forall|q2: Seq<ProofView>, b2: nat, r2: Option<Option<QedView>>|
                    #[trigger] next_rel(w, proofs_view(self.proof_queue@), *budget as nat, q2, b2, r2)
                        ==> next_rel(w, q0, b0, q2, b2, r2),
            decreases *budget,
        {
            let ghost cur = proofs_view(self.proof_queue@);
            let ghost b = *budget as nat;
            if self.proof_queue.len() == 0 {
                proof {
                    assert(next_rel(w, cur, b, cur, b, Some(None::<QedView>)));
                }
                return Ok(None);
            }
            if *budget == 0 {
                let r = Err(search_budget_error());
                proof {
                    assert(next_rel(w, cur, b, cur, b, next_result_view(r)));
                }
                return r;
            }
            *budget = *budget - 1;
            let proof = self.proof_queue.remove(0);
            proof {
                assert(proofs_view(self.proof_queue@) =~= cur.drop_first());
                assert(cur[0] == proof_view(proof));
            }
            let s = proof.step(wissen);
            let ghost sv = step_result_view(s);
            proof {
                assert(step_rel(w, cur[0], sv));
            }
            match s {
                Ok(ProofStep::One(qed)) => {
                    let r = Ok(Some(qed));
                    proof {
                        assert(next_after(w, cur, b, sv, proofs_view(self.proof_queue@), *budget as nat, next_result_view(r)));
                        assert(next_rel(w, cur, b, proofs_view(self.proof_queue@), *budget as nat, next_result_view(r)));
                    }
                    return r;
                },
                Ok(ProofStep::More(ps)) => {
                    let mut ps = ps;
                    let ghost psv = proofs_view(ps@);
                    let ghost mid = proofs_view(self.proof_queue@);
                    self.proof_queue.append(&mut ps);
                    proof {
                        assert(proofs_view(self.proof_queue@) =~= mid + psv);
                        assert forall|q2: Seq<ProofView>, b2: nat, r2: Option<Option<QedView>>|
                            #[trigger] next_rel(w, proofs_view(self.proof_queue@), *budget as nat, q2, b2, r2)
                            implies next_rel(w, q0, b0, q2, b2, r2) by {
                            assert(next_after(w, cur, b, sv, q2, b2, r2));
                            assert(next_rel(w, cur, b, q2, b2, r2));
                        }
                    }
                },
                Ok(ProofStep::Fail) => {
                    proof {
                        assert forall|q2: Seq<ProofView>, b2: nat, r2: Option<Option<QedView>>|
                            #[trigger] next_rel(w, proofs_view(self.proof_queue@), *budget as nat, q2, b2, r2)
                            implies next_rel(w, q0, b0, q2, b2, r2) by {
                            assert(next_after(w, cur, b, sv, q2, b2, r2));
                            assert(next_rel(w, cur, b, q2, b2, r2));
                        }
                    }
                },
                Err(e) => {
                    let r = Err(e);
                    proof {
                        assert(next_after(w, cur, b, sv, proofs_view(self.proof_queue@), *budget as nat, next_result_view(r)));
                        assert(next_rel(w, cur, b, proofs_view(self.proof_queue@), *budget as nat, next_result_view(r)));
                    }
                    return r;
                },
            }
        }
    }

    /// The next proof, breadth first, within `usize::MAX` steps: `None`
    /// where the proofs run out.
    pub fn next_qed(&mut self, wissen: &Wissen) -> (r: Result<Option<Qed>, ErrorInCtx>)
        ensures
            exists|b2: nat| next_rel(*wissen, proofs_view(old(self).proof_queue@), usize::MAX as nat,
                proofs_view(final(self).proof_queue@), b2, next_result_view(r)),
    {
        let mut budget: usize = usize::MAX;
        let r = self.next_qed_within(wissen, &mut budget);
        proof {
            let b2 = budget as nat;
            assert(next_rel(*wissen, proofs_view(old(self).proof_queue@), usize::MAX as nat,
                proofs_view(self.proof_queue@), b2, next_result_view(r)));
        }
        r
    }

    /// The proofs found by looking for the next one `n` times, within
    /// `usize::MAX` steps in all, in the order found (see `take_rel`).
    pub fn take_qed(&mut self, wissen: &Wissen, n: usize) -> (r: Result<Vec<Qed>, ErrorInCtx>)
        ensures
            exists|b2: nat| take_rel(*wissen, proofs_view(old(self).proof_queue@), usize::MAX as nat, n as nat,
                proofs_view(final(self).proof_queue@), b2, take_result_view(r)),
    {
        let ghost w = *wissen;
        let ghost q0 = proofs_view(self.proof_queue@);
        let mut budget: usize = usize::MAX;
        let mut vec: Vec<Qed> = Vec::new();
        let mut i: usize = 0;
        proof {
            assert forall|q2: Seq<ProofView>, b2: nat, r2: Option<Seq<QedView>>|
                #[trigger] take_rel(w, q0, usize::MAX as nat, n as nat, q2, b2, r2)
                implies take_rel(w, q0, usize::MAX as nat, n as nat, q2, b2,
                    prepend_all(qeds_view(vec@), r2)) by {
                match r2 {
                    Some(x) => {
                        assert(qeds_view(vec@) + x =~= x);
                    },
                    None => {},
                }
            }
        }
        while i < n
            invariant
                i <= n,
                w == *wissen,
                q0 == proofs_view(old(self).proof_queue@),
                forall|q2: Seq<ProofView>, b2: nat, r2: Option<Seq<QedView>>|
                    #[trigger] take_rel(w, proofs_view(self.proof_queue@), budget as nat, (n - i) as nat, q2, b2, r2)
                        ==> take_rel(w, q0, usize::MAX as nat, n as nat, q2, b2, prepend_all(qeds_view(vec@), r2)),
            decreases n - i,
        {
            let ghost cur = proofs_view(self.proof_queue@);
            let ghost b = budget as nat;
            let ghost vv = qeds_view(vec@);
            let r1 = self.next_qed_within(wissen, &mut budget);
            let ghost q1 = proofs_view(self.proof_queue@);
            let ghost b1 = budget as nat;
            let ghost r1v = next_result_view(r1);
            proof {
                assert(next_rel(w, cur, b, q1, b1, r1v));
            }
            match r1 {
                Ok(x) => {
                    let ghost xv: Option<QedView> = r1v.unwrap();
                    match x {
                        Some(q) => {
                            vec.push(q);
                        },
                        None => {},
                    }
                    proof {
                        let vv2 = qeds_view(vec@);
                        assert forall|q2: Seq<ProofView>, b2: nat, r2: Option<Seq<QedView>>|
                            #[trigger] take_rel(w, q1, b1, (n - (i + 1)) as nat, q2, b2, r2)
                            implies take_rel(w, q0, usize::MAX as nat, n as nat, q2, b2, prepend_all(vv2, r2)) by {
                            let m: nat = (n - i) as nat;
                            assert((m - 1) as nat == (n - (i + 1)) as nat);
                            assert(take_rel(w, q1, b1, (m - 1) as nat, q2, b2, r2));
                            lemma_take_after_found(w, q1, b1, m, xv, q2, b2, r2);
                            assert(take_rel(w, cur, b, (n - i) as nat, q2, b2, prepend_found(xv, r2)));
                            match r2 {
                                Some(v) => {
                                    match xv {
                                        Some(qd) => {
                                            assert(vv + (seq![qd] + v) =~= vv2 + v);
                                        },
                                        None => {
                                            assert(vv2 =~= vv);
                                        },
                                    }
                                },
                                None => {},
                            }
                        }
                    }
                },
                Err(e) => {
                    let r = Err(e);
                    proof {
                        assert(take_after(w, q1, b1, (n - i) as nat, r1v, q1, b1, None));
                        assert(take_rel(w, cur, b, (n - i) as nat, q1, b1, None));
                        assert(take_rel(w, q0, usize::MAX as nat, n as nat, q1, b1, take_result_view(r)));
                    }
                    return r;
                },
            }
            i = i + 1;
        }
        let r = Ok(vec);
        proof {
            let cur = proofs_view(self.proof_queue@);
            let vv = qeds_view(vec@);
            assert(take_rel(w, cur, budget as nat, (n - i) as nat, cur, budget as nat, Some(Seq::<QedView>::empty())));
            assert(vv + Seq::<QedView>::empty() =~= vv);
            assert(take_rel(w, q0, usize::MAX as nat, n as nat, cur, budget as nat, take_result_view(r)));
        }
        r
    }

    /// The bindings of the proofs found by looking for the next one `n`
    /// times (see `take_qed`).
    pub fn take_subst(&mut self, wissen: &Wissen, n: usize) -> (r: Result<Vec<Subst>, ErrorInCtx>)
        ensures
            exists|b2: nat, t: Option<Seq<QedView>>| take_rel(*wissen, proofs_view(old(self).proof_queue@), usize::MAX as nat,
                n as nat, proofs_view(final(self).proof_queue@), b2, t) && match r {
                    Ok(v) => t matches Some(qs) && substs_view(v@) == qed_substs(qs),
                    Err(_) => t is None,
                },
    {
        let qeds = match self.take_qed(wissen, n) {
            Ok(v) => v,
            Err(e) => {
                return Err(e);
            },
        };
        let mut out: Vec<Subst> = Vec::new();
        let mut i: usize = 0;
        while i < qeds.len()
            invariant
                i <= qeds@.len(),
                out@.len() == i,
                forall|j: int| 0 <= j < i ==> #[trigger] out@[j]@ == qeds@[j].subst@,
            decreases qeds@.len() - i,
        {
            out.push(qeds[i].subst.clone());
            i = i + 1;
        }
        proof {
            assert(out@.map_values(|s: Subst| s@) =~= qeds_view(qeds@).map_values(|q: QedView| q.subst));
        }
        Ok(out)
    }
}

/// The expressions of a program text read with the default syntax
/// table, where it reads.
pub open spec fn program_mexps(cs: Seq<char>) -> Option<Seq<MexpView>> {
    match lex_from(default_table().chars, cs, 0) {
        Ok(t) => match parse_tokens(t, default_table().ops) {
            Step::Go { val, .. } => Some(val),
            _ => None,
        },
        Err(_) => None,
    }
}

/// The queries and searches for proofs among statements, in order: for
/// each, whether it is a query, and its propositions.
pub open spec fn asked(sts: Seq<StatementView>) -> Seq<(bool, Seq<PropView>)>
    decreases sts.len(),
{
    if sts.len() == 0 {
        Seq::empty()
    } else {
        asked(sts.drop_last()) + match sts.last() {
            StatementView::Query(_, ps) => seq![(true, ps)],
            StatementView::Prove(_, ps) => seq![(false, ps)],
            StatementView::Den(..) => Seq::empty(),
        }
    }
}

/// The counts of the queries and searches for proofs among statements,
/// in order.
pub open spec fn asked_counts(sts: Seq<StatementView>) -> Seq<usize>
    decreases sts.len(),
{
    if sts.len() == 0 {
        Seq::empty()
    } else {
        asked_counts(sts.drop_last()) + match sts.last() {
            StatementView::Query(c, _) => seq![c],
            StatementView::Prove(c, _) => seq![c],
            StatementView::Den(..) => Seq::empty(),
        }
    }
}

proof fn lemma_asked_prefix(sts: Seq<StatementView>, j: int)
    requires
        0 <= j <= sts.len(),
    ensures
        asked_counts(sts).len() == asked(sts).len(),
        asked(sts.take(j)).len() <= asked(sts).len(),
        asked_counts(sts.take(j)).len() == asked(sts.take(j)).len(),
        forall|i: int| 0 <= i < asked(sts.take(j)).len() ==> #[trigger] asked(sts.take(j))[i] == asked(sts)[i]
            && asked_counts(sts.take(j))[i] == asked_counts(sts)[i],
    decreases sts.len(),
{
    if sts.len() == 0 {
        assert(sts.take(j) =~= sts);
    } else if j == sts.len() {
        assert(sts.take(j) =~= sts);
        lemma_asked_prefix(sts.drop_last(), j - 1);
    } else {
        lemma_asked_prefix(sts.drop_last(), j);
        assert(sts.drop_last().take(j) =~= sts.take(j));
    }
}

/// Whether running the program `cs` in `w` can end in an error: where
/// it does not read as statements, or where one of its queries or
/// searches for proofs can (see `search_fails`).
pub open spec fn program_fails(w: Wissen, cs: Seq<char>) -> bool {
    match program_mexps(cs) {
        Some(ms) => match statements_of(ms) {
            Ok(sts) => exists|i: int| 0 <= i < asked(sts).len() && #[trigger] search_fails(w, asked_counts(sts)[i], asked(sts)[i].1),
            Err(_) => true,
        },
        None => true,
    }
}

proof fn lemma_program_fails(w: Wissen, cs: Seq<char>, sts: Seq<StatementView>, i: int)
    requires
        program_mexps(cs) matches Some(ms) && statements_of(ms) == Ok::<Seq<StatementView>, ErrorInCtxView>(sts),
        0 <= i < asked(sts).len(),
        search_fails(w, asked_counts(sts)[i], asked(sts)[i].1),
    ensures
        program_fails(w, cs),
{
    let ms = program_mexps(cs)->Some_0;
    assert(statements_of(ms)->Ok_0 == sts);
    assert(exists|j: int| 0 <= j < asked(sts).len() && #[trigger] search_fails(w, asked_counts(sts)[j], asked(sts)[j].1));
}

/// Whether the output answers a query, and the propositions it answers.
pub open spec fn output_asked(o: WissenOutput) -> (bool, Seq<PropView>) {
    match o {
        WissenOutput::Query { prop_vec, .. } => (true, props_view(prop_vec@)),
        WissenOutput::Prove { prop_vec, .. } => (false, props_view(prop_vec@)),
    }
}

impl Wissen {
    /// Runs a program: names its denotations, then answers its queries and
    /// searches for proofs, in order.
    pub fn wis(&mut self, input: &str) -> (r: Result<Vec<WissenOutput>, ErrorInCtx>)
        requires
            byte_len(input@) <= usize::MAX,
        ensures
            program_mexps(input@) is None ==> r is Err,
            program_mexps(input@) matches Some(ms) && statements_of(ms) is Err ==> r is Err,
            r matches Ok(v) ==> (program_mexps(input@) matches Some(ms) && statements_of(ms) matches Ok(sts)
                && v@.map_values(|o: WissenOutput| output_asked(o)) == asked(sts)
                && forall|i: int| 0 <= i < v@.len() ==> output_found(*final(self), asked_counts(sts)[i], #[trigger] v@[i])),
            r is Err ==> program_fails(*final(self), input@),
    {
        let syntax_table = SyntaxTable::default();
        let mexp_vec = match syntax_table.try_parse(input) {
            Some(Ok(v)) => v,
            Some(Err(e)) => {
                return Err(e);
            },
            None => {
                return Err(ErrorInCtx::new().head("Wissen::wis").line("an operator has no expression before it"));
            },
        };
        let statement_vec = match mexp_vec_to_statement_vec(&mexp_vec) {
            Ok(v) => v,
            Err(e) => {
                return Err(e);
            },
        };
        let mut i: usize = 0;
        while i < statement_vec.len()
            invariant
                i <= statement_vec@.len(),
            decreases statement_vec@.len() - i,
        {
            if let Statement::Den(name, den) = &statement_vec[i] {
                self.den(name.as_str(), den);
            }
            i = i + 1;
        }
        let ghost sts = statement_vec@.map_values(|st: Statement| st@);
        let ghost w = *self;
        let mut output_vec: Vec<WissenOutput> = Vec::new();
        let mut k: usize = 0;
        proof {
            assert(sts.take(0) =~= Seq::<StatementView>::empty());
            assert(output_vec@.map_values(|o: WissenOutput| output_asked(o)) =~= Seq::<(bool, Seq<PropView>)>::empty());
        }
        while k < statement_vec.len()
            invariant
                k <= statement_vec@.len(),
                sts == statement_vec@.map_values(|st: Statement| st@),
                w == *self,
                program_mexps(input@) matches Some(ms) && statements_of(ms) == Ok::<Seq<StatementView>, ErrorInCtxView>(sts),
                output_vec@.map_values(|o: WissenOutput| output_asked(o)) == asked(sts.take(k as int)),
                asked_counts(sts.take(k as int)).len() == output_vec@.len(),
                forall|i: int| 0 <= i < output_vec@.len() ==> output_found(w, asked_counts(sts.take(k as int))[i], #[trigger] output_vec@[i]),
            decreases statement_vec@.len() - k,
        {
            let ghost before = output_vec@;
            proof {
                assert(sts.take(k + 1).drop_last() =~= sts.take(k as int));
                assert(sts.take(k + 1).last() == statement_vec@[k as int]@);
                lemma_asked_prefix(sts, k as int);
                lemma_asked_prefix(sts, k + 1);
                assert(before.map_values(|o: WissenOutput| output_asked(o)).len() == before.len());
            }
            match &statement_vec[k] {
                Statement::Query(counter, prop_vec) => {
                    let mut proving = self.proving(prop_vec);
                    let ghost pv0 = proofs_view(proving.proof_queue@);
                    let ts = proving.take_subst(self, *counter);
                    let ghost (b2, t) = choose|b2: nat, t: Option<Seq<QedView>>| take_rel(w, pv0, usize::MAX as nat, *counter as nat,
                        proofs_view(proving.proof_queue@), b2, t) && match ts {
                            Ok(v) => t matches Some(qs) && substs_view(v@) == qed_substs(qs),
                            Err(_) => t is None,
                        };
                    let ghost q2 = proofs_view(proving.proof_queue@);
                    let subst_vec = match ts {
                        Ok(v) => v,
                        Err(e) => {
                            proof {
                                assert(take_rel(w, seq![first_proof(props_view(prop_vec@))], usize::MAX as nat, *counter as nat, q2, b2, None));
                                let i = before.len() as int;
                                assert(asked(sts.take(k as int)).len() == i);
                                assert(asked(sts.take(k + 1)) == asked(sts.take(k as int)) + seq![(true, props_view(prop_vec@))]);
                                assert(asked(sts.take(k + 1))[i] == (true, props_view(prop_vec@)));
                                assert(i < asked(sts).len());
                                assert(asked_counts(sts.take(k + 1))[i] == *counter);
                                assert(search_fails(w, asked_counts(sts)[i], asked(sts)[i].1));
                                lemma_program_fails(w, input@, sts, i);
                            }
                            return Err(e);
                        },
                    };
                    let ghost sv = substs_view(subst_vec@);
                    let pv = copy_prop_vec(prop_vec);
                    let ghost pvv = props_view(pv@);
                    let out = WissenOutput::Query { prop_vec: pv, subst_vec };
                    proof {
                        let qs = t.unwrap();
                        assert(sv == qed_substs(qs));
                        assert(pvv == props_view(prop_vec@));
                        assert(take_rel(w, seq![first_proof(pvv)], usize::MAX as nat, *counter as nat, q2, b2, Some(qs)));
                        lemma_output_found(w, *counter, out, q2, b2, qs);
                    }
                    output_vec.push(out);
                    proof {
                        assert(output_vec@.map_values(|o: WissenOutput| output_asked(o))
                            =~= before.map_values(|o: WissenOutput| output_asked(o)).push((true, props_view(prop_vec@))));
                        assert(asked_counts(sts.take(k + 1)) =~= asked_counts(sts.take(k as int)).push(*counter));
                    }
                },
                Statement::Prove(counter, prop_vec) => {
                    let mut proving = self.proving(prop_vec);
                    let ghost pv0 = proofs_view(proving.proof_queue@);
                    let tq = proving.take_qed(self, *counter);
                    let ghost b2 = choose|b2: nat| take_rel(w, pv0, usize::MAX as nat, *counter as nat,
                        proofs_view(proving.proof_queue@), b2, take_result_view(tq));
                    let ghost q2 = proofs_view(proving.proof_queue@);
                    let qed_vec = match tq {
                        Ok(v) => v,
                        Err(e) => {
                            proof {
                                assert(take_rel(w, seq![first_proof(props_view(prop_vec@))], usize::MAX as nat, *counter as nat, q2, b2, None));
                                let i = before.len() as int;
                                assert(asked(sts.take(k as int)).len() == i);
                                assert(asked(sts.take(k + 1)) == asked(sts.take(k as int)) + seq![(false, props_view(prop_vec@))]);
                                assert(asked(sts.take(k + 1))[i] == (false, props_view(prop_vec@)));
                                assert(i < asked(sts).len());
                                assert(asked_counts(sts.take(k + 1))[i] == *counter);
                                assert(search_fails(w, asked_counts(sts)[i], asked(sts)[i].1));
                                lemma_program_fails(w, input@, sts, i);
                            }
                            return Err(e);
                        },
                    };
                    let ghost qv = qeds_view(qed_vec@);
                    let pv = copy_prop_vec(prop_vec);
                    let ghost pvv = props_view(pv@);
                    let out = WissenOutput::Prove { prop_vec: pv, qed_vec };
                    proof {
                        assert(pvv == props_view(prop_vec@));
                        assert(take_rel(w, seq![first_proof(pvv)], usize::MAX as nat, *counter as nat, q2, b2, Some(qv)));
                        lemma_output_found(w, *counter, out, q2, b2, qv);
                    }
                    output_vec.push(out);
                    proof {
                        assert(output_vec@.map_values(|o: WissenOutput| output_asked(o))
                            =~= before.map_values(|o: WissenOutput| output_asked(o)).push((false, props_view(prop_vec@))));
                        assert(asked_counts(sts.take(k + 1)) =~= asked_counts(sts.take(k as int)).push(*counter));
                    }
                },
                Statement::Den(..) => {
                    proof {
                        assert(asked(sts.take(k as int)) + Seq::<(bool, Seq<PropView>)>::empty() =~= asked(sts.take(k as int)));
                        assert(asked_counts(sts.take(k as int)) + Seq::<usize>::empty() =~= asked_counts(sts.take(k as int)));
                    }
                },
            }
            k = k + 1;
        }
        proof {
            assert(sts.take(statement_vec@.len() as int) =~= sts);
        }
        Ok(output_vec)
    }
}

fn copy_prop_vec(v: &Vec<Prop>) -> (r: Vec<Prop>)
    ensures
        props_view(r@) == props_view(v@),
{
    let mut out: Vec<Prop> = Vec::new();
    let mut i: usize = 0;
    while i < v.len()
        invariant
            i <= v@.len(),
            out@.len() == i,
            forall|j: int| 0 <= j < i ==> #[trigger] prop_view(out@[j]) == prop_view(v@[j]),
        decreases v@.len() - i,
    {
        out.push(copy_prop(&v[i]));
        i = i + 1;
    }
    proof {
        assert(props_view(out@) =~= props_view(v@));
    }
    out
}

proof fn lemma_deep_walk_list_none(bs: Seq<(VarView, TermView)>, ts: Seq<TermView>, k: int, n: int, fuel: nat)
    requires
        0 <= k <= n <= ts.len(),
        deep_walk_list(bs, ts, k, fuel) is None,
    ensures
        deep_walk_list(bs, ts, n, fuel) is None,
    decreases n - k,
{
    if k < n {
        lemma_deep_walk_list_none(bs, ts, k, n - 1, fuel);
    }
}

/// The view of an optional term.
pub open spec fn opt_term_view(o: Option<Term>) -> Option<TermView> {
    match o {
        Some(t) => Some(t@),
        None => None,
    }
}

/// The view of an optional substitution.
pub open spec fn opt_subst_view(o: Option<Subst>) -> Option<Seq<(VarView, TermView)>> {
    match o {
        Some(s) => Some(s@),
        None => None,
    }
}

/// `x` read back from `bs` within `fuel` at each stage: walked all the
/// way down, its variables renamed from nothing, and walked down again.
pub open spec fn reify_var_fuel(bs: Seq<(VarView, TermView)>, x: VarView, fuel: nat) -> Option<TermView> {
    match deep_walk_fuel(bs, TermView::Var(x), fuel) {
        None => None,
        Some(t) => match localize_fuel(Seq::empty(), t, fuel) {
            None => None,
            Some(l) => deep_walk_fuel(l, t, fuel),
        },
    }
}

impl Subst {
    /// `term` walked all the way down within `fuel` steps and levels:
    /// `None` where the fuel runs out.
    pub fn deep_walk_within(&self, term: &Term, fuel: usize) -> (r: Option<Term>)
        ensures
            opt_term_view(r) == deep_walk_fuel(self@, term@, fuel as nat),
        decreases fuel, 0nat,
    {
        if fuel == 0 {
            return None;
        }
        let w = self.walk_within(term, fuel);
        if self.bound_p(&w) {
            return None;
        }
        let f = fuel - 1;
        match w {
            Term::Var(_) => Some(w),
            Term::Cons(Cons { head, body }) => {
                let ghost ts = terms_view(body@);
                proof {
                    lemma_terms_view(body@);
                    assert(terms_view(Seq::<Term>::empty()) =~= Seq::<TermView>::empty());
                }
                let ghost target = deep_walk_fuel(self@, term@, fuel as nat);
                proof {
                    assert(target == match deep_walk_list(self@, ts, ts.len() as int, f as nat) {
                        Some(b) => Some(TermView::Cons(head@, b)),
                        None => None,
                    });
                }
                let mut out: Vec<Term> = Vec::new();
                let mut i: usize = 0;
                while i < body.len()
                    invariant
                        i <= body@.len(),
                        ts == terms_view(body@),
                        ts.len() == body@.len(),
                        forall|j: int| 0 <= j < body@.len() ==> #[trigger] ts[j] == term_view(body@[j]),
                        deep_walk_list(self@, ts, i as int, f as nat) == Some(terms_view(out@)),
                        fuel > 0,
                        f == fuel - 1,
                        target == deep_walk_fuel(self@, term@, fuel as nat),
                        target == match deep_walk_list(self@, ts, ts.len() as int, f as nat) {
                            Some(b) => Some(TermView::Cons(head@, b)),
                            None => None,
                        },
                    decreases body@.len() - i,
                {
                    match self.deep_walk_within(&body[i], f) {
                        Some(w) => {
                            let ghost before = out@;
                            out.push(w);
                            proof {
                                assert(out@.drop_last() =~= before);
                            }
                        },
                        None => {
                            proof {
                                lemma_deep_walk_list_none(self@, ts, i + 1, ts.len() as int, f as nat);
                            }
                            return None;
                        },
                    }
                    i = i + 1;
                }
                Some(Term::Cons(Cons { head, body: out }))
            },
        }
    }

    /// The renaming of the variables of `term` within `fuel` (see
    /// `localize_by_term`): `None` where the fuel runs out or the count of
    /// bindings reaches `usize::MAX`.
    pub fn localize_within(&self, term: &Term, fuel: usize) -> (r: Option<Subst>)
        requires
            self@.len() <= usize::MAX,
        ensures
            opt_subst_view(r) == localize_fuel(self@, term@, fuel as nat),
            r matches Some(s) ==> s@.len() <= usize::MAX,
        decreases fuel, 0nat,
    {
        if fuel == 0 {
            return None;
        }
        let w = self.walk_within(term, fuel);
        if self.bound_p(&w) {
            return None;
        }
        match &w {
            Term::Var(var) => {
                let n = self.len();
                if n == usize::MAX {
                    return None;
                }
                Some(self.extend(copy_var(var), Term::Var(Var { name: copy_string(&var.name), id: Some(Id::Local(n)) })))
            },
            Term::Cons(cons) => {
                let f = fuel - 1;
                let ghost ts = terms_view(cons.body@);
                proof {
                    lemma_terms_view(cons.body@);
                }
                let mut subst = self.clone();
                let mut i: usize = 0;
                while i < cons.body.len()
                    invariant
                        i <= cons.body@.len(),
                        ts == terms_view(cons.body@),
                        ts.len() == cons.body@.len(),
                        forall|j: int| 0 <= j < cons.body@.len() ==> #[trigger] ts[j] == term_view(cons.body@[j]),
                        localize_list(subst@, ts, i as int, f as nat) == localize_list(self@, ts, 0, f as nat),
                        subst@.len() <= usize::MAX,
                        localize_fuel(self@, term@, fuel as nat) == localize_list(self@, ts, 0, f as nat),
                        fuel > 0,
                        f == fuel - 1,
                    decreases cons.body@.len() - i,
                {
                    match subst.localize_within(&cons.body[i], f) {
                        Some(s) => {
                            subst = s;
                        },
                        None => {
                            return None;
                        },
                    }
                    i = i + 1;
                }
                Some(subst)
            },
        }
    }

    /// The variable read back within `fuel` at each stage (see
    /// `reify_var`): `None` where a stage does not end within it.
    pub fn reify_var_within(&self, var: &Var, fuel: usize) -> (r: Option<Term>)
        ensures
            opt_term_view(r) == reify_var_fuel(self@, var@, fuel as nat),
    {
        let term = Term::Var(copy_var(var));
        let t = match self.deep_walk_within(&term, fuel) {
            Some(t) => t,
            None => {
                return None;
            },
        };
        let empty = Subst::new();
        let local = match empty.localize_within(&t, fuel) {
            Some(s) => s,
            None => {
                return None;
            },
        };
        local.deep_walk_within(&t, fuel)
    }
}

/// The variables of a term, after those of `acc`, each once, in the order
/// first met.
pub open spec fn term_vars(acc: Seq<VarView>, t: TermView) -> Seq<VarView>
    decreases t, 1nat,
{
    match t {
        TermView::Var(x) => if acc.contains(x) { acc } else { acc.push(x) },
        TermView::Cons(_, body) => terms_vars(acc, body),
    }
}

/// The variables of terms, after those of `acc`, each once, in the order
/// first met.
pub open spec fn terms_vars(acc: Seq<VarView>, ts: Seq<TermView>) -> Seq<VarView>
    decreases ts, 0nat,
{
    if ts.len() == 0 {
        acc
    } else {
        term_vars(terms_vars(acc, ts.drop_last()), ts.last())
    }
}

/// The variables of propositions, each once, in the order first met.
pub open spec fn props_vars(ps: Seq<PropView>) -> Seq<VarView>
    decreases ps.len(),
{
    if ps.len() == 0 {
        Seq::empty()
    } else {
        terms_vars(props_vars(ps.drop_last()), ps.last().args)
    }
}

fn contains_var(v: &Vec<Var>, x: &Var) -> (r: bool)
    ensures
        r == v@.map_values(|y: Var| y@).contains(x@),
{
    let mut i: usize = 0;
    while i < v.len()
        invariant
            i <= v@.len(),
            forall|j: int| 0 <= j < i ==> v@[j]@ != x@,
        decreases v@.len() - i,
    {
        if var_eq(&v[i], x) {
            proof {
                assert(v@.map_values(|y: Var| y@)[i as int] == x@);
            }
            return true;
        }
        i = i + 1;
    }
    proof {
        let m = v@.map_values(|y: Var| y@);
        if m.contains(x@) {
            let j = choose|j: int| 0 <= j < m.len() && #[trigger] m[j] == x@;
            assert(v@[j]@ == x@);
        }
    }
    false
}

fn collect_term_vars(acc: &mut Vec<Var>, t: &Term)
    ensures
        final(acc)@.map_values(|y: Var| y@) == term_vars(old(acc)@.map_values(|y: Var| y@), t@),
    decreases t, 1nat,
{
    match t {
        Term::Var(x) => {
            if !contains_var(acc, x) {
                let ghost before = acc@;
                acc.push(copy_var(x));
                proof {
                    assert(acc@.map_values(|y: Var| y@) =~= before.map_values(|y: Var| y@).push(x@));
                }
            }
        },
        Term::Cons(c) => collect_terms_vars(acc, &c.body),
    }
}

fn collect_terms_vars(acc: &mut Vec<Var>, ts: &Vec<Term>)
    ensures
        final(acc)@.map_values(|y: Var| y@) == terms_vars(old(acc)@.map_values(|y: Var| y@), terms_view(ts@)),
    decreases ts, 0nat,
{
    let ghost start = acc@.map_values(|y: Var| y@);
    let mut i: usize = 0;
    proof {
        assert(terms_view(ts@.take(0)) =~= Seq::<TermView>::empty());
    }
    while i < ts.len()
        invariant
            i <= ts@.len(),
            start == old(acc)@.map_values(|y: Var| y@),
            acc@.map_values(|y: Var| y@) == terms_vars(start, terms_view(ts@.take(i as int))),
        decreases ts@.len() - i,
    {
        assert(decreases_to!(ts => ts@[i as int]));
        collect_term_vars(acc, &ts[i]);
        proof {
            assert(ts@.take(i + 1) =~= ts@.take(i as int).push(ts@[i as int]));
            assert(ts@.take(i + 1).drop_last() =~= ts@.take(i as int));
            assert(terms_view(ts@.take(i + 1)).drop_last() == terms_view(ts@.take(i as int)));
            assert(terms_view(ts@.take(i + 1)).last() == term_view(ts@[i as int]));
        }
        i = i + 1;
    }
    proof {
        assert(ts@.take(ts@.len() as int) =~= ts@);
    }
}

/// The variables of `prop_vec`, each once, in the order first met.
pub fn collect_var_from_prop_vec(prop_vec: &Vec<Prop>) -> (r: Vec<Var>)
    ensures
        r@.map_values(|y: Var| y@) == props_vars(props_view(prop_vec@)),
{
    let mut acc: Vec<Var> = Vec::new();
    let mut i: usize = 0;
    proof {
        assert(acc@.map_values(|y: Var| y@) =~= Seq::<VarView>::empty());
        assert(props_view(prop_vec@.take(0)) =~= Seq::<PropView>::empty());
    }
    while i < prop_vec.len()
        invariant
            i <= prop_vec@.len(),
            acc@.map_values(|y: Var| y@) == props_vars(props_view(prop_vec@.take(i as int))),
        decreases prop_vec@.len() - i,
    {
        collect_terms_vars(&mut acc, &prop_vec[i].args);
        proof {
            assert(props_view(prop_vec@.take(i + 1)).drop_last() =~= props_view(prop_vec@.take(i as int)));
            assert(props_view(prop_vec@.take(i + 1)).last() == prop_vec@[i as int]@);
        }
        i = i + 1;
    }
    proof {
        assert(prop_vec@.take(prop_vec@.len() as int) =~= prop_vec@);
    }
    acc
}

/// The text of `x` read back from `bs` within the runtime's budget; the
/// variable itself where reading back does not end within it.
pub open spec fn reified_var_text(bs: Seq<(VarView, TermView)>, x: VarView) -> Seq<char> {
    match reify_var_fuel(bs, x, usize::MAX as nat) {
        Some(t) => term_text(t),
        None => term_text(TermView::Var(x)),
    }
}

/// The lines `var = value` of the variables `xs` read back from `bs`.
pub open spec fn var_lines(xs: Seq<VarView>, bs: Seq<(VarView, TermView)>) -> Seq<char>
    decreases xs.len(),
{
    if xs.len() == 0 {
        Seq::empty()
    } else {
        var_lines(xs.drop_last(), bs) + var_text(xs.last()) + " = "@ + reified_var_text(bs, xs.last()) + seq!['\n']
    }
}

/// The text of what a query or a search for proofs found.
pub open spec fn output_text(o: WissenOutput) -> Seq<char> {
    match o {
        WissenOutput::Query { prop_vec, subst_vec } => {
            let xs = props_vars(props_view(prop_vec@));
            "<query-output>\n\n"@ + joined(subst_vec@.map_values(|s: Subst|
                "<subst>\n"@ + var_lines(xs, s@) + "</subst>\n\n"@), Seq::empty()) + "</query-output>"@
        },
        WissenOutput::Prove { prop_vec, qed_vec } => {
            let xs = props_vars(props_view(prop_vec@));
            "<prove-output>\n\n"@ + joined(qed_vec@.map_values(|q: Qed|
                "<deduction-tree>\n"@ + tree_text(tree_view(q.deduction_tree)) + "\n</deduction-tree>\n<subst>\n"@
                    + var_lines(xs, q.subst@) + "</subst>\n\n"@), Seq::empty()) + "</prove-output>"@
        },
    }
}

fn write_var_lines(s: &mut String, vars: &Vec<Var>, subst: &Subst)
    ensures
        final(s)@ == old(s)@ + var_lines(vars@.map_values(|y: Var| y@), subst@),
{
    let ghost xs = vars@.map_values(|y: Var| y@);
    let mut i: usize = 0;
    proof {
        assert(xs.take(0) =~= Seq::<VarView>::empty());
        assert(old(s)@ + Seq::<char>::empty() =~= old(s)@);
    }
    while i < vars.len()
        invariant
            i <= vars@.len(),
            xs == vars@.map_values(|y: Var| y@),
            s@ == old(s)@ + var_lines(xs.take(i as int), subst@),
        decreases vars@.len() - i,
    {
        push_str(s, vars[i].to_string().as_str());
        push_str(s, " = ");
        match subst.reify_var_within(&vars[i], usize::MAX) {
            Some(t) => push_str(s, t.to_string().as_str()),
            None => push_str(s, Term::Var(copy_var(&vars[i])).to_string().as_str()),
        }
        push_char(s, '\n');
        proof {
            assert(xs.take(i + 1).drop_last() =~= xs.take(i as int));
            assert(xs.take(i + 1).last() == vars@[i as int]@);
        }
        i = i + 1;
    }
    proof {
        assert(xs.take(vars@.len() as int) =~= xs);
    }
}

impl WissenOutput {
    /// The text of what the query or the search found: each answer's
    /// bindings of the variables of the propositions, and for a search
    /// each proof's deduction tree.
    #[verifier::spinoff_prover]
    #[verifier::rlimit(40)]
    pub fn to_string(&self) -> (r: String)
        ensures
            r@ == output_text(*self),
    {
        let mut s = String::new();
        match self {
            WissenOutput::Query { prop_vec, subst_vec } => {
                let vars = collect_var_from_prop_vec(prop_vec);
                push_str(&mut s, "<query-output>\n\n");
                let ghost pieces = subst_vec@.map_values(|b: Subst| "<subst>\n"@ + var_lines(props_vars(props_view(prop_vec@)), b@) + "</subst>\n\n"@);
                let mut i: usize = 0;
                proof {
                    assert(pieces.take(0) =~= Seq::<Seq<char>>::empty());
                    reveal_strlit("<query-output>\n\n");
                }
                while i < subst_vec.len()
                    invariant
                        i <= subst_vec@.len(),
                        vars@.map_values(|y: Var| y@) == props_vars(props_view(prop_vec@)),
                        pieces == subst_vec@.map_values(|b: Subst| "<subst>\n"@ + var_lines(props_vars(props_view(prop_vec@)), b@) + "</subst>\n\n"@),
                        s@ == "<query-output>\n\n"@ + joined(pieces.take(i as int), Seq::empty()),
                    decreases subst_vec@.len() - i,
                {
                    let ghost before = s@;
                    push_str(&mut s, "<subst>\n");
                    write_var_lines(&mut s, &vars, &subst_vec[i]);
                    push_str(&mut s, "</subst>\n\n");
                    proof {
                        lemma_joined_empty_push(pieces.take(i as int), pieces[i as int]);
                        assert(pieces.take(i + 1) =~= pieces.take(i as int).push(pieces[i as int]));
                    }
                    i = i + 1;
                }
                push_str(&mut s, "</query-output>");
                proof {
                    assert(pieces.take(subst_vec@.len() as int) =~= pieces);
                }
            },
            WissenOutput::Prove { prop_vec, qed_vec } => {
                let vars = collect_var_from_prop_vec(prop_vec);
                push_str(&mut s, "<prove-output>\n\n");
                let ghost pieces = qed_vec@.map_values(|q: Qed| "<deduction-tree>\n"@ + tree_text(tree_view(q.deduction_tree))
                    + "\n</deduction-tree>\n<subst>\n"@ + var_lines(props_vars(props_view(prop_vec@)), q.subst@) + "</subst>\n\n"@);
                let mut i: usize = 0;
                proof {
                    assert(pieces.take(0) =~= Seq::<Seq<char>>::empty());
                }
                while i < qed_vec.len()
                    invariant
                        i <= qed_vec@.len(),
                        vars@.map_values(|y: Var| y@) == props_vars(props_view(prop_vec@)),
                        pieces == qed_vec@.map_values(|q: Qed| "<deduction-tree>\n"@ + tree_text(tree_view(q.deduction_tree))
                            + "\n</deduction-tree>\n<subst>\n"@ + var_lines(props_vars(props_view(prop_vec@)), q.subst@) + "</subst>\n\n"@),
                        s@ == "<prove-output>\n\n"@ + joined(pieces.take(i as int), Seq::empty()),
                    decreases qed_vec@.len() - i,
                {
                    push_str(&mut s, "<deduction-tree>\n");
                    push_str(&mut s, qed_vec[i].deduction_tree.to_string().as_str());
                    push_str(&mut s, "\n</deduction-tree>\n<subst>\n");
                    write_var_lines(&mut s, &vars, &qed_vec[i].subst);
                    push_str(&mut s, "</subst>\n\n");
                    proof {
                        lemma_joined_empty_push(pieces.take(i as int), pieces[i as int]);
                        assert(pieces.take(i + 1) =~= pieces.take(i as int).push(pieces[i as int]));
                    }
                    i = i + 1;
                }
                push_str(&mut s, "</prove-output>");
                proof {
                    assert(pieces.take(qed_vec@.len() as int) =~= pieces);
                }
            },
        }
        s
    }
}

proof fn lemma_joined_empty_push(ps: Seq<Seq<char>>, p: Seq<char>)
    ensures
        joined(ps.push(p), Seq::empty()) == joined(ps, Seq::empty()) + p,
{
    assert(ps.push(p).drop_last() =~= ps);
    if ps.len() == 0 {
        assert(joined(ps.push(p), Seq::empty()) == ps.push(p)[0]);
        assert(joined(ps, Seq::empty()) + p =~= p);
    } else {
        assert(joined(ps.push(p), Seq::empty()) =~= joined(ps, Seq::empty()) + Seq::<char>::empty() + p);
    }
}

} // verus!
