//! The second form of the micro logic language: named variables and
//! tuples, substitutions kept as a chain of bindings, relations and goals
//! as data.

use vstd::prelude::*;
use std::sync::Arc;
use crate::dict::share;
use crate::ukanren::new_v4_id;
use crate::text::{string_from, str_eq};

verus! {

/// A variable: a name, and an id that tells apart variables of one name.
#[derive(Debug, PartialEq)]
pub struct VarTerm {
    pub name: String,
    pub id: u128,
}

/// A tuple: a head and the terms it holds.
#[derive(Debug, PartialEq)]
pub struct TupleTerm {
    pub head: String,
    pub body: Vec<Term>,
}

/// A term: a variable or a tuple.
#[derive(Debug, PartialEq)]
pub enum Term {
    Var(VarTerm),
    Tuple(TupleTerm),
}

/// What a variable is: its name and its id.
pub struct VarView {
    pub name: Seq<char>,
    pub id: u128,
}

/// What a term is.
pub enum TermView {
    Var(VarView),
    Tuple { head: Seq<char>, body: Seq<TermView> },
}

impl View for VarTerm {
    type V = VarView;

    open spec fn view(&self) -> VarView {
        VarView { name: self.name@, id: self.id }
    }
}

/// The view of a term.
pub open spec fn term_view(t: Term) -> TermView
    decreases t, 2nat,
{
    match t {
        Term::Var(v) => TermView::Var(v@),
        Term::Tuple(tt) => tuple_view(tt),
    }
}

/// The view of a tuple, as a term.
pub open spec fn tuple_view(tt: TupleTerm) -> TermView
    decreases tt, 1nat,
{
    TermView::Tuple { head: tt.head@, body: terms_view(tt.body@) }
}

/// The views of terms.
pub open spec fn terms_view(ts: Seq<Term>) -> Seq<TermView>
    decreases ts, 0nat,
{
    if ts.len() == 0 {
        Seq::empty()
    } else {
        terms_view(ts.drop_last()).push(term_view(ts.last()))
    }
}

impl View for Term {
    type V = TermView;

    open spec fn view(&self) -> TermView {
        term_view(*self)
    }
}

impl View for TupleTerm {
    type V = TermView;

    open spec fn view(&self) -> TermView {
        tuple_view(*self)
    }
}

proof fn lemma_terms_view(ts: Seq<Term>)
    ensures
        terms_view(ts).len() == ts.len(),
        forall|i: int| 0 <= i < ts.len() ==> #[trigger] terms_view(ts)[i] == term_view(ts[i]),
    decreases ts.len(),
{
    if ts.len() > 0 {
        lemma_terms_view(ts.drop_last());
        assert forall|i: int| 0 <= i < ts.len() implies #[trigger] terms_view(ts)[i] == term_view(ts[i]) by {
            if i < ts.len() - 1 {
                assert(ts.drop_last()[i] == ts[i]);
            }
        }
    }
}

impl Clone for VarTerm {
    fn clone(&self) -> (r: Self)
        ensures
            r@ == self@,
    {
        VarTerm { name: string_from(self.name.as_str()), id: self.id }
    }
}

fn var_eq(a: &VarTerm, b: &VarTerm) -> (r: bool)
    ensures
        r == (a@ == b@),
{
    str_eq(a.name.as_str(), b.name.as_str()) && a.id == b.id
}

fn copy_term(t: &Term) -> (r: Term)
    ensures
        r@ == t@,
    decreases t, 2nat,
{
    match t {
        Term::Var(v) => Term::Var(v.clone()),
        Term::Tuple(tt) => Term::Tuple(copy_tuple(tt)),
    }
}

fn copy_tuple(tt: &TupleTerm) -> (r: TupleTerm)
    ensures
        r@ == tt@,
    decreases tt, 1nat,
{
    TupleTerm { head: string_from(tt.head.as_str()), body: copy_terms(&tt.body) }
}

fn copy_terms(v: &Vec<Term>) -> (r: Vec<Term>)
    ensures
        terms_view(r@) == terms_view(v@),
    decreases v, 0nat,
{
    let mut out: Vec<Term> = Vec::new();
    let mut i: usize = 0;
    proof {
        assert(v@.take(0) =~= Seq::<Term>::empty());
        assert(out@ =~= Seq::<Term>::empty());
    }
    while i < v.len()
        invariant
            i <= v@.len(),
            terms_view(out@) == terms_view(v@.take(i as int)),
        decreases v@.len() - i,
    {
        assert(decreases_to!(v => v@[i as int]));
        let c = copy_term(&v[i]);
        let ghost before = out@;
        out.push(c);
        proof {
            assert(out@.drop_last() =~= before);
            assert(v@.take(i + 1).drop_last() =~= v@.take(i as int));
            assert(v@.take(i + 1).last() == v@[i as int]);
        }
        i = i + 1;
    }
    proof {
        assert(v@.take(v@.len() as int) =~= v@);
    }
    out
}

impl Clone for Term {
    fn clone(&self) -> (r: Self)
        ensures
            r@ == self@,
    {
        copy_term(self)
    }
}

impl Clone for TupleTerm {
    fn clone(&self) -> (r: Self)
        ensures
            r@ == self@,
    {
        copy_tuple(self)
    }
}

impl Term {
    /// A new variable named `s`, with a random id.
    pub fn var(s: &str) -> (t: Term)
        ensures
            t@ matches TermView::Var(v) && v.name == s@,
    {
        Term::Var(VarTerm { name: string_from(s), id: new_v4_id() })
    }

    /// The tuple with head `h` holding `vec`.
    pub fn tuple(h: &str, vec: Vec<Term>) -> (t: Term)
        ensures
            t@ == (TermView::Tuple { head: h@, body: terms_view(vec@) }),
    {
        Term::Tuple(TupleTerm { head: string_from(h), body: vec })
    }
}

/// A substitution: bindings of variables to terms, the latest first.
#[derive(Debug, PartialEq)]
pub enum Subst {
    Null,
    Cons { var: VarTerm, term: Term, next: Arc<Subst> },
}

/// The bindings of a substitution, the latest first.
pub open spec fn bindings(s: Subst) -> Seq<(VarView, TermView)>
    decreases s,
{
    match s {
        Subst::Null => Seq::empty(),
        Subst::Cons { var, term, next } => seq![(var@, term@)] + bindings(*next),
    }
}

impl View for Subst {
    type V = Seq<(VarView, TermView)>;

    open spec fn view(&self) -> Seq<(VarView, TermView)> {
        bindings(*self)
    }
}

/// The term the latest binding of `x` binds it to.
pub open spec fn find_spec(bs: Seq<(VarView, TermView)>, x: VarView) -> Option<TermView>
    decreases bs.len(),
{
    if bs.len() == 0 {
        None
    } else if bs[0].0 == x {
        Some(bs[0].1)
    } else {
        find_spec(bs.drop_first(), x)
    }
}

/// Whether the term is a variable that the bindings bind.
pub open spec fn bound(bs: Seq<(VarView, TermView)>, t: TermView) -> bool {
    t is Var && find_spec(bs, t->Var_0) is Some
}

/// Where a term leads through the bindings within `fuel` steps.
pub open spec fn walk_fuel(bs: Seq<(VarView, TermView)>, t: TermView, fuel: nat) -> TermView
    decreases fuel,
{
    if fuel > 0 && bound(bs, t) {
        walk_fuel(bs, find_spec(bs, t->Var_0)->Some_0, (fuel - 1) as nat)
    } else {
        t
    }
}

/// Whether walking the term through the bindings comes to a term that is
/// no bound variable.  Bindings that make a variable stand, through other
/// variables, for itself keep the walk going without end.
pub open spec fn walk_ends(bs: Seq<(VarView, TermView)>, t: TermView) -> bool {
    exists|fuel: nat| !bound(bs, #[trigger] walk_fuel(bs, t, fuel))
}

/// Where a term leads through the bindings, where the walk ends.
pub open spec fn walk_spec(bs: Seq<(VarView, TermView)>, t: TermView) -> TermView {
    walk_fuel(bs, t, choose|fuel: nat| !bound(bs, #[trigger] walk_fuel(bs, t, fuel)))
}

impl Clone for Subst {
    fn clone(&self) -> (r: Self)
        ensures
            r@ == self@,
    {
        match self {
            Subst::Null => Subst::Null,
            Subst::Cons { var, term, next } => Subst::Cons { var: var.clone(), term: term.clone(), next: share(next) },
        }
    }
}

impl Subst {
    /// The substitution that binds nothing.
    pub fn new() -> (s: Subst)
        ensures
            s@ == Seq::<(VarView, TermView)>::empty(),
    {
        Subst::Null
    }

    /// The substitution with `var` bound to `term` before all other
    /// bindings.
    pub fn ext(&self, var: VarTerm, term: Term) -> (s: Subst)
        ensures
            s@ == seq![(var@, term@)] + self@,
    {
        Subst::Cons { var, term, next: Arc::new(self.clone()) }
    }

    /// The term the latest binding of `var` binds it to.
    pub fn find(&self, var: &VarTerm) -> (r: Option<&Term>)
        ensures
            r matches Some(t) ==> find_spec(self@, var@) == Some(t@),
            r is None ==> find_spec(self@, var@) is None,
        decreases self,
    {
        match self {
            Subst::Null => None,
            Subst::Cons { var: first, term, next } => {
                proof {
                    assert(self@.drop_first() =~= next@);
                }
                if var_eq(first, var) {
                    Some(term)
                } else {
                    next.find(var)
                }
            },
        }
    }

    fn walk_in(&self, term: &Term, Ghost(fuel): Ghost<nat>) -> (r: Term)
        requires
            !bound(self@, walk_fuel(self@, term@, fuel)),
        ensures
            r@ == walk_fuel(self@, term@, fuel),
        decreases fuel,
    {
        match term {
            Term::Var(var) => {
                match self.find(var) {
                    Some(new_term) => self.walk_in(new_term, Ghost((fuel - 1) as nat)),
                    None => term.clone(),
                }
            },
            _ => term.clone(),
        }
    }

    /// Where `term` leads through the bindings: to a term that is no bound
    /// variable.
    pub fn walk(&self, term: &Term) -> (r: Term)
        requires
            walk_ends(self@, term@),
        ensures
            r@ == walk_spec(self@, term@),
    {
        let ghost fuel = choose|fuel: nat| !bound(self@, #[trigger] walk_fuel(self@, term@, fuel));
        self.walk_in(term, Ghost(fuel))
    }
}

/// Unifying `u` and `v` in the bindings `bs`, within `fuel` steps of walking
/// and levels of nested tuples: `None` where the fuel runs out; else
/// `Some(None)` where the terms cannot be made equal, and `Some(Some(bs2))`
/// with the bindings that make them equal.  Both terms are walked first; a
/// variable is bound to the other term; tuples with one head and one length
/// are unified element by element.
pub open spec fn unify_fuel(bs: Seq<(VarView, TermView)>, u: TermView, v: TermView, fuel: nat)
    -> Option<Option<Seq<(VarView, TermView)>>>
    decreases fuel, 0nat,
{
    if fuel == 0 {
        None
    } else {
        let wu = walk_fuel(bs, u, fuel);
        let wv = walk_fuel(bs, v, fuel);
        if bound(bs, wu) || bound(bs, wv) {
            None
        } else if wu is Var && wv is Var && wu->Var_0 == wv->Var_0 {
            Some(Some(bs))
        } else if wu is Var {
            Some(Some(seq![(wu->Var_0, wv)] + bs))
        } else if wv is Var {
            Some(Some(seq![(wv->Var_0, wu)] + bs))
        } else if wu->head != wv->head || wu->body.len() != wv->body.len() {
            Some(None)
        } else {
            unify_list(bs, wu->body, wv->body, 0, (fuel - 1) as nat)
        }
    }
}

/// Unifying the elements of `us` and `vs` from index `i` on, one pair after
/// another, each in the bindings the pair before left.
pub open spec fn unify_list(bs: Seq<(VarView, TermView)>, us: Seq<TermView>, vs: Seq<TermView>, i: int, fuel: nat)
    -> Option<Option<Seq<(VarView, TermView)>>>
    decreases fuel, 1nat + (if i < us.len() { (us.len() - i) as nat } else { 0nat }),
{
    if i < 0 || i >= us.len() || i >= vs.len() {
        Some(Some(bs))
    } else {
        match unify_fuel(bs, us[i], vs[i], fuel) {
            None => None,
            Some(None) => Some(None),
            Some(Some(bs2)) => unify_list(bs2, us, vs, i + 1, fuel),
        }
    }
}

/// Whether unifying `u` and `v` in `bs` comes to an end.
pub open spec fn unify_ends(bs: Seq<(VarView, TermView)>, u: TermView, v: TermView) -> bool {
    exists|fuel: nat| #[trigger] unify_fuel(bs, u, v, fuel) is Some
}

/// What unifying `u` and `v` in `bs` gives, where it comes to an end.
pub open spec fn unify_spec(bs: Seq<(VarView, TermView)>, u: TermView, v: TermView) -> Option<Seq<(VarView, TermView)>> {
    unify_fuel(bs, u, v, choose|fuel: nat| #[trigger] unify_fuel(bs, u, v, fuel) is Some)->Some_0
}

impl Subst {
    fn unify_in(&self, u: &Term, v: &Term, Ghost(fuel): Ghost<nat>) -> (r: Option<Subst>)
        requires
            unify_fuel(self@, u@, v@, fuel) is Some,
        ensures
            match unify_fuel(self@, u@, v@, fuel)->Some_0 {
                Some(bs) => r matches Some(s) && s@ == bs,
                None => r is None,
            },
        decreases fuel,
    {
        let wu = self.walk_in(u, Ghost(fuel));
        let wv = self.walk_in(v, Ghost(fuel));
        match (wu, wv) {
            (Term::Var(a), Term::Var(b)) => {
                if var_eq(&a, &b) {
                    Some(self.clone())
                } else {
                    Some(self.ext(a, Term::Var(b)))
                }
            },
            (Term::Var(a), wv) => Some(self.ext(a, wv)),
            (wu, Term::Var(b)) => Some(self.ext(b, wu)),
            (Term::Tuple(ut), Term::Tuple(vt)) => {
                proof {
                    lemma_terms_view(ut.body@);
                    lemma_terms_view(vt.body@);
                }
                if !str_eq(ut.head.as_str(), vt.head.as_str()) {
                    return None;
                }
                if ut.body.len() != vt.body.len() {
                    return None;
                }
                let ghost usv = terms_view(ut.body@);
                let ghost vsv = terms_view(vt.body@);
                let ghost f = (fuel - 1) as nat;
                let mut subst = self.clone();
                let mut i: usize = 0;
                while i < ut.body.len()
                    invariant
                        ut.body@.len() == vt.body@.len(),
                        usv == terms_view(ut.body@),
                        vsv == terms_view(vt.body@),
                        usv.len() == ut.body@.len(),
                        vsv.len() == vt.body@.len(),
                        forall|j: int| 0 <= j < ut.body@.len() ==> #[trigger] usv[j] == ut.body@[j]@,
                        forall|j: int| 0 <= j < vt.body@.len() ==> #[trigger] vsv[j] == vt.body@[j]@,
                        i <= ut.body@.len(),
                        fuel > 0,
                        f == fuel - 1,
                        unify_list(subst@, usv, vsv, i as int, f) == unify_fuel(self@, u@, v@, fuel),
                        unify_fuel(self@, u@, v@, fuel) is Some,
                    decreases ut.body@.len() - i,
                {
                    match subst.unify_in(&ut.body[i], &vt.body[i], Ghost(f)) {
                        Some(s) => {
                            subst = s;
                        },
                        None => {
                            return None;
                        },
                    }
                    i = i + 1;
                }
                Some(subst)
            },
        }
    }

    /// Unifies `u` and `v`: the bindings, before those of this substitution,
    /// that make the two terms equal, or `None` where there are none.
    pub fn unify(&self, u: &Term, v: &Term) -> (r: Option<Subst>)
        requires
            unify_ends(self@, u@, v@),
        ensures
            match unify_spec(self@, u@, v@) {
                Some(bs) => r matches Some(s) && s@ == bs,
                None => r is None,
            },
    {
        let ghost fuel = choose|fuel: nat| #[trigger] unify_fuel(self@, u@, v@, fuel) is Some;
        self.unify_in(u, v, Ghost(fuel))
    }
}

/// A conjunction of a relation: the terms its arguments are unified with,
/// and the tuples it then calls.
#[derive(Debug, PartialEq)]
pub struct ConjRelation {
    pub head: Vec<Term>,
    pub body: Vec<TupleTerm>,
}

/// A relation: alternatives, or one conjunction.
#[derive(Debug, PartialEq)]
pub enum Relation {
    Disj(Vec<ConjRelation>),
    Conj(ConjRelation),
}

/// A goal: fail, succeed, unify two terms, either of two goals, both of
/// two goals, or call a relation by the head of a tuple on its terms.
#[derive(Debug, PartialEq)]
pub enum Goal {
    Zero,
    Unit,
    Eqo(Term, Term),
    Disj(Arc<Goal>, Arc<Goal>),
    Conj(Arc<Goal>, Arc<Goal>),
    Call(TupleTerm),
}

/// What a goal is.
pub enum GoalView {
    Zero,
    Unit,
    Eqo(TermView, TermView),
    Disj(Box<GoalView>, Box<GoalView>),
    Conj(Box<GoalView>, Box<GoalView>),
    Call(TermView),
}

/// The view of a goal.
pub open spec fn goal_view(g: Goal) -> GoalView
    decreases g,
{
    match g {
        Goal::Zero => GoalView::Zero,
        Goal::Unit => GoalView::Unit,
        Goal::Eqo(u, v) => GoalView::Eqo(u@, v@),
        Goal::Disj(g1, g2) => GoalView::Disj(Box::new(goal_view(*g1)), Box::new(goal_view(*g2))),
        Goal::Conj(g1, g2) => GoalView::Conj(Box::new(goal_view(*g1)), Box::new(goal_view(*g2))),
        Goal::Call(tt) => GoalView::Call(tt@),
    }
}

impl View for Goal {
    type V = GoalView;

    open spec fn view(&self) -> GoalView {
        goal_view(*self)
    }
}

/// The views of tuples.
pub open spec fn tuples_view(ts: Seq<TupleTerm>) -> Seq<TermView> {
    ts.map_values(|t: TupleTerm| tuple_view(t))
}

/// The goal that unifies the first `n` terms of `heads` with those of
/// `terms`, one after another, after a goal that succeeds.
pub open spec fn eqo_chain(heads: Seq<TermView>, terms: Seq<TermView>, n: int) -> GoalView
    decreases n,
{
    if n <= 0 {
        GoalView::Unit
    } else {
        GoalView::Conj(Box::new(eqo_chain(heads, terms, n - 1)), Box::new(GoalView::Eqo(heads[n - 1], terms[n - 1])))
    }
}

/// The goal `g` followed by calls of the first `k` tuples of `calls`.
pub open spec fn call_chain(g: GoalView, calls: Seq<TermView>, k: int) -> GoalView
    decreases k,
{
    if k <= 0 {
        g
    } else {
        GoalView::Conj(Box::new(call_chain(g, calls, k - 1)), Box::new(GoalView::Call(calls[k - 1])))
    }
}

/// The goal of a conjunction applied to `terms`: the pairs of its head and
/// the terms unified, as far as both go, then its calls.
pub open spec fn conj_goal(heads: Seq<TermView>, calls: Seq<TermView>, terms: Seq<TermView>) -> GoalView {
    let n = if heads.len() < terms.len() { heads.len() } else { terms.len() };
    call_chain(eqo_chain(heads, terms, n as int), calls, calls.len() as int)
}

/// The goal of the first `k` alternatives applied to `terms`, after a goal
/// that fails.
pub open spec fn disj_chain(alts: Seq<ConjRelation>, terms: Seq<TermView>, k: int) -> GoalView
    decreases k,
{
    if k <= 0 {
        GoalView::Zero
    } else {
        GoalView::Disj(
            Box::new(disj_chain(alts, terms, k - 1)),
            Box::new(conj_goal(terms_view(alts[k - 1].head@), tuples_view(alts[k - 1].body@), terms)),
        )
    }
}

impl Goal {
    /// The goal that fails.
    pub fn zero() -> (g: Arc<Goal>)
        ensures
            goal_view(*g) == GoalView::Zero,
    {
        Arc::new(Goal::Zero)
    }

    /// The goal that succeeds.
    pub fn unit() -> (g: Arc<Goal>)
        ensures
            goal_view(*g) == GoalView::Unit,
    {
        Arc::new(Goal::Unit)
    }

    /// The goal that `u` and `v` unify.
    pub fn eqo(u: Term, v: Term) -> (g: Arc<Goal>)
        ensures
            goal_view(*g) == GoalView::Eqo(u@, v@),
    {
        Arc::new(Goal::Eqo(u, v))
    }

    /// The goal that one of two goals holds.
    pub fn disj(g1: Arc<Goal>, g2: Arc<Goal>) -> (g: Arc<Goal>)
        ensures
            goal_view(*g) == GoalView::Disj(Box::new(goal_view(*g1)), Box::new(goal_view(*g2))),
    {
        Arc::new(Goal::Disj(g1, g2))
    }

    /// The goal that both goals hold.
    pub fn conj(g1: Arc<Goal>, g2: Arc<Goal>) -> (g: Arc<Goal>)
        ensures
            goal_view(*g) == GoalView::Conj(Box::new(goal_view(*g1)), Box::new(goal_view(*g2))),
    {
        Arc::new(Goal::Conj(g1, g2))
    }

    /// The goal that calls the relation named `name` on `body`.
    pub fn call(name: &str, body: Vec<Term>) -> (g: Arc<Goal>)
        ensures
            goal_view(*g) == GoalView::Call(TermView::Tuple { head: name@, body: terms_view(body@) }),
    {
        Arc::new(Goal::Call(TupleTerm { head: string_from(name), body }))
    }
}

impl ConjRelation {
    /// The goal of the conjunction applied to `term_vec`: its head unified
    /// with the terms pair by pair, then its calls.
    pub fn apply(&self, term_vec: &Vec<Term>) -> (g: Arc<Goal>)
        ensures
            goal_view(*g) == conj_goal(terms_view(self.head@), tuples_view(self.body@), terms_view(term_vec@)),
    {
        let ghost heads = terms_view(self.head@);
        let ghost terms = terms_view(term_vec@);
        let ghost calls = tuples_view(self.body@);
        proof {
            lemma_terms_view(self.head@);
            lemma_terms_view(term_vec@);
        }
        let mut goal = Goal::unit();
        let n = if self.head.len() < term_vec.len() { self.head.len() } else { term_vec.len() };
        let mut i: usize = 0;
        while i < n
            invariant
                i <= n,
                n <= self.head@.len(),
                n <= term_vec@.len(),
                heads == terms_view(self.head@),
                terms == terms_view(term_vec@),
                heads.len() == self.head@.len(),
                terms.len() == term_vec@.len(),
                forall|j: int| 0 <= j < self.head@.len() ==> #[trigger] heads[j] == self.head@[j]@,
                forall|j: int| 0 <= j < term_vec@.len() ==> #[trigger] terms[j] == term_vec@[j]@,
                goal_view(*goal) == eqo_chain(heads, terms, i as int),
            decreases n - i,
        {
            let g = Goal::eqo(self.head[i].clone(), term_vec[i].clone());
            goal = Goal::conj(goal, g);
            i = i + 1;
        }
        let mut k: usize = 0;
        while k < self.body.len()
            invariant
                k <= self.body@.len(),
                calls == tuples_view(self.body@),
                goal_view(*goal) == call_chain(eqo_chain(heads, terms, n as int), calls, k as int),
            decreases self.body@.len() - k,
        {
            let g = Arc::new(Goal::Call(self.body[k].clone()));
            goal = Goal::conj(goal, g);
            k = k + 1;
        }
        goal
    }
}

impl Relation {
    /// The goal of the relation applied to `term_vec`: either of its
    /// alternatives, or its one conjunction.
    pub fn apply(&self, term_vec: &Vec<Term>) -> (g: Arc<Goal>)
        ensures
            match self {
                Relation::Disj(body) => goal_view(*g) == disj_chain(body@, terms_view(term_vec@), body@.len() as int),
                Relation::Conj(c) => goal_view(*g) == conj_goal(terms_view(c.head@), tuples_view(c.body@), terms_view(term_vec@)),
            },
    {
        match self {
            Relation::Disj(body) => {
                let mut goal = Goal::zero();
                let mut k: usize = 0;
                while k < body.len()
                    invariant
                        k <= body@.len(),
                        goal_view(*goal) == disj_chain(body@, terms_view(term_vec@), k as int),
                    decreases body@.len() - k,
                {
                    goal = Goal::disj(goal, body[k].apply(term_vec));
                    k = k + 1;
                }
                goal
            },
            Relation::Conj(conj_relation) => conj_relation.apply(term_vec),
        }
    }
}

/// The substitutions a goal gives, in order.
pub type Stream = Vec<Subst>;

/// The views of the substitutions of a stream.
pub open spec fn stream_view(s: Seq<Subst>) -> Seq<Seq<(VarView, TermView)>> {
    s.map_values(|x: Subst| bindings(x))
}

/// The stream with no substitution.
pub fn mzero() -> (s: Stream)
    ensures
        s@.len() == 0,
{
    Vec::new()
}

/// The stream of one substitution.
pub fn unit(subst: Subst) -> (s: Stream)
    ensures
        stream_view(s@) == seq![subst@],
{
    let mut s: Stream = Vec::new();
    s.push(subst);
    proof {
        assert(stream_view(s@) =~= seq![subst@]);
    }
    s
}

/// The first substitution of `s1`, then those of `s2`, then the rest of
/// `s1`.
pub fn mplus(s1: Stream, s2: Stream) -> (s: Stream)
    ensures
        stream_view(s@) == if s1@.len() == 0 {
            stream_view(s2@)
        } else {
            seq![s1@[0]@] + stream_view(s2@) + stream_view(s1@.drop_first())
        },
{
    if s1.len() == 0 {
        return s2;
    }
    let mut rest = s1;
    let ghost whole = rest@;
    let first = rest.remove(0);
    let mut s = unit(first);
    let mut more = s2;
    let ghost s2v = more@;
    s.append(&mut more);
    s.append(&mut rest);
    proof {
        assert(rest@.len() == 0);
        assert(whole.drop_first() =~= whole.subrange(1, whole.len() as int));
        assert(stream_view(s@) =~= seq![whole[0]@] + stream_view(s2v) + stream_view(whole.drop_first()));
    }
    s
}

/// Whether `bs2` keeps the bindings `bs`: it is `bs` with bindings put
/// before them, and each variable that `bs` binds is found bound to the
/// same term in `bs2`.
pub open spec fn extends(bs: Seq<(VarView, TermView)>, bs2: Seq<(VarView, TermView)>) -> bool {
    &&& bs.len() <= bs2.len()
    &&& bs2.subrange(bs2.len() - bs.len(), bs2.len() as int) == bs
    &&& forall|x: VarView| find_spec(bs, x) is Some ==> #[trigger] find_spec(bs2, x) == find_spec(bs, x)
}

proof fn lemma_find_cons(x0: VarView, t: TermView, bs: Seq<(VarView, TermView)>, x: VarView)
    ensures
        find_spec(seq![(x0, t)] + bs, x) == (if x0 == x { Some(t) } else { find_spec(bs, x) }),
{
    assert((seq![(x0, t)] + bs).drop_first() =~= bs);
}

proof fn lemma_extends_refl(bs: Seq<(VarView, TermView)>)
    ensures
        extends(bs, bs),
{
    assert(bs.subrange(0, bs.len() as int) =~= bs);
}

proof fn lemma_extends_cons(bs: Seq<(VarView, TermView)>, x0: VarView, t: TermView)
    requires
        find_spec(bs, x0) is None,
    ensures
        extends(bs, seq![(x0, t)] + bs),
{
    let bs2 = seq![(x0, t)] + bs;
    assert(bs2.subrange(bs2.len() - bs.len(), bs2.len() as int) =~= bs);
    assert forall|x: VarView| find_spec(bs, x) is Some implies #[trigger] find_spec(bs2, x) == find_spec(bs, x) by {
        lemma_find_cons(x0, t, bs, x);
    }
}

proof fn lemma_extends_trans(a: Seq<(VarView, TermView)>, b: Seq<(VarView, TermView)>, c: Seq<(VarView, TermView)>)
    requires
        extends(a, b),
        extends(b, c),
    ensures
        extends(a, c),
{
    let sb = c.subrange(c.len() - b.len(), c.len() as int);
    let sa = b.subrange(b.len() - a.len(), b.len() as int);
    assert forall|k: int| 0 <= k < a.len() implies #[trigger] c.subrange(c.len() - a.len(), c.len() as int)[k] == a[k] by {
        assert(sb[b.len() - a.len() + k] == c[c.len() - a.len() + k]);
        assert(sa[k] == b[b.len() - a.len() + k]);
    }
    assert(c.subrange(c.len() - a.len(), c.len() as int) =~= a);
}

proof fn lemma_unify_extends(bs: Seq<(VarView, TermView)>, u: TermView, v: TermView, fuel: nat)
    requires
        unify_fuel(bs, u, v, fuel) matches Some(Some(_)),
    ensures
        extends(bs, unify_fuel(bs, u, v, fuel)->Some_0->Some_0),
    decreases fuel, 0nat,
{
    let wu = walk_fuel(bs, u, fuel);
    let wv = walk_fuel(bs, v, fuel);
    if wu is Var && wv is Var && wu->Var_0 == wv->Var_0 {
        lemma_extends_refl(bs);
    } else if wu is Var {
        lemma_extends_cons(bs, wu->Var_0, wv);
    } else if wv is Var {
        lemma_extends_cons(bs, wv->Var_0, wu);
    } else {
        lemma_unify_list_extends(bs, wu->body, wv->body, 0, (fuel - 1) as nat);
    }
}

proof fn lemma_unify_list_extends(bs: Seq<(VarView, TermView)>, us: Seq<TermView>, vs: Seq<TermView>, i: int, fuel: nat)
    requires
        unify_list(bs, us, vs, i, fuel) matches Some(Some(_)),
    ensures
        extends(bs, unify_list(bs, us, vs, i, fuel)->Some_0->Some_0),
    decreases fuel, 1nat + (if i < us.len() { (us.len() - i) as nat } else { 0nat }),
{
    if i < 0 || i >= us.len() || i >= vs.len() {
        lemma_extends_refl(bs);
    } else {
        let b1 = unify_fuel(bs, us[i], vs[i], fuel)->Some_0->Some_0;
        lemma_unify_extends(bs, us[i], vs[i], fuel);
        lemma_unify_list_extends(b1, us, vs, i + 1, fuel);
        lemma_extends_trans(bs, b1, unify_list(bs, us, vs, i, fuel)->Some_0->Some_0);
    }
}

/// Unifying, where it ends and succeeds, keeps every binding: what comes
/// back is the given bindings with new ones before them, and each variable
/// bound before is still bound to the same term.
pub proof fn law_unify_keeps(bs: Seq<(VarView, TermView)>, u: TermView, v: TermView)
    requires
        unify_ends(bs, u, v),
        unify_spec(bs, u, v) is Some,
    ensures
        extends(bs, unify_spec(bs, u, v)->Some_0),
{
    let fuel = choose|fuel: nat| #[trigger] unify_fuel(bs, u, v, fuel) is Some;
    lemma_unify_extends(bs, u, v, fuel);
}

proof fn lemma_unify_self(bs: Seq<(VarView, TermView)>, t: TermView, fuel: nat)
    requires
        unify_fuel(bs, t, t, fuel) is Some,
    ensures
        unify_fuel(bs, t, t, fuel) == Some(Some(bs)),
    decreases fuel, 0nat,
{
    let w = walk_fuel(bs, t, fuel);
    if !(w is Var) {
        lemma_unify_list_self(bs, w->body, 0, (fuel - 1) as nat);
    }
}

proof fn lemma_unify_list_self(bs: Seq<(VarView, TermView)>, ts: Seq<TermView>, i: int, fuel: nat)
    requires
        0 <= i,
        unify_list(bs, ts, ts, i, fuel) is Some,
    ensures
        unify_list(bs, ts, ts, i, fuel) == Some(Some(bs)),
    decreases fuel, 1nat + (if i < ts.len() { (ts.len() - i) as nat } else { 0nat }),
{
    if i < ts.len() {
        lemma_unify_self(bs, ts[i], fuel);
        lemma_unify_list_self(bs, ts, i + 1, fuel);
    }
}

/// Unifying a term with itself, where it ends, succeeds and binds nothing
/// new.
pub proof fn law_unify_self(bs: Seq<(VarView, TermView)>, t: TermView)
    requires
        unify_ends(bs, t, t),
    ensures
        unify_spec(bs, t, t) == Some(bs),
{
    let fuel = choose|fuel: nat| #[trigger] unify_fuel(bs, t, t, fuel) is Some;
    lemma_unify_self(bs, t, fuel);
}

/// Whether every variable that `bs` binds is bound by `bs2` to the same
/// term.
pub open spec fn keeps(bs: Seq<(VarView, TermView)>, bs2: Seq<(VarView, TermView)>) -> bool {
    forall|x: VarView| #[trigger] find_spec(bs, x) is Some ==> find_spec(bs2, x) == find_spec(bs, x)
}

/// Whether every walk that ends in `bs` still ends in `bs2`.
pub open spec fn ends_kept(bs: Seq<(VarView, TermView)>, bs2: Seq<(VarView, TermView)>) -> bool {
    forall|t: TermView| #[trigger] walk_ends(bs, t) ==> walk_ends(bs2, t)
}

proof fn lemma_walk_stays(bs: Seq<(VarView, TermView)>, t: TermView, f: nat, k: nat)
    requires
        !bound(bs, walk_fuel(bs, t, f)),
    ensures
        walk_fuel(bs, t, f + k) == walk_fuel(bs, t, f),
    decreases f,
{
    if f > 0 && bound(bs, t) {
        let next = find_spec(bs, t->Var_0)->Some_0;
        lemma_walk_stays(bs, next, (f - 1) as nat, k);
        assert(walk_fuel(bs, t, f + k) == walk_fuel(bs, next, (f + k - 1) as nat));
        assert((f + k - 1) as nat == (f - 1) as nat + k);
    }
}

proof fn lemma_walk_settled_at(bs: Seq<(VarView, TermView)>, t: TermView, f: nat)
    requires
        !bound(bs, walk_fuel(bs, t, f)),
    ensures
        walk_ends(bs, t),
        walk_spec(bs, t) == walk_fuel(bs, t, f),
        !bound(bs, walk_spec(bs, t)),
{
    let g = choose|fuel: nat| !bound(bs, #[trigger] walk_fuel(bs, t, fuel));
    assert(!bound(bs, walk_fuel(bs, t, g)));
    if g <= f {
        lemma_walk_stays(bs, t, g, (f - g) as nat);
    } else {
        lemma_walk_stays(bs, t, f, (g - f) as nat);
    }
}

proof fn lemma_walk_free(bs: Seq<(VarView, TermView)>, t: TermView)
    requires
        !bound(bs, t),
    ensures
        walk_ends(bs, t),
        walk_spec(bs, t) == t,
{
    lemma_walk_settled_at(bs, t, 0);
}

proof fn lemma_walk_ended(bs: Seq<(VarView, TermView)>, t: TermView)
    requires
        walk_ends(bs, t),
    ensures
        !bound(bs, walk_spec(bs, t)),
{
    let g = choose|fuel: nat| !bound(bs, #[trigger] walk_fuel(bs, t, fuel));
    lemma_walk_settled_at(bs, t, g);
}

proof fn lemma_walk_step(bs: Seq<(VarView, TermView)>, t: TermView)
    requires
        bound(bs, t),
        walk_ends(bs, t),
    ensures
        walk_ends(bs, find_spec(bs, t->Var_0)->Some_0),
        walk_spec(bs, t) == walk_spec(bs, find_spec(bs, t->Var_0)->Some_0),
{
    let next = find_spec(bs, t->Var_0)->Some_0;
    let g = choose|fuel: nat| !bound(bs, #[trigger] walk_fuel(bs, t, fuel));
    assert(!bound(bs, walk_fuel(bs, t, g)));
    assert(g > 0);
    assert(walk_fuel(bs, t, g) == walk_fuel(bs, next, (g - 1) as nat));
    lemma_walk_settled_at(bs, next, (g - 1) as nat);
    lemma_walk_settled_at(bs, t, g);
}


proof fn lemma_walk_insert_other(bs: Seq<(VarView, TermView)>, a: VarView, w: TermView, t: TermView, f: nat)
    requires
        find_spec(bs, a) is None,
        !bound(bs, walk_fuel(bs, t, f)),
        walk_fuel(bs, t, f) != TermView::Var(a),
    ensures
        walk_fuel(seq![(a, w)] + bs, t, f) == walk_fuel(bs, t, f),
    decreases f,
{
    let bs2 = seq![(a, w)] + bs;
    if t is Var {
        lemma_find_cons(a, w, bs, t->Var_0);
    }
    if f > 0 && bound(bs, t) {
        let next = find_spec(bs, t->Var_0)->Some_0;
        lemma_walk_insert_other(bs, a, w, next, (f - 1) as nat);
    }
}

proof fn lemma_walk_insert_hit(bs: Seq<(VarView, TermView)>, a: VarView, w: TermView, t: TermView, f: nat)
    requires
        find_spec(bs, a) is None,
        !bound(bs, w),
        w != TermView::Var(a),
        walk_fuel(bs, t, f) == TermView::Var(a),
    ensures
        walk_fuel(seq![(a, w)] + bs, t, f + 1) == w,
    decreases f,
{
    let bs2 = seq![(a, w)] + bs;
    lemma_find_cons(a, w, bs, a);
    if w is Var {
        lemma_find_cons(a, w, bs, w->Var_0);
    }
    if t is Var {
        lemma_find_cons(a, w, bs, t->Var_0);
    }
    assert(!bound(bs2, w));
    if f > 0 && bound(bs, t) {
        let next = find_spec(bs, t->Var_0)->Some_0;
        lemma_walk_insert_hit(bs, a, w, next, (f - 1) as nat);
        assert(walk_fuel(bs2, t, f + 1) == walk_fuel(bs2, next, f));
        assert((f - 1) as nat + 1 == f);
    } else {
        assert(t == TermView::Var(a));
        assert(walk_fuel(bs2, t, f + 1) == walk_fuel(bs2, w, f));
    }
}

/// Binding a variable that `bs` leaves free to a term that is not a
/// bound variable, nor that variable: every binding stays, every walk that
/// ended still ends, where it ended or, where that was the variable, at
/// the term.
proof fn lemma_insert_walks(bs: Seq<(VarView, TermView)>, a: VarView, w: TermView)
    requires
        find_spec(bs, a) is None,
        !bound(bs, w),
        w != TermView::Var(a),
    ensures
        keeps(bs, seq![(a, w)] + bs),
        ends_kept(bs, seq![(a, w)] + bs),
        forall|t: TermView| #[trigger] walk_ends(bs, t) ==> walk_spec(seq![(a, w)] + bs, t)
            == (if walk_spec(bs, t) == TermView::Var(a) { w } else { walk_spec(bs, t) }),
{
    let bs2 = seq![(a, w)] + bs;
    assert forall|x: VarView| #[trigger] find_spec(bs, x) is Some implies find_spec(bs2, x) == find_spec(bs, x) by {
        lemma_find_cons(a, w, bs, x);
    }
    assert forall|t: TermView| #[trigger] walk_ends(bs, t) implies walk_ends(bs2, t) && walk_spec(bs2, t)
        == (if walk_spec(bs, t) == TermView::Var(a) { w } else { walk_spec(bs, t) }) by {
        let g = choose|fuel: nat| !bound(bs, #[trigger] walk_fuel(bs, t, fuel));
        lemma_walk_settled_at(bs, t, g);
        let s = walk_spec(bs, t);
        if s == TermView::Var(a) {
            lemma_walk_insert_hit(bs, a, w, t, g);
            lemma_find_cons(a, w, bs, a);
            if w is Var {
                lemma_find_cons(a, w, bs, w->Var_0);
            }
            lemma_walk_settled_at(bs2, t, g + 1);
        } else {
            lemma_walk_insert_other(bs, a, w, t, g);
            if s is Var {
                lemma_find_cons(a, w, bs, s->Var_0);
            }
            lemma_walk_settled_at(bs2, t, g);
        }
    }
}

proof fn lemma_keeps_refl(bs: Seq<(VarView, TermView)>)
    ensures
        keeps(bs, bs),
        ends_kept(bs, bs),
{
}

proof fn lemma_keeps_trans(a: Seq<(VarView, TermView)>, b: Seq<(VarView, TermView)>, c: Seq<(VarView, TermView)>)
    requires
        keeps(a, b),
        keeps(b, c),
        ends_kept(a, b),
        ends_kept(b, c),
    ensures
        keeps(a, c),
        ends_kept(a, c),
{
    assert forall|x: VarView| #[trigger] find_spec(a, x) is Some implies find_spec(c, x) == find_spec(a, x) by {
        assert(find_spec(b, x) is Some);
    }
    assert forall|t: TermView| #[trigger] walk_ends(a, t) implies walk_ends(c, t) by {
        assert(walk_ends(b, t));
    }
}

proof fn lemma_walk_extend_at(bs: Seq<(VarView, TermView)>, bs2: Seq<(VarView, TermView)>, t: TermView, f: nat)
    requires
        keeps(bs, bs2),
        ends_kept(bs, bs2),
        !bound(bs, walk_fuel(bs, t, f)),
    ensures
        walk_ends(bs2, t),
        walk_spec(bs2, t) == walk_spec(bs2, walk_spec(bs, t)),
    decreases f,
{
    lemma_walk_settled_at(bs, t, f);
    assert(walk_ends(bs2, t));
    if f > 0 && bound(bs, t) {
        let next = find_spec(bs, t->Var_0)->Some_0;
        assert(find_spec(bs2, t->Var_0) == find_spec(bs, t->Var_0));
        lemma_walk_step(bs, t);
        lemma_walk_step(bs2, t);
        lemma_walk_extend_at(bs, bs2, next, (f - 1) as nat);
    } else {
        lemma_walk_free(bs, t);
    }
}

proof fn lemma_walk_extend(bs: Seq<(VarView, TermView)>, bs2: Seq<(VarView, TermView)>, t: TermView)
    requires
        keeps(bs, bs2),
        ends_kept(bs, bs2),
        walk_ends(bs, t),
    ensures
        walk_ends(bs2, t),
        walk_spec(bs2, t) == walk_spec(bs2, walk_spec(bs, t)),
{
    let g = choose|fuel: nat| !bound(bs, #[trigger] walk_fuel(bs, t, fuel));
    lemma_walk_extend_at(bs, bs2, t, g);
}

/// Whether `u` and `v` come to the same in `bs`, within `depth` levels:
/// their walks end, at one term, or at tuples of one head and length
/// whose elements come to the same pair by pair.
pub open spec fn agree(bs: Seq<(VarView, TermView)>, u: TermView, v: TermView, depth: nat) -> bool
    decreases depth, 0nat,
{
    let wu = walk_spec(bs, u);
    let wv = walk_spec(bs, v);
    &&& walk_ends(bs, u)
    &&& walk_ends(bs, v)
    &&& {
        ||| wu == wv
        ||| depth > 0 && wu is Tuple && wv is Tuple && wu->head == wv->head && wu->body.len() == wv->body.len()
            && agree_list(bs, wu->body, wv->body, 0, (depth - 1) as nat)
    }
}

/// Whether the terms of `us` and `vs` from index `i` on come to the same
/// in `bs`, pair by pair.
pub open spec fn agree_list(bs: Seq<(VarView, TermView)>, us: Seq<TermView>, vs: Seq<TermView>, i: int, depth: nat) -> bool
    decreases depth, 1nat + (if i < us.len() { (us.len() - i) as nat } else { 0nat }),
{
    if i < 0 || i >= us.len() || i >= vs.len() {
        true
    } else {
        agree(bs, us[i], vs[i], depth) && agree_list(bs, us, vs, i + 1, depth)
    }
}

/// Whether `u` and `v` come to the same in `bs`.
pub open spec fn same_in(bs: Seq<(VarView, TermView)>, u: TermView, v: TermView) -> bool {
    exists|depth: nat| #[trigger] agree(bs, u, v, depth)
}

proof fn lemma_agree_list_all(bs: Seq<(VarView, TermView)>, us: Seq<TermView>, vs: Seq<TermView>, i: int, depth: nat)
    requires
        0 <= i,
        us.len() == vs.len(),
    ensures
        agree_list(bs, us, vs, i, depth) <==> forall|j: int| i <= j < us.len() ==> #[trigger] agree(bs, us[j], vs[j], depth),
    decreases us.len() - i,
{
    if i < us.len() {
        lemma_agree_list_all(bs, us, vs, i + 1, depth);
        if !agree(bs, us[i], vs[i], depth) {
            assert(!(forall|j: int| i <= j < us.len() ==> #[trigger] agree(bs, us[j], vs[j], depth)));
        }
    }
}

proof fn lemma_agree_extend(bs: Seq<(VarView, TermView)>, bs2: Seq<(VarView, TermView)>, u: TermView, v: TermView, depth: nat)
    requires
        keeps(bs, bs2),
        ends_kept(bs, bs2),
        agree(bs, u, v, depth),
    ensures
        agree(bs2, u, v, depth),
    decreases depth,
{
    let wu = walk_spec(bs, u);
    let wv = walk_spec(bs, v);
    lemma_walk_extend(bs, bs2, u);
    lemma_walk_extend(bs, bs2, v);
    if wu != wv {
        let us = wu->body;
        let vs = wv->body;
        let d = (depth - 1) as nat;
        lemma_walk_free(bs2, wu);
        lemma_walk_free(bs2, wv);
        lemma_agree_list_all(bs, us, vs, 0, d);
        assert forall|j: int| 0 <= j < us.len() implies #[trigger] agree(bs2, us[j], vs[j], d) by {
            assert(agree(bs, us[j], vs[j], d));
            lemma_agree_extend(bs, bs2, us[j], vs[j], d);
        }
        lemma_agree_list_all(bs2, us, vs, 0, d);
    }
}

proof fn lemma_unify_sound(bs: Seq<(VarView, TermView)>, u: TermView, v: TermView, fuel: nat)
    requires
        unify_fuel(bs, u, v, fuel) matches Some(Some(_)),
    ensures
        keeps(bs, unify_fuel(bs, u, v, fuel)->Some_0->Some_0),
        ends_kept(bs, unify_fuel(bs, u, v, fuel)->Some_0->Some_0),
        agree(unify_fuel(bs, u, v, fuel)->Some_0->Some_0, u, v, fuel),
    decreases fuel, 0nat,
{
    let wu = walk_fuel(bs, u, fuel);
    let wv = walk_fuel(bs, v, fuel);
    let bs2 = unify_fuel(bs, u, v, fuel)->Some_0->Some_0;
    lemma_walk_settled_at(bs, u, fuel);
    lemma_walk_settled_at(bs, v, fuel);
    if wu is Var && wv is Var && wu == wv {
        assert(bs2 == bs);
        lemma_keeps_refl(bs);
    } else if wu is Var {
        let a = wu->Var_0;
        assert(bs2 == seq![(a, wv)] + bs);
        lemma_insert_walks(bs, a, wv);
        assert(walk_ends(bs, u) && walk_ends(bs, v));
        assert(walk_spec(bs2, u) == wv);
        assert(walk_spec(bs2, v) == wv);
    } else if wv is Var {
        let b = wv->Var_0;
        assert(bs2 == seq![(b, wu)] + bs);
        lemma_insert_walks(bs, b, wu);
        assert(walk_ends(bs, u) && walk_ends(bs, v));
        assert(walk_spec(bs2, u) == wu);
        assert(walk_spec(bs2, v) == wu);
    } else {
        let us = wu->body;
        let vs = wv->body;
        let d = (fuel - 1) as nat;
        assert(bs2 == unify_list(bs, us, vs, 0, d)->Some_0->Some_0);
        lemma_unify_list_sound(bs, us, vs, 0, d);
        lemma_walk_extend(bs, bs2, u);
        lemma_walk_extend(bs, bs2, v);
        lemma_walk_free(bs2, wu);
        lemma_walk_free(bs2, wv);
        lemma_agree_list_all(bs2, us, vs, 0, d);
    }
}

proof fn lemma_unify_list_sound(bs: Seq<(VarView, TermView)>, us: Seq<TermView>, vs: Seq<TermView>, i: int, fuel: nat)
    requires
        0 <= i,
        us.len() == vs.len(),
        unify_list(bs, us, vs, i, fuel) matches Some(Some(_)),
    ensures
        keeps(bs, unify_list(bs, us, vs, i, fuel)->Some_0->Some_0),
        ends_kept(bs, unify_list(bs, us, vs, i, fuel)->Some_0->Some_0),
        forall|j: int| i <= j < us.len() ==> #[trigger] agree(unify_list(bs, us, vs, i, fuel)->Some_0->Some_0, us[j], vs[j], fuel),
    decreases fuel, 1nat + (if i < us.len() { (us.len() - i) as nat } else { 0nat }),
{
    if i >= us.len() {
        lemma_keeps_refl(bs);
    } else {
        let b1 = unify_fuel(bs, us[i], vs[i], fuel)->Some_0->Some_0;
        let b2 = unify_list(bs, us, vs, i, fuel)->Some_0->Some_0;
        lemma_unify_sound(bs, us[i], vs[i], fuel);
        lemma_unify_list_sound(b1, us, vs, i + 1, fuel);
        assert(b2 == unify_list(b1, us, vs, i + 1, fuel)->Some_0->Some_0);
        lemma_keeps_trans(bs, b1, b2);
        lemma_agree_extend(b1, b2, us[i], vs[i], fuel);
        assert forall|j: int| i <= j < us.len() implies #[trigger] agree(b2, us[j], vs[j], fuel) by {
            if j > i {
                assert(agree(unify_list(b1, us, vs, i + 1, fuel)->Some_0->Some_0, us[j], vs[j], fuel));
            }
        }
    }
}

/// Unifying makes the two terms come to the same: where unifying `u` and
/// `v` ends with bindings, those bind every variable the given bindings
/// bind to the same term, every walk that ended still ends, and `u` and
/// `v` come to the same in them.
pub proof fn law_unify_sound(bs: Seq<(VarView, TermView)>, u: TermView, v: TermView)
    requires
        unify_ends(bs, u, v),
        unify_spec(bs, u, v) is Some,
    ensures
        keeps(bs, unify_spec(bs, u, v)->Some_0),
        ends_kept(bs, unify_spec(bs, u, v)->Some_0),
        same_in(unify_spec(bs, u, v)->Some_0, u, v),
{
    let fuel = choose|fuel: nat| #[trigger] unify_fuel(bs, u, v, fuel) is Some;
    lemma_unify_sound(bs, u, v, fuel);
    assert(agree(unify_spec(bs, u, v)->Some_0, u, v, fuel));
}

} // verus!
