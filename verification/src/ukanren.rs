//! A micro logic language: terms with variables, substitutions that bind
//! them, unification, and streams of substitutions.

use vstd::prelude::*;
use std::collections::HashMap;
use uuid::Uuid;
use crate::text::{string_from, str_eq};

verus! {

/// A new random version 4 UUID, as a number: `Uuid::new_v4` then
/// `Uuid::as_u128`.  Nothing is claimed of the number: it is drawn at
/// random.
#[verifier::external_body]
pub(crate) fn new_v4_id() -> (id: u128) {
    Uuid::new_v4().as_u128()
}

/// A term: a variable, known by its id, a string, or a list of terms.
#[derive(Debug, PartialEq)]
pub enum Term {
    Var(u128),
    Str(String),
    Vec(Vec<Term>),
}

/// What a term is.
pub enum TermView {
    Var(u128),
    Str(Seq<char>),
    Vec(Seq<TermView>),
}

/// The view of a term.
pub open spec fn term_view(t: Term) -> TermView
    decreases t, 1nat,
{
    match t {
        Term::Var(id) => TermView::Var(id),
        Term::Str(s) => TermView::Str(s@),
        Term::Vec(v) => TermView::Vec(terms_view(v@)),
    }
}

/// The views of terms.
pub open spec fn terms_view(ts: Seq<Term>) -> Seq<TermView>
    decreases ts, 0nat,
{
    if ts.len() == 0 {
        Seq::empty()
    } else {
        terms_view(ts.drop_last()).push(term_view(ts.last()))
    }
}

impl View for Term {
    type V = TermView;

    open spec fn view(&self) -> TermView {
        term_view(*self)
    }
}

proof fn lemma_terms_view(ts: Seq<Term>)
    ensures
        terms_view(ts).len() == ts.len(),
        forall|i: int| 0 <= i < ts.len() ==> #[trigger] terms_view(ts)[i] == term_view(ts[i]),
    decreases ts.len(),
{
    if ts.len() > 0 {
        lemma_terms_view(ts.drop_last());
        assert forall|i: int| 0 <= i < ts.len() implies #[trigger] terms_view(ts)[i] == term_view(ts[i]) by {
            if i < ts.len() - 1 {
                assert(ts.drop_last()[i] == ts[i]);
            }
        }
    }
}

fn copy_term(t: &Term) -> (r: Term)
    ensures
        r@ == t@,
    decreases t, 1nat,
{
    match t {
        Term::Var(id) => Term::Var(*id),
        Term::Str(s) => Term::Str(string_from(s.as_str())),
        Term::Vec(v) => Term::Vec(copy_terms(v)),
    }
}

fn copy_terms(v: &Vec<Term>) -> (r: Vec<Term>)
    ensures
        terms_view(r@) == terms_view(v@),
    decreases v, 0nat,
{
    let mut out: Vec<Term> = Vec::new();
    let mut i: usize = 0;
    proof {
        assert(v@.take(0) =~= Seq::<Term>::empty());
        assert(out@ =~= Seq::<Term>::empty());
    }
    while i < v.len()
        invariant
            i <= v@.len(),
            terms_view(out@) == terms_view(v@.take(i as int)),
        decreases v@.len() - i,
    {
        assert(decreases_to!(v => v@[i as int]));
        let c = copy_term(&v[i]);
        let ghost before = out@;
        out.push(c);
        proof {
            assert(out@.drop_last() =~= before);
            assert(v@.take(i + 1).drop_last() =~= v@.take(i as int));
            assert(v@.take(i + 1).last() == v@[i as int]);
        }
        i = i + 1;
    }
    proof {
        assert(v@.take(v@.len() as int) =~= v@);
    }
    out
}

impl Clone for Term {
    fn clone(&self) -> (r: Self)
        ensures
            r@ == self@,
    {
        copy_term(self)
    }
}

fn term_eq(a: &Term, b: &Term) -> (r: bool)
    ensures
        r == (a@ == b@),
    decreases a, 1nat,
{
    match (a, b) {
        (Term::Var(x), Term::Var(y)) => *x == *y,
        (Term::Str(x), Term::Str(y)) => str_eq(x.as_str(), y.as_str()),
        (Term::Vec(xs), Term::Vec(ys)) => terms_eq(xs, ys),
        _ => false,
    }
}

fn terms_eq(xs: &Vec<Term>, ys: &Vec<Term>) -> (r: bool)
    ensures
        r == (terms_view(xs@) == terms_view(ys@)),
    decreases xs, 0nat,
{
    proof {
        lemma_terms_view(xs@);
        lemma_terms_view(ys@);
    }
    if xs.len() != ys.len() {
        return false;
    }
    let mut i: usize = 0;
    while i < xs.len()
        invariant
            xs@.len() == ys@.len(),
            i <= xs@.len(),
            terms_view(xs@).len() == xs@.len(),
            terms_view(ys@).len() == ys@.len(),
            forall|j: int| 0 <= j < xs@.len() ==> #[trigger] terms_view(xs@)[j] == term_view(xs@[j]),
            forall|j: int| 0 <= j < ys@.len() ==> #[trigger] terms_view(ys@)[j] == term_view(ys@[j]),
            forall|j: int| 0 <= j < i ==> #[trigger] terms_view(xs@)[j] == terms_view(ys@)[j],
        decreases xs@.len() - i,
    {
        assert(decreases_to!(xs => xs@[i as int]));
        if !term_eq(&xs[i], &ys[i]) {
            proof {
                assert(terms_view(xs@)[i as int] != terms_view(ys@)[i as int]);
            }
            return false;
        }
        i = i + 1;
    }
    proof {
        assert(terms_view(xs@) =~= terms_view(ys@));
    }
    true
}

impl Term {
    /// A new variable, with a random id.
    pub fn var() -> (t: Term)
        ensures
            t@ is Var,
    {
        Term::Var(new_v4_id())
    }

    /// The string `s`.
    pub fn str(s: &str) -> (t: Term)
        ensures
            t@ == TermView::Str(s@),
    {
        Term::Str(string_from(s))
    }
}

/// The views of the terms a map binds.
pub open spec fn bindings_view(m: Map<u128, Term>) -> Map<u128, TermView> {
    m.map_values(|t: Term| term_view(t))
}

/// Where a term leads in the bindings `m` within `fuel` steps: a variable
/// that is bound leads on to the term it is bound to.
pub open spec fn walk_fuel(m: Map<u128, TermView>, t: TermView, fuel: nat) -> TermView
    decreases fuel,
{
    if fuel > 0 && t is Var && m.contains_key(t->Var_0) {
        walk_fuel(m, m[t->Var_0], (fuel - 1) as nat)
    } else {
        t
    }
}

/// Where a term leads in the bindings `m`: through bound variables to a
/// term that is no bound variable.
pub open spec fn walk_spec(m: Map<u128, TermView>, t: TermView) -> TermView {
    walk_fuel(m, t, m.dom().len())
}

/// Whether the term is a variable that `m` binds.
pub open spec fn bound_var(m: Map<u128, TermView>, t: TermView) -> bool {
    t is Var && m.contains_key(t->Var_0)
}

/// Whether `rank` orders the chains of variables of `m`: each bound
/// variable has a rank below the number of bindings, and a variable bound
/// to a bound variable ranks below it.
pub open spec fn ranked(m: Map<u128, TermView>, rank: Map<u128, nat>) -> bool {
    &&& m.dom().finite()
    &&& rank.dom() == m.dom()
    &&& forall|x: u128| #[trigger] m.contains_key(x) ==> rank[x] < m.dom().len()
    &&& forall|x: u128| #[trigger] m.contains_key(x) && bound_var(m, m[x]) ==> rank[x] < rank[m[x]->Var_0]
}

/// How many steps of walking the term may still take.
pub open spec fn walk_need(m: Map<u128, TermView>, rank: Map<u128, nat>, t: TermView) -> nat {
    if bound_var(m, t) {
        (m.dom().len() - rank[t->Var_0]) as nat
    } else {
        0
    }
}

proof fn lemma_walk_stable(m: Map<u128, TermView>, rank: Map<u128, nat>, t: TermView, f1: nat, f2: nat)
    requires
        ranked(m, rank),
        f1 >= walk_need(m, rank, t),
        f2 >= walk_need(m, rank, t),
    ensures
        walk_fuel(m, t, f1) == walk_fuel(m, t, f2),
        !bound_var(m, walk_fuel(m, t, f1)),
    decreases f1,
{
    if bound_var(m, t) {
        let x = t->Var_0;
        let next = m[x];
        assert(m.contains_key(x));
        if bound_var(m, next) {
            assert(rank[x] < rank[next->Var_0]);
            assert(m.contains_key(next->Var_0));
        }
        lemma_walk_stable(m, rank, next, (f1 - 1) as nat, (f2 - 1) as nat);
    }
}

/// A substitution: the terms its variables are bound to.  No chain of
/// variables bound to variables comes back to where it started.
pub struct Subst {
    map: HashMap<u128, Term>,
    rank: Ghost<Map<u128, nat>>,
}

impl View for Subst {
    type V = Map<u128, TermView>;

    closed spec fn view(&self) -> Map<u128, TermView> {
        bindings_view(self.map@)
    }
}

impl Subst {
    #[verifier::type_invariant]
    spec fn inv(self) -> bool {
        ranked(self@, self.rank@)
    }

    /// How many steps walking `t` may still take.
    pub closed spec fn steps_left(&self, t: TermView) -> nat {
        walk_need(self@, self.rank@, t)
    }

    /// The substitution that binds nothing.
    pub fn new() -> (s: Subst)
        ensures
            s@ == Map::<u128, TermView>::empty(),
            acyclic(s@),
    {
        let map: HashMap<u128, Term> = HashMap::new();
        proof {
            assert(bindings_view(map@) =~= Map::<u128, TermView>::empty());
            assert(Map::<u128, TermView>::empty().dom() =~= Set::<u128>::empty());
        }
        let s = Subst { map, rank: Ghost(Map::empty()) };
        proof {
            assert(ranked(s@, s.rank@));
        }
        s
    }

    /// Number of variables bound.
    pub fn len(&self) -> (n: usize)
        ensures
            n == self@.len(),
    {
        proof {
            assert(bindings_view(self.map@).dom() =~= self.map@.dom());
        }
        self.map.len()
    }

    /// The term `var` is bound to, if it is bound.
    pub fn find(&self, var: &u128) -> (r: Option<&Term>)
        ensures
            r matches Some(t) ==> self@.contains_key(*var) && t@ == self@[*var],
            r is None ==> !self@.contains_key(*var),
    {
        self.map.get(var)
    }

    /// The substitution with `var`, not bound yet, bound to `term`.
    fn extend(&self, var: &u128, term: Term) -> (s: Subst)
        requires
            !self@.contains_key(*var),
            term@ is Var ==> !self@.contains_key(term@->Var_0) && term@->Var_0 != *var,
        ensures
            s@ == self@.insert(*var, term@),
    {
        proof {
            use_type_invariant(self);
        }
        let ghost m = self@;
        let ghost r = self.rank@.insert(*var, m.dom().len());
        let mut map = self.map.clone();
        map.insert(*var, term);
        proof {
            assert(bindings_view(map@) =~= m.insert(*var, term@));
            let m2 = m.insert(*var, term@);
            assert(m2.dom() =~= m.dom().insert(*var));
            assert(m2.dom().len() == m.dom().len() + 1);
            assert(r.dom() =~= m2.dom());
            assert forall|x: u128| #[trigger] m2.contains_key(x) && bound_var(m2, m2[x]) implies r[x] < r[m2[x]->Var_0] by {
                if x != *var {
                    assert(m.contains_key(x));
                    let y = m[x]->Var_0;
                    if y != *var {
                        assert(bound_var(m, m[x]));
                    }
                }
            }
        }
        Subst { map, rank: Ghost(r) }
    }

    /// Where `term` leads through the bindings: to a term that is no bound
    /// variable.
    pub fn walk(&self, term: &Term) -> (r: Term)
        ensures
            r@ == walk_spec(self@, term@),
            !bound_var(self@, r@),
        decreases self.steps_left(term@),
    {
        proof {
            use_type_invariant(self);
            lemma_walk_stable(self@, self.rank@, term@, self@.dom().len(), self@.dom().len());
        }
        match term {
            Term::Var(var) => {
                match self.find(var) {
                    Some(new_term) => {
                        proof {
                            let x = *var;
                            assert(self@.contains_key(x));
                            if bound_var(self@, new_term@) {
                                assert(self.rank@[x] < self.rank@[new_term@->Var_0]);
                            }
                            lemma_walk_stable(self@, self.rank@, new_term@, self@.dom().len(), (self@.dom().len() - 1) as nat);
                        }
                        self.walk(new_term)
                    },
                    None => term.clone(),
                }
            },
            _ => term.clone(),
        }
    }
}

impl Clone for Subst {
    fn clone(&self) -> (r: Self)
        ensures
            r@ == self@,
    {
        proof {
            use_type_invariant(self);
        }
        Subst { map: self.map.clone(), rank: Ghost(self.rank@) }
    }
}

/// Unifying `u` and `v` in the bindings `m`, within `fuel` levels of
/// nested lists: `None` where the fuel runs out; else `Some(None)` where the
/// terms cannot be made equal, and `Some(Some(m2))` with the bindings that
/// make them equal.  Both terms are walked first; a variable is bound to the
/// other term; lists of the same length are unified element by element.
pub open spec fn unify_fuel(m: Map<u128, TermView>, u: TermView, v: TermView, fuel: nat)
    -> Option<Option<Map<u128, TermView>>>
    decreases fuel, 0nat,
{
    if fuel == 0 {
        None
    } else {
        let wu = walk_spec(m, u);
        let wv = walk_spec(m, v);
        if wu is Var && wv is Var && wu->Var_0 == wv->Var_0 {
            Some(Some(m))
        } else if wu is Var {
            Some(Some(m.insert(wu->Var_0, wv)))
        } else if wv is Var {
            Some(Some(m.insert(wv->Var_0, wu)))
        } else if wu is Vec && wv is Vec {
            if wu->Vec_0.len() != wv->Vec_0.len() {
                Some(None)
            } else {
                unify_list(m, wu->Vec_0, wv->Vec_0, 0, (fuel - 1) as nat)
            }
        } else if wu == wv {
            Some(Some(m))
        } else {
            Some(None)
        }
    }
}

/// Unifying the elements of `us` and `vs` from index `i` on, one pair after
/// another, each in the bindings the pair before left.
pub open spec fn unify_list(m: Map<u128, TermView>, us: Seq<TermView>, vs: Seq<TermView>, i: int, fuel: nat)
    -> Option<Option<Map<u128, TermView>>>
    decreases fuel, 1nat + (if i < us.len() { (us.len() - i) as nat } else { 0nat }),
{
    if i < 0 || i >= us.len() || i >= vs.len() {
        Some(Some(m))
    } else {
        match unify_fuel(m, us[i], vs[i], fuel) {
            None => None,
            Some(None) => Some(None),
            Some(Some(m2)) => unify_list(m2, us, vs, i + 1, fuel),
        }
    }
}

/// Whether unifying `u` and `v` in `m` comes to an end.  Where bindings
/// make a variable stand for a list that holds it, unifying it with a term
/// that leads to the same list goes on without end.
pub open spec fn unify_ends(m: Map<u128, TermView>, u: TermView, v: TermView) -> bool {
    exists|fuel: nat| #[trigger] unify_fuel(m, u, v, fuel) is Some
}

/// What unifying `u` and `v` in `m` gives, where it comes to an end: the
/// bindings that make them equal, or `None` where none do.
pub open spec fn unify_spec(m: Map<u128, TermView>, u: TermView, v: TermView) -> Option<Map<u128, TermView>> {
    unify_fuel(m, u, v, choose|fuel: nat| #[trigger] unify_fuel(m, u, v, fuel) is Some)->Some_0
}

impl Subst {
    fn unify_in(&self, u: &Term, v: &Term, Ghost(fuel): Ghost<nat>) -> (r: Option<Subst>)
        requires
            unify_fuel(self@, u@, v@, fuel) is Some,
        ensures
            match unify_fuel(self@, u@, v@, fuel)->Some_0 {
                Some(m) => r matches Some(s) && s@ == m,
                None => r is None,
            },
        decreases fuel,
    {
        proof {
            use_type_invariant(self);
        }
        let wu = self.walk(u);
        let wv = self.walk(v);
        match (wu, wv) {
            (Term::Var(a), Term::Var(b)) if a == b => Some(self.clone()),
            (Term::Var(a), wv) => Some(self.extend(&a, wv)),
            (wu, Term::Var(b)) => Some(self.extend(&b, wu)),
            (Term::Vec(us), Term::Vec(vs)) => {
                proof {
                    lemma_terms_view(us@);
                    lemma_terms_view(vs@);
                }
                if us.len() != vs.len() {
                    return None;
                }
                let ghost usv = terms_view(us@);
                let ghost vsv = terms_view(vs@);
                let ghost f = (fuel - 1) as nat;
                let mut subst = self.clone();
                let mut i: usize = 0;
                while i < us.len()
                    invariant
                        us@.len() == vs@.len(),
                        usv == terms_view(us@),
                        vsv == terms_view(vs@),
                        usv.len() == us@.len(),
                        vsv.len() == vs@.len(),
                        forall|j: int| 0 <= j < us@.len() ==> #[trigger] usv[j] == us@[j]@,
                        forall|j: int| 0 <= j < vs@.len() ==> #[trigger] vsv[j] == vs@[j]@,
                        i <= us@.len(),
                        fuel > 0,
                        f == fuel - 1,
                        unify_list(subst@, usv, vsv, i as int, f) == unify_fuel(self@, u@, v@, fuel),
                        unify_fuel(self@, u@, v@, fuel) is Some,
                    decreases us@.len() - i,
                {
                    match subst.unify_in(&us[i], &vs[i], Ghost(f)) {
                        Some(s) => {
                            subst = s;
                        },
                        None => {
                            return None;
                        },
                    }
                    i = i + 1;
                }
                Some(subst)
            },
            (wu, wv) => {
                if term_eq(&wu, &wv) {
                    Some(self.clone())
                } else {
                    None
                }
            },
        }
    }

    /// Unifies `u` and `v`: the bindings, beyond those of this substitution,
    /// that make the two terms equal, or `None` where there are none.
    pub fn unify(&self, u: &Term, v: &Term) -> (r: Option<Subst>)
        requires
            unify_ends(self@, u@, v@),
        ensures
            match unify_spec(self@, u@, v@) {
                Some(m) => r matches Some(s) && s@ == m,
                None => r is None,
            },
            r matches Some(s) ==> acyclic(s@),
    {
        let ghost fuel = choose|fuel: nat| #[trigger] unify_fuel(self@, u@, v@, fuel) is Some;
        let r = self.unify_in(u, v, Ghost(fuel));
        proof {
            if let Some(s) = &r {
                use_type_invariant(s);
                assert(ranked(s@, s.rank@));
            }
        }
        r
    }
}

/// A stream of substitutions: none, or one and the rest.
pub enum Stream {
    Null,
    More { subst: Subst, next: Box<Stream> },
}

/// The substitutions of a stream, in order.
pub open spec fn stream_view(s: Stream) -> Seq<Map<u128, TermView>>
    decreases s,
{
    match s {
        Stream::Null => Seq::empty(),
        Stream::More { subst, next } => seq![subst@] + stream_view(*next),
    }
}

impl View for Stream {
    type V = Seq<Map<u128, TermView>>;

    open spec fn view(&self) -> Seq<Map<u128, TermView>> {
        stream_view(*self)
    }
}

/// The elements of `a` and `b` taken in turn, starting with `a`, until one
/// runs out, then the rest of the other.
pub open spec fn interleave<A>(a: Seq<A>, b: Seq<A>) -> Seq<A>
    decreases a.len() + b.len(),
{
    if a.len() == 0 {
        b
    } else {
        seq![a[0]] + interleave(b, a.drop_first())
    }
}

impl Stream {
    /// The stream with no substitution.
    pub fn mzero() -> (s: Stream)
        ensures
            s@ == Seq::<Map<u128, TermView>>::empty(),
    {
        Stream::Null
    }

    /// The stream of one substitution.
    pub fn unit(subst: Subst) -> (s: Stream)
        ensures
            s@ == seq![subst@],
    {
        let next = Stream::mzero();
        let s = Stream::More { subst, next: Box::new(next) };
        proof {
            assert(s@ =~= seq![subst@]);
        }
        s
    }
}

/// The substitutions of two streams, taken in turn.
pub fn mplus(s1: Stream, s2: Stream) -> (s: Stream)
    ensures
        s@ == interleave(s1@, s2@),
    decreases s1@.len() + s2@.len(),
{
    if let Stream::More { subst, next } = s1 {
        proof {
            assert(s1@.drop_first() =~= next@);
        }
        let next = mplus(s2, *next);
        let s = Stream::More { subst, next: Box::new(next) };
        proof {
            assert(s1@[0] == subst@);
        }
        s
    } else {
        s2
    }
}

/// The stream a goal that unifies `u` and `v` gives from `subst`: the
/// substitution unification finds, or none.
pub fn eqo_stream(u: &Term, v: &Term, subst: &Subst) -> (s: Stream)
    requires
        unify_ends(subst@, u@, v@),
    ensures
        s@ == match unify_spec(subst@, u@, v@) {
            Some(m) => seq![m],
            None => Seq::<Map<u128, TermView>>::empty(),
        },
{
    if let Some(found) = subst.unify(u, v) {
        Stream::unit(found)
    } else {
        Stream::mzero()
    }
}

/// Whether no chain of variables bound to variables in `m` comes back to
/// where it started.
pub open spec fn acyclic(m: Map<u128, TermView>) -> bool {
    exists|rank: Map<u128, nat>| #[trigger] ranked(m, rank)
}

/// Whether `u` and `v` come to the same in `m`, within `fuel` levels of
/// nested lists: they walk to the same term, or to lists of one length
/// whose elements come to the same.
pub open spec fn agree(m: Map<u128, TermView>, u: TermView, v: TermView, fuel: nat) -> bool
    decreases fuel, 0nat,
{
    let wu = walk_spec(m, u);
    let wv = walk_spec(m, v);
    ||| wu == wv
    ||| fuel > 0 && wu is Vec && wv is Vec && wu->Vec_0.len() == wv->Vec_0.len()
        && agree_list(m, wu->Vec_0, wv->Vec_0, 0, (fuel - 1) as nat)
}

/// Whether the elements of `us` and `vs` from index `i` on come to the same
/// in `m`, pair by pair.
pub open spec fn agree_list(m: Map<u128, TermView>, us: Seq<TermView>, vs: Seq<TermView>, i: int, fuel: nat) -> bool
    decreases fuel, 1nat + (if i < us.len() { (us.len() - i) as nat } else { 0nat }),
{
    if i < 0 || i >= us.len() || i >= vs.len() {
        true
    } else {
        agree(m, us[i], vs[i], fuel) && agree_list(m, us, vs, i + 1, fuel)
    }
}

proof fn lemma_agree_list_all(m: Map<u128, TermView>, us: Seq<TermView>, vs: Seq<TermView>, i: int, fuel: nat)
    requires
        0 <= i,
        us.len() == vs.len(),
    ensures
        agree_list(m, us, vs, i, fuel) <==> forall|j: int| i <= j < us.len() ==> #[trigger] agree(m, us[j], vs[j], fuel),
    decreases us.len() - i,
{
    if i < us.len() {
        lemma_agree_list_all(m, us, vs, i + 1, fuel);
        if !agree(m, us[i], vs[i], fuel) {
            assert(!(forall|j: int| i <= j < us.len() ==> #[trigger] agree(m, us[j], vs[j], fuel)));
        }
    }
}

/// Whether `u` and `v` come to the same in `m`.
pub open spec fn same_in(m: Map<u128, TermView>, u: TermView, v: TermView) -> bool {
    exists|fuel: nat| #[trigger] agree(m, u, v, fuel)
}

proof fn lemma_walk_step(m: Map<u128, TermView>, rank: Map<u128, nat>, x: u128)
    requires
        ranked(m, rank),
        m.contains_key(x),
    ensures
        walk_spec(m, TermView::Var(x)) == walk_spec(m, m[x]),
{
    assert(m.dom().contains(x));
    assert(m.dom().len() > 0) by {
        vstd::set_lib::lemma_set_empty_equivalency_len(m.dom());
    }
    if bound_var(m, m[x]) {
        assert(rank[x] < rank[m[x]->Var_0]);
        assert(m.contains_key(m[x]->Var_0));
    }
    lemma_walk_stable(m, rank, m[x], (m.dom().len() - 1) as nat, m.dom().len());
}

proof fn lemma_walk_free(m: Map<u128, TermView>, t: TermView)
    requires
        !bound_var(m, t),
    ensures
        walk_spec(m, t) == t,
{
}

proof fn lemma_walk_settles(m: Map<u128, TermView>, rank: Map<u128, nat>, t: TermView)
    requires
        ranked(m, rank),
    ensures
        !bound_var(m, walk_spec(m, t)),
{
    if bound_var(m, t) {
        assert(m.contains_key(t->Var_0));
    }
    lemma_walk_stable(m, rank, t, m.dom().len(), m.dom().len());
}

proof fn lemma_walk_extend(m: Map<u128, TermView>, rank: Map<u128, nat>, m2: Map<u128, TermView>, rank2: Map<u128, nat>, t: TermView)
    requires
        ranked(m, rank),
        ranked(m2, rank2),
        keeps(m, m2),
    ensures
        walk_spec(m2, t) == walk_spec(m2, walk_spec(m, t)),
    decreases walk_need(m, rank, t),
{
    if bound_var(m, t) {
        let x = t->Var_0;
        assert(m.contains_key(x));
        assert(m2.contains_key(x) && m2[x] == m[x]);
        lemma_walk_step(m, rank, x);
        lemma_walk_step(m2, rank2, x);
        if bound_var(m, m[x]) {
            assert(rank[x] < rank[m[x]->Var_0]);
            assert(m.contains_key(m[x]->Var_0));
        }
        lemma_walk_extend(m, rank, m2, rank2, m[x]);
    }
}

proof fn lemma_agree_unfold(m: Map<u128, TermView>, u: TermView, v: TermView, fuel: nat)
    requires
        agree(m, u, v, fuel),
        walk_spec(m, u) != walk_spec(m, v),
    ensures
        fuel > 0,
        walk_spec(m, u) is Vec,
        walk_spec(m, v) is Vec,
        walk_spec(m, u)->Vec_0.len() == walk_spec(m, v)->Vec_0.len(),
        forall|i: int| 0 <= i < walk_spec(m, u)->Vec_0.len() ==>
            #[trigger] agree(m, walk_spec(m, u)->Vec_0[i], walk_spec(m, v)->Vec_0[i], (fuel - 1) as nat),
{
    lemma_agree_list_all(m, walk_spec(m, u)->Vec_0, walk_spec(m, v)->Vec_0, 0, (fuel - 1) as nat);
}

proof fn lemma_agree_fold(m: Map<u128, TermView>, u: TermView, v: TermView, fuel: nat)
    requires
        walk_spec(m, u) == walk_spec(m, v) || {
            &&& fuel > 0
            &&& walk_spec(m, u) is Vec
            &&& walk_spec(m, v) is Vec
            &&& walk_spec(m, u)->Vec_0.len() == walk_spec(m, v)->Vec_0.len()
            &&& forall|i: int| 0 <= i < walk_spec(m, u)->Vec_0.len() ==>
                #[trigger] agree(m, walk_spec(m, u)->Vec_0[i], walk_spec(m, v)->Vec_0[i], (fuel - 1) as nat)
        },
    ensures
        agree(m, u, v, fuel),
{
    if walk_spec(m, u) != walk_spec(m, v) {
        lemma_agree_list_all(m, walk_spec(m, u)->Vec_0, walk_spec(m, v)->Vec_0, 0, (fuel - 1) as nat);
    }
}

/// Whether `m2` keeps every binding of `m`.
pub open spec fn keeps(m: Map<u128, TermView>, m2: Map<u128, TermView>) -> bool {
    forall|k: u128| #[trigger] m.contains_key(k) ==> m2.contains_key(k) && m2[k] == m[k]
}

proof fn lemma_keeps_trans(a: Map<u128, TermView>, b: Map<u128, TermView>, c: Map<u128, TermView>)
    requires
        keeps(a, b),
        keeps(b, c),
    ensures
        keeps(a, c),
{
    assert forall|k: u128| #[trigger] a.contains_key(k) implies c.contains_key(k) && c[k] == a[k] by {
        assert(b.contains_key(k));
    }
}

proof fn lemma_agree_extend(m: Map<u128, TermView>, rank: Map<u128, nat>, m2: Map<u128, TermView>, rank2: Map<u128, nat>,
    u: TermView, v: TermView, fuel: nat)
    requires
        ranked(m, rank),
        ranked(m2, rank2),
        keeps(m, m2),
        agree(m, u, v, fuel),
    ensures
        agree(m2, u, v, fuel),
    decreases fuel,
{
    lemma_walk_extend(m, rank, m2, rank2, u);
    lemma_walk_extend(m, rank, m2, rank2, v);
    let wu = walk_spec(m, u);
    let wv = walk_spec(m, v);
    if wu != wv {
        lemma_agree_unfold(m, u, v, fuel);
        lemma_walk_free(m2, wu);
        lemma_walk_free(m2, wv);
        assert forall|i: int| 0 <= i < wu->Vec_0.len() implies #[trigger] agree(m2, wu->Vec_0[i], wv->Vec_0[i], (fuel - 1) as nat) by {
            assert(agree(m, wu->Vec_0[i], wv->Vec_0[i], (fuel - 1) as nat));
            lemma_agree_extend(m, rank, m2, rank2, wu->Vec_0[i], wv->Vec_0[i], (fuel - 1) as nat);
        }
        lemma_agree_fold(m2, u, v, fuel);
    } else {
        lemma_agree_fold(m2, u, v, fuel);
    }
}

proof fn lemma_ranked_insert(m: Map<u128, TermView>, rank: Map<u128, nat>, a: u128, w: TermView)
    requires
        ranked(m, rank),
        !m.contains_key(a),
        !bound_var(m, w),
        w is Var ==> w->Var_0 != a,
    ensures
        ranked(m.insert(a, w), rank.insert(a, m.dom().len())),
        keeps(m, m.insert(a, w)),
{
    let m2 = m.insert(a, w);
    let r = rank.insert(a, m.dom().len());
    assert(m2.dom() =~= m.dom().insert(a));
    assert(m2.dom().len() == m.dom().len() + 1);
    assert(r.dom() =~= m2.dom());
    assert forall|x: u128| #[trigger] m2.contains_key(x) && bound_var(m2, m2[x]) implies r[x] < r[m2[x]->Var_0] by {
        if x != a {
            assert(m.contains_key(x));
            let y = m[x]->Var_0;
            if y != a {
                assert(bound_var(m, m[x]));
            }
        }
    }
}

proof fn lemma_unify_sound(m: Map<u128, TermView>, rank: Map<u128, nat>, u: TermView, v: TermView, fuel: nat)
    -> (rank2: Map<u128, nat>)
    requires
        ranked(m, rank),
        unify_fuel(m, u, v, fuel) matches Some(Some(_)),
    ensures
        ranked(unify_fuel(m, u, v, fuel)->Some_0->Some_0, rank2),
        keeps(m, unify_fuel(m, u, v, fuel)->Some_0->Some_0),
        agree(unify_fuel(m, u, v, fuel)->Some_0->Some_0, u, v, fuel),
    decreases fuel, 0nat,
{
    let wu = walk_spec(m, u);
    let wv = walk_spec(m, v);
    lemma_walk_settles(m, rank, u);
    lemma_walk_settles(m, rank, v);
    let m2 = unify_fuel(m, u, v, fuel)->Some_0->Some_0;
    if wu is Var && wv is Var && wu->Var_0 == wv->Var_0 {
        assert(m2 == m);
        lemma_agree_fold(m2, u, v, fuel);
        rank
    } else if wu is Var {
        let a = wu->Var_0;
        assert(m2 == m.insert(a, wv));
        lemma_ranked_insert(m, rank, a, wv);
        let r = rank.insert(a, m.dom().len());
        lemma_walk_extend(m, rank, m2, r, u);
        lemma_walk_extend(m, rank, m2, r, v);
        assert(m2.contains_key(a) && m2[a] == wv);
        lemma_walk_step(m2, r, a);
        assert(walk_spec(m2, u) == walk_spec(m2, wv));
        assert(walk_spec(m2, v) == walk_spec(m2, wv));
        lemma_agree_fold(m2, u, v, fuel);
        r
    } else if wv is Var {
        let b = wv->Var_0;
        assert(m2 == m.insert(b, wu));
        lemma_ranked_insert(m, rank, b, wu);
        let r = rank.insert(b, m.dom().len());
        lemma_walk_extend(m, rank, m2, r, u);
        lemma_walk_extend(m, rank, m2, r, v);
        assert(m2.contains_key(b) && m2[b] == wu);
        lemma_walk_step(m2, r, b);
        assert(walk_spec(m2, v) == walk_spec(m2, wu));
        assert(walk_spec(m2, u) == walk_spec(m2, wu));
        lemma_agree_fold(m2, u, v, fuel);
        r
    } else if wu is Vec && wv is Vec {
        let us = wu->Vec_0;
        let vs = wv->Vec_0;
        assert(us.len() == vs.len());
        assert(m2 == unify_list(m, us, vs, 0, (fuel - 1) as nat)->Some_0->Some_0);
        let r = lemma_unify_list_sound(m, rank, us, vs, 0, (fuel - 1) as nat);
        lemma_walk_extend(m, rank, m2, r, u);
        lemma_walk_extend(m, rank, m2, r, v);
        lemma_walk_free(m2, wu);
        lemma_walk_free(m2, wv);
        assert(walk_spec(m2, u) == wu);
        assert(walk_spec(m2, v) == wv);
        assert forall|i: int| 0 <= i < us.len() implies #[trigger] agree(m2, us[i], vs[i], (fuel - 1) as nat) by {
        }
        lemma_agree_fold(m2, u, v, fuel);
        r
    } else {
        assert(m2 == m);
        lemma_agree_fold(m2, u, v, fuel);
        rank
    }
}

proof fn lemma_unify_list_sound(m: Map<u128, TermView>, rank: Map<u128, nat>, us: Seq<TermView>, vs: Seq<TermView>, i: int, fuel: nat)
    -> (rank2: Map<u128, nat>)
    requires
        ranked(m, rank),
        0 <= i,
        us.len() == vs.len(),
        unify_list(m, us, vs, i, fuel) matches Some(Some(_)),
    ensures
        ranked(unify_list(m, us, vs, i, fuel)->Some_0->Some_0, rank2),
        keeps(m, unify_list(m, us, vs, i, fuel)->Some_0->Some_0),
        forall|j: int| i <= j < us.len() ==> #[trigger] agree(unify_list(m, us, vs, i, fuel)->Some_0->Some_0, us[j], vs[j], fuel),
    decreases fuel, 1nat + (if i < us.len() { (us.len() - i) as nat } else { 0nat }),
{
    if i >= us.len() {
        rank
    } else {
        let m1 = unify_fuel(m, us[i], vs[i], fuel)->Some_0->Some_0;
        let r1 = lemma_unify_sound(m, rank, us[i], vs[i], fuel);
        let r2 = lemma_unify_list_sound(m1, r1, us, vs, i + 1, fuel);
        let m2 = unify_list(m, us, vs, i, fuel)->Some_0->Some_0;
        assert(m2 == unify_list(m1, us, vs, i + 1, fuel)->Some_0->Some_0);
        lemma_agree_extend(m1, r1, m2, r2, us[i], vs[i], fuel);
        lemma_keeps_trans(m, m1, m2);
        assert forall|j: int| i <= j < us.len() implies #[trigger] agree(m2, us[j], vs[j], fuel) by {
            if j > i {
                assert(agree(unify_list(m1, us, vs, i + 1, fuel)->Some_0->Some_0, us[j], vs[j], fuel));
            }
        }
        r2
    }
}

/// Unifying succeeds by making the two terms come to the same: where
/// unifying `u` and `v` in bindings without cycles of variables ends with
/// bindings, those keep every binding it started from, still have no such
/// cycle, and `u` and `v` come to the same in them.
pub proof fn law_unify_sound(m: Map<u128, TermView>, u: TermView, v: TermView)
    requires
        acyclic(m),
        unify_ends(m, u, v),
        unify_spec(m, u, v) is Some,
    ensures
        keeps(m, unify_spec(m, u, v)->Some_0),
        acyclic(unify_spec(m, u, v)->Some_0),
        same_in(unify_spec(m, u, v)->Some_0, u, v),
{
    let rank = choose|rank: Map<u128, nat>| #[trigger] ranked(m, rank);
    let fuel = choose|fuel: nat| #[trigger] unify_fuel(m, u, v, fuel) is Some;
    let r = lemma_unify_sound(m, rank, u, v, fuel);
    let m2 = unify_spec(m, u, v)->Some_0;
    assert(ranked(m2, r));
    assert(agree(m2, u, v, fuel));
}

proof fn lemma_unify_self(m: Map<u128, TermView>, t: TermView, fuel: nat)
    requires
        unify_fuel(m, t, t, fuel) is Some,
    ensures
        unify_fuel(m, t, t, fuel) == Some(Some(m)),
    decreases fuel, 0nat,
{
    let w = walk_spec(m, t);
    if !(w is Var) && w is Vec {
        lemma_unify_list_self(m, w->Vec_0, 0, (fuel - 1) as nat);
    }
}

proof fn lemma_unify_list_self(m: Map<u128, TermView>, ts: Seq<TermView>, i: int, fuel: nat)
    requires
        0 <= i,
        unify_list(m, ts, ts, i, fuel) is Some,
    ensures
        unify_list(m, ts, ts, i, fuel) == Some(Some(m)),
    decreases fuel, 1nat + (if i < ts.len() { (ts.len() - i) as nat } else { 0nat }),
{
    if i < ts.len() {
        lemma_unify_self(m, ts[i], fuel);
        lemma_unify_list_self(m, ts, i + 1, fuel);
    }
}

/// Unifying a variable that nothing binds with a term that does not walk
/// to that variable always ends, and succeeds: it binds the variable to
/// where the term walks, and nothing else changes.  So too with the two
/// sides swapped, where the term walks to no variable.
pub proof fn law_unify_binds_a_free_variable(m: Map<u128, TermView>, x: u128, t: TermView)
    requires
        !m.contains_key(x),
        walk_spec(m, t) != TermView::Var(x),
    ensures
        unify_ends(m, TermView::Var(x), t),
        unify_spec(m, TermView::Var(x), t) == Some(m.insert(x, walk_spec(m, t))),
        !(walk_spec(m, t) is Var) ==> unify_ends(m, t, TermView::Var(x))
            && unify_spec(m, t, TermView::Var(x)) == Some(m.insert(x, walk_spec(m, t))),
{
    let v = TermView::Var(x);
    assert(walk_spec(m, v) == v);
    assert(unify_fuel(m, v, t, 1) is Some);
    let fuel = choose|fuel: nat| #[trigger] unify_fuel(m, v, t, fuel) is Some;
    assert(fuel > 0);
    if !(walk_spec(m, t) is Var) {
        assert(unify_fuel(m, t, v, 1) is Some);
        let fuel2 = choose|fuel: nat| #[trigger] unify_fuel(m, t, v, fuel) is Some;
        assert(fuel2 > 0);
    }
}

/// Two terms that walk to different strings, or to lists of different
/// lengths, never unify: unifying them ends at once with no bindings.
pub proof fn law_unify_refuses_mismatches(m: Map<u128, TermView>, u: TermView, v: TermView)
    requires
        (walk_spec(m, u) matches TermView::Str(a) && walk_spec(m, v) matches TermView::Str(b) && a != b)
        || (walk_spec(m, u) matches TermView::Vec(us) && walk_spec(m, v) matches TermView::Vec(vs) && us.len() != vs.len())
        || (walk_spec(m, u) is Str && walk_spec(m, v) is Vec)
        || (walk_spec(m, u) is Vec && walk_spec(m, v) is Str),
    ensures
        unify_ends(m, u, v),
        unify_spec(m, u, v) is None,
{
    assert(unify_fuel(m, u, v, 1) is Some);
    let fuel = choose|fuel: nat| #[trigger] unify_fuel(m, u, v, fuel) is Some;
    assert(fuel > 0);
}

/// Unifying a term with itself, where it ends, succeeds and binds nothing
/// new.
pub proof fn law_unify_self(m: Map<u128, TermView>, t: TermView)
    requires
        unify_ends(m, t, t),
    ensures
        unify_spec(m, t, t) == Some(m),
{
    let fuel = choose|fuel: nat| #[trigger] unify_fuel(m, t, t, fuel) is Some;
    lemma_unify_self(m, t, fuel);
}

} // verus!
