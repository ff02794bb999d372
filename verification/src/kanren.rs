//! The first form of the micro logic language: the terms, substitutions
//! and unification of `ukanren`, with the substitution held in a state.

use vstd::prelude::*;
use crate::ukanren::{Subst, TermView, unify_ends, unify_spec, interleave};

pub use crate::ukanren::Term;

verus! {

/// A substitution, as `ukanren` has it.
pub type Substitution = Subst;

/// The state a goal works on: a substitution.
pub struct State {
    subst: Substitution,
}

impl View for State {
    type V = Map<u128, TermView>;

    closed spec fn view(&self) -> Map<u128, TermView> {
        self.subst@
    }
}

impl State {
    /// The state that binds nothing.
    pub fn new() -> (s: State)
        ensures
            s@ == Map::<u128, TermView>::empty(),
    {
        State { subst: Substitution::new() }
    }
}

impl Clone for State {
    fn clone(&self) -> (r: Self)
        ensures
            r@ == self@,
    {
        State { subst: self.subst.clone() }
    }
}

/// A stream of states: none, or one and the rest.
pub enum Stream {
    Null,
    More { state: State, next: Box<Stream> },
}

/// The substitutions of the states of a stream, in order.
pub open spec fn stream_view(s: Stream) -> Seq<Map<u128, TermView>>
    decreases s,
{
    match s {
        Stream::Null => Seq::empty(),
        Stream::More { state, next } => seq![state@] + stream_view(*next),
    }
}

impl View for Stream {
    type V = Seq<Map<u128, TermView>>;

    open spec fn view(&self) -> Seq<Map<u128, TermView>> {
        stream_view(*self)
    }
}

impl Stream {
    /// The stream with no state.
    pub fn mzero() -> (s: Stream)
        ensures
            s@ == Seq::<Map<u128, TermView>>::empty(),
    {
        Stream::Null
    }

    /// The stream of one state.
    pub fn unit(state: State) -> (s: Stream)
        ensures
            s@ == seq![state@],
    {
        let next = Stream::mzero();
        let s = Stream::More { state, next: Box::new(next) };
        proof {
            assert(s@ =~= seq![state@]);
        }
        s
    }
}

/// The states of two streams, taken in turn.
pub fn mplus(s1: Stream, s2: Stream) -> (s: Stream)
    ensures
        s@ == interleave(s1@, s2@),
    decreases s1@.len() + s2@.len(),
{
    if let Stream::More { state, next } = s1 {
        proof {
            assert(s1@.drop_first() =~= next@);
        }
        let next = mplus(s2, *next);
        let s = Stream::More { state, next: Box::new(next) };
        proof {
            assert(s1@[0] == state@);
        }
        s
    } else {
        s2
    }
}

/// The stream a goal that unifies `u` and `v` gives from `state`: the state
/// of the substitution unification finds, or none.
pub fn eqo_stream(u: &Term, v: &Term, state: &State) -> (s: Stream)
    requires
        unify_ends(state@, u@, v@),
    ensures
        s@ == match unify_spec(state@, u@, v@) {
            Some(m) => seq![m],
            None => Seq::<Map<u128, TermView>>::empty(),
        },
{
    if let Some(subst) = state.subst.unify(u, v) {
        Stream::unit(State { subst })
    } else {
        Stream::mzero()
    }
}

} // verus!
