use cicada::ukanren::{Subst, Term, Stream, mplus, eqo_stream};
use cicada::kanren::{State, Stream as KStream};

#[test]
fn lib_test_unify() {
    let subst = Subst::new();
    let v = Term::var();
    let u = Term::var();
    subst.unify(&v, &u).unwrap();
    subst.unify(&u, &u).unwrap();
    subst.unify(&v, &v).unwrap();
    let bye = Term::str("bye");
    let love = Term::str("love");
    let vec1 = Term::Vec(vec![
        v.clone(),
        bye.clone(),
        u.clone(),
    ]);
    let vec2 = Term::Vec(vec![
        u.clone(),
        bye.clone(),
        love.clone(),
    ]);
    let subst = subst.unify(&vec1, &vec2).unwrap();
    assert_eq!(2, subst.len());
}

#[test]
fn unify_fails_on_different_strings_and_lengths() {
    let subst = Subst::new();
    assert!(subst.unify(&Term::str("a"), &Term::str("b")).is_none());
    assert!(subst.unify(&Term::str("a"), &Term::Vec(vec![])).is_none());
    let x = Term::var();
    assert!(subst
        .unify(&Term::Vec(vec![x.clone()]), &Term::Vec(vec![x.clone(), x.clone()]))
        .is_none());
    let same = subst.unify(&Term::str("a"), &Term::str("a")).unwrap();
    assert_eq!(same.len(), 0);
}

#[test]
fn walk_follows_chains_of_variables() {
    let x = Term::var();
    let y = Term::var();
    let s = Subst::new().unify(&x, &y).unwrap();
    let s = s.unify(&y, &Term::str("end")).unwrap();
    assert_eq!(s.len(), 2);
    assert_eq!(s.walk(&x), Term::str("end"));
    assert_eq!(s.walk(&y), Term::str("end"));
    assert_eq!(s.walk(&Term::str("k")), Term::str("k"));
    let fresh = Term::var();
    assert_eq!(s.walk(&fresh), fresh);
    match s.find(&match x { Term::Var(id) => id, _ => unreachable!() }) {
        Some(t) => assert_eq!(*t, y),
        None => panic!("x is bound"),
    }
}

#[test]
fn unified_terms_walk_alike() {
    let x = Term::var();
    let y = Term::var();
    let s = Subst::new()
        .unify(&Term::Vec(vec![x.clone(), Term::str("b")]), &Term::Vec(vec![Term::str("a"), y.clone()]))
        .unwrap();
    assert_eq!(s.walk(&x), Term::str("a"));
    assert_eq!(s.walk(&y), Term::str("b"));
}

fn count(s: &Stream) -> usize {
    match s {
        Stream::Null => 0,
        Stream::More { next, .. } => 1 + count(next),
    }
}

#[test]
fn streams_interleave_and_goals_unify() {
    let x = Term::var();
    let s1 = eqo_stream(&x, &Term::str("a"), &Subst::new());
    let s2 = eqo_stream(&x, &Term::str("b"), &Subst::new());
    let none = eqo_stream(&Term::str("a"), &Term::str("b"), &Subst::new());
    assert_eq!(count(&s1), 1);
    assert_eq!(count(&none), 0);
    let both = mplus(s1, s2);
    assert_eq!(count(&both), 2);
    match both {
        Stream::More { subst, next } => {
            assert_eq!(subst.walk(&x), Term::str("a"));
            match *next {
                Stream::More { subst, .. } => assert_eq!(subst.walk(&x), Term::str("b")),
                Stream::Null => panic!("two substitutions were expected"),
            }
        }
        Stream::Null => panic!("two substitutions were expected"),
    }
    assert_eq!(count(&mplus(Stream::mzero(), Stream::unit(Subst::new()))), 1);
}

#[test]
fn kanren_unify_binds_two_variables() {
    use_kanren();
}

fn use_kanren() {
    let subst = cicada::kanren::Substitution::new();
    let v = Term::var();
    let u = Term::var();
    subst.unify(&v, &u).unwrap();
    subst.unify(&u, &u).unwrap();
    subst.unify(&v, &v).unwrap();
    let bye = Term::str("bye");
    let world = Term::str("world");
    let vec1 = Term::Vec(vec![v.clone(), bye.clone(), u.clone()]);
    let vec2 = Term::Vec(vec![u.clone(), bye.clone(), world.clone()]);
    let subst = subst.unify(&vec1, &vec2).unwrap();
    assert_eq!(2, subst.len());
}

#[test]
fn kanren_goal_streams() {
    let x = Term::var();
    let a = cicada::kanren::eqo_stream(&x, &Term::str("hi"), &State::new());
    let b = cicada::kanren::eqo_stream(&x, &Term::str("bye"), &State::new());
    let both = cicada::kanren::mplus(a, b);
    let mut n = 0;
    let mut s = &both;
    while let KStream::More { next, .. } = s {
        n += 1;
        s = next;
    }
    assert_eq!(n, 2);
}
