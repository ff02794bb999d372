use cicada::yoneda::{mplus, mzero, unit, ConjRelation, Goal, Relation, Subst, Term, TupleTerm};

#[test]
fn yoneda_test_unify() {
    let u = Term::var("u");
    let v = Term::var("v");
    let _subst = Subst::new().unify(
        &Term::tuple("tuple", vec![
            u.clone(),
            v.clone(),
        ]),
        &Term::tuple("tuple", vec![
            v.clone(),
            Term::tuple("hi", vec![]),
        ]));
}

#[test]
fn unify_binds_the_later_variable_through_the_earlier() {
    let u = Term::var("u");
    let v = Term::var("v");
    let hi = Term::tuple("hi", vec![]);
    let subst = Subst::new()
        .unify(
            &Term::tuple("tuple", vec![u.clone(), v.clone()]),
            &Term::tuple("tuple", vec![v.clone(), hi.clone()]),
        )
        .unwrap();
    assert_eq!(subst.walk(&u), hi);
    assert_eq!(subst.walk(&v), hi);
    match &u {
        Term::Var(var) => assert_eq!(subst.find(var), Some(&v)),
        _ => unreachable!(),
    }
}

#[test]
fn unify_fails_on_heads_and_lengths() {
    let s = Subst::new();
    assert!(s.unify(&Term::tuple("a", vec![]), &Term::tuple("b", vec![])).is_none());
    let x = Term::var("x");
    assert!(s
        .unify(&Term::tuple("a", vec![x.clone()]), &Term::tuple("a", vec![x.clone(), x.clone()]))
        .is_none());
    assert_eq!(s.unify(&x, &x), Some(Subst::new()));
}

#[test]
fn relations_make_goals() {
    let x = Term::var("x");
    let five = Term::tuple("five-c", vec![]);
    let base = ConjRelation { head: vec![five.clone()], body: vec![] };
    assert_eq!(
        base.apply(&vec![x.clone()]),
        Goal::conj(Goal::unit(), Goal::eqo(five.clone(), x.clone())),
    );
    let more = ConjRelation {
        head: vec![x.clone()],
        body: vec![TupleTerm { head: "fives-t".to_string(), body: vec![x.clone()] }],
    };
    let y = Term::var("y");
    let relation = Relation::Disj(vec![base, more]);
    let expected = Goal::disj(
        Goal::disj(Goal::zero(), Goal::conj(Goal::unit(), Goal::eqo(five.clone(), y.clone()))),
        Goal::conj(
            Goal::conj(Goal::unit(), Goal::eqo(x.clone(), y.clone())),
            Goal::call("fives-t", vec![x.clone()]),
        ),
    );
    assert_eq!(relation.apply(&vec![y.clone()]), expected);
    let single = Relation::Conj(ConjRelation { head: vec![], body: vec![] });
    assert_eq!(single.apply(&vec![y]), Goal::unit());
}

#[test]
fn mplus_puts_the_first_before_the_other_stream() {
    let a = Subst::new().ext(match Term::var("a") { Term::Var(v) => v, _ => unreachable!() }, Term::tuple("1", vec![]));
    let b = Subst::new().ext(match Term::var("b") { Term::Var(v) => v, _ => unreachable!() }, Term::tuple("2", vec![]));
    let c = Subst::new();
    let s1 = vec![a.clone(), c.clone()];
    let s2 = unit(b.clone());
    assert_eq!(mplus(s1, s2), vec![a.clone(), b.clone(), c.clone()]);
    assert_eq!(mplus(mzero(), unit(c.clone())), vec![c]);
}

#[test]
fn unify_keeps_earlier_bindings() {
    let y = Term::var("y");
    let y_var = match &y { Term::Var(v) => v.clone(), _ => unreachable!() };
    let one = Term::tuple("1", vec![]);
    let s = Subst::new().ext(y_var.clone(), one.clone());
    let x = Term::var("x");
    let x_var = match &x { Term::Var(v) => v.clone(), _ => unreachable!() };
    let two = Term::tuple("2", vec![]);
    let s2 = s.unify(&x, &two).unwrap();
    assert_eq!(s2.find(&y_var), Some(&one));
    assert_eq!(s2.find(&x_var), Some(&two));
    assert_eq!(s2, s.ext(x_var, two));
}

#[test]
fn unify_makes_nested_tuples_come_to_the_same() {
    let x = Term::var("x");
    let y = Term::var("y");
    let zero = Term::tuple("zero", vec![]);
    let u = Term::tuple("pair", vec![x.clone(), Term::tuple("succ", vec![y.clone()])]);
    let v = Term::tuple("pair", vec![zero.clone(), Term::tuple("succ", vec![x.clone()])]);
    let subst = Subst::new().unify(&u, &v).unwrap();
    assert_eq!(subst.walk(&x), zero);
    assert_eq!(subst.walk(&y), zero);
}
