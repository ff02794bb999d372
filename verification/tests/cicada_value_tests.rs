use cicada::cicada_value::{report_subst, value_dic_to_tv_vec, name_to_cons_name, name_to_prop_name, new_tv, Conj, Data, Dic, Disj, Id, Subst, TypedVar, Value, Var};

fn data(name: &str, fields: Vec<(&str, Value)>) -> Value {
    let mut body = Dic::new();
    for (k, v) in fields {
        body.ins(k, Some(v));
    }
    Value::Data(Data { name: name.to_string(), body })
}

fn var(name: &str) -> (Var, Value) {
    let x = Var::new(name);
    let v = Value::Var(Var { id: x.id, name: x.name.clone() });
    (x, v)
}

#[test]
fn test_unify() {
    let (_, u) = var("u");
    let (_, v) = var("v");
    let subst = Subst::new()
        .unify(
            &data("cons-c", vec![("car", clone(&u)), ("cdr", clone(&v))]),
            &data("cons-c", vec![("car", clone(&v)), ("cdr", data("unit-c", vec![]))]),
        )
        .unwrap();
    assert_eq!(subst.len(), 2);
}

fn clone(v: &Value) -> Value {
    cicada::cicada_value::copy_value(v)
}

#[test]
fn unify_walks_and_binds() {
    let (x, xv) = var("x");
    let (y, yv) = var("y");
    let unit = data("unit-c", vec![]);
    let s = Subst::new().unify(&xv, &yv).unwrap();
    assert_eq!(s.find_var(&x), Some(&yv));
    let s = s.unify(&xv, &unit).unwrap();
    assert_eq!(s.find_var(&y), Some(&unit));
    assert_eq!(s.walk(&xv), unit);
    assert_eq!(s.len(), 2);
    // the same variable unifies with itself without a new binding
    assert_eq!(s.unify(&xv, &xv).unwrap().len(), 2);
    // data of different names does not unify
    assert!(Subst::new().unify(&unit, &data("zero-c", vec![])).is_none());
}

#[test]
fn occurs_check_refuses_cycles() {
    let (x, xv) = var("x");
    let cell = data("box-c", vec![("in", clone(&xv))]);
    let s = Subst::new();
    assert!(s.var_occur_p(&x, &cell));
    assert!(s.unify(&xv, &cell).is_none());
}

#[test]
fn typed_variables_take_data_of_their_proposition() {
    let nat_t = Value::Conj(Conj { name: "zero-t".to_string(), body: Dic::new() });
    let tv = new_tv("n", &nat_t);
    let tvv = Value::TypedVar(TypedVar { id: tv.id, name: tv.name.clone(), ty: Box::new(clone(&nat_t)) });
    let zero = data("zero-c", vec![]);
    let s = Subst::new().unify(&tvv, &zero).unwrap();
    assert_eq!(s.find_tv(&tv), Some(&zero));
    assert!(Subst::new().unify(&tvv, &data("succ-c", vec![])).is_none());
    let disj = Value::Disj(Disj { name: "nat-t".to_string(), name_vec: vec!["zero-t".to_string(), "succ-t".to_string()], body: Dic::new() });
    assert!(Subst::new().unify_type_to_value(&disj, &zero).is_some());
    assert!(Subst::new().unify_type_to_value(&disj, &data("one-c", vec![])).is_none());
    assert!(Subst::new().unify_type_to_value(&Value::TypeOfType, &disj).is_some());
}

#[test]
fn union_puts_bindings_first() {
    let (_, xv) = var("x");
    let (_, yv) = var("y");
    let a = Subst::new().unify(&xv, &data("a-c", vec![])).unwrap();
    let b = Subst::new().unify(&yv, &data("b-c", vec![])).unwrap();
    let u = a.union(&b);
    assert_eq!(u.len(), 2);
    match &u {
        Subst::VarBinding(_, v, _) => assert_eq!(v, &data("a-c", vec![])),
        _ => panic!(),
    }
    assert_eq!(a.reverse(), a);
}

#[test]
fn reify_numbers_variables() {
    let (_, xv) = var("x");
    let (_, yv) = var("y");
    let pair = data("pair-c", vec![("a", clone(&xv)), ("b", clone(&yv))]);
    let r = Subst::new().reify(&pair);
    let expected = data("pair-c", vec![
        ("a", Value::Var(Var { id: Id::Local(0), name: "x".to_string() })),
        ("b", Value::Var(Var { id: Id::Local(1), name: "y".to_string() })),
    ]);
    assert_eq!(r, expected);
    let s = Subst::new().unify(&yv, &data("one-c", vec![])).unwrap();
    let deep = s.deep_walk(&pair);
    assert_eq!(deep, data("pair-c", vec![("a", clone(&xv)), ("b", data("one-c", vec![]))]));
}

#[test]
fn dic_keeps_insertion_order() {
    let mut d: Dic<u32> = Dic::new();
    d.ins("a", Some(1));
    d.ins("b", None);
    d.ins("a", Some(3));
    assert_eq!(d.len(), 2);
    assert_eq!(d.get("a"), Some(&3));
    assert_eq!(d.get("b"), None);
    assert!(d.has_name("b"));
    assert!(!d.has_name("c"));
}

#[test]
fn values_print_as_cicada_does() {
    let x = Var { id: Id::Local(0), name: "x".to_string() };
    assert_eq!(x.to_string(), "x#0");
    let cell = data("box-c", vec![("in", Value::Var(Var { id: Id::Local(3), name: "x".to_string() })), ("n", data("zero-c", vec![]))]);
    assert_eq!(cell.to_string(), "box-c { in = x#3, n = zero-c {} }");
    let disj = Value::Disj(Disj { name: "nat-t".to_string(), name_vec: vec!["zero-t".to_string(), "succ-t".to_string()], body: Dic::new() });
    assert_eq!(disj.to_string(), "nat-t (zero-t, succ-t) {}");
    let tv = TypedVar { id: Id::Local(12), name: "n".to_string(), ty: Box::new(Value::TypeOfType) };
    assert_eq!(tv.to_string(), "n#12 : type");
    let id = Id::Uuid(0xabcdef0123456789abcdef0123456789);
    assert_eq!(id.to_string(), "abc");
    let n: u128 = 0x0123_4567_89ab_cdef_0123_4567_89ab_cdef;
    assert_eq!(Id::Uuid(n).to_string(), uuid::Uuid::from_u128(n).hyphenated().to_string()[..3].to_string());
    assert_eq!(Subst::new().to_string(), "$raw-subst-c {}");
    let s = Subst::new().bind_var(Var { id: Id::Local(1), name: "y".to_string() }, data("one-c", vec![]));
    assert_eq!(s.to_string(), "$raw-subst-c { y#1 = one-c {}\n }");
}

#[test]
fn names_change_kind() {
    assert_eq!(name_to_prop_name("nat-c"), "nat-t");
    assert_eq!(name_to_cons_name("nat-t"), "nat-c");
    assert_eq!(name_to_prop_name("x\u{e9}"), "x-t");
}

#[test]
fn open_typed_variables_are_listed() {
    let conj = Value::Conj(Conj { name: "zero-t".to_string(), body: Dic::new() });
    let tv = TypedVar { id: Id::Local(0), name: "p".to_string(), ty: Box::new(clone(&conj)) };
    let tv2 = TypedVar { id: Id::Local(1), name: "q".to_string(), ty: Box::new(Value::TypeOfType) };
    let mut body = Dic::new();
    body.ins("p", Some(Value::TypedVar(TypedVar { id: tv.id, name: tv.name.clone(), ty: Box::new(clone(&conj)) })));
    body.ins("q", Some(Value::TypedVar(tv2)));
    body.ins("r", Some(data("zero-c", vec![])));
    let r = value_dic_to_tv_vec(&Subst::new(), &body);
    assert_eq!(r, vec![tv]);
}

#[test]
fn reports_read_back_variables() {
    let x = Var { id: Id::Local(7), name: "x".to_string() };
    let y = Var { id: Id::Local(8), name: "y".to_string() };
    let s = Subst::new().bind_var(Var { id: x.id, name: x.name.clone() }, data("one-c", vec![]));
    assert_eq!(report_subst(&vec![x, y], &s), "$subst-c { x = one-c {}\ny = y#0\n }");
    assert_eq!(report_subst(&vec![], &s), "$subst-c {}");
}
