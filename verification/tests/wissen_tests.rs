use cicada::cicada_value::Id;
use cicada::mexp_syntax::SyntaxTable;
use cicada::wissen::{Wissen, WissenOutput, 
    converge_deduction_tree, copy_term, mexp_to_term, mexp_vec_to_statement_vec, record_deduction_step, DeductionTree, Den,
    Prop, Statement, Subst, Term, Var,
};

fn clone(t: &Term) -> Term {
    copy_term(t)
}

#[test]
fn wissen_test_unify() {
    let u = Term::var("u");
    let v = Term::var("v");
    let subst = Subst::new()
        .unify(
            &Term::cons("pair-c", vec![clone(&u), clone(&v)]),
            &Term::cons("pair-c", vec![clone(&v), Term::cons("hi-c", vec![])]),
        )
        .unwrap();
    assert_eq!(subst.len(), 2);
}

const LIST_APPEND_EXAMPLE: &str = "
list-append-t = disj (
    zero-append-t
    succ-append-t
)

zero-append-t = conj (null-c succ succ) {}

succ-append-t = conj (
    cons-c (car cdr)
    succ
    cons-c (car o-cdr)
) {
    list-append-t (cdr succ o-cdr)
}

query (10) { list-append-t (x y z) }
";

#[test]
fn list_append_reads_into_statements() {
    let table = SyntaxTable::default();
    let mexp_vec = table.parse(LIST_APPEND_EXAMPLE).unwrap();
    let statements = mexp_vec_to_statement_vec(&mexp_vec).unwrap();
    assert_eq!(statements.len(), 4);
    match &statements[0] {
        Statement::Den(name, den) => {
            assert_eq!(name, "list-append-t");
            assert_eq!(den.to_string(), "disj (zero-append-t succ-append-t)");
        }
        _ => panic!(),
    }
    match &statements[1] {
        Statement::Den(_, den) => assert_eq!(den.to_string(), "conj (null-c succ succ) {}"),
        _ => panic!(),
    }
    match &statements[2] {
        Statement::Den(_, den) => assert_eq!(
            den.to_string(),
            "conj (cons-c (car cdr) succ cons-c (car o-cdr)) { list-append-t (cdr succ o-cdr) }"
        ),
        _ => panic!(),
    }
    match &statements[3] {
        Statement::Query(10, props) => assert_eq!(props[0].to_string(), "list-append-t (x y z)"),
        _ => panic!(),
    }
}

#[test]
fn terms_read_and_errors() {
    let table = SyntaxTable::default();
    let m = table.parse("nat-t").unwrap();
    let text = format!("{:?}", mexp_to_term(&m[0]).unwrap_err());
    assert!(text.contains("but found prop name which end with `-t`"), "{}", text);
    let m = table.parse("x").unwrap();
    assert_eq!(mexp_to_term(&m[0]).unwrap(), Term::var_no_id("x"));
    let m = table.parse("query (x) { a-t (b) }").unwrap();
    let text = format!("{:?}", mexp_vec_to_statement_vec(&m).unwrap_err());
    assert!(text.contains("fail to parse usize num in `prove`") || text.contains("syntex error"), "{}", text);
}

#[test]
fn den_apply_unifies_patterns() {
    let den = Den::Conj(vec![Term::cons("you-c", vec![])], vec![]);
    let x = Term::var("u");
    let (matrix, subst) = den.apply(&vec![clone(&x)], Subst::new()).unwrap();
    assert_eq!(matrix.len(), 1);
    assert!(matrix[0].is_empty());
    assert_eq!(subst.len(), 1);
    assert_eq!(subst.walk(&x), Term::cons("you-c", vec![]));
    let den = Den::Conj(vec![Term::cons("you-c", vec![])], vec![]);
    assert!(den.apply(&vec![Term::cons("me-c", vec![])], Subst::new()).is_none());
    let den = Den::Conj(vec![], vec![]);
    assert!(den.apply(&vec![clone(&x)], Subst::new()).is_none());
    let den = Den::Disj(vec!["a-t".to_string(), "b-t".to_string()]);
    let (matrix, subst) = den.apply(&vec![clone(&x)], Subst::new()).unwrap();
    assert_eq!(matrix.len(), 2);
    assert_eq!(matrix[1][0].name, "b-t");
    assert!(subst.null_p());
}

#[test]
fn deduction_trees_fold_when_full() {
    let mut stack = vec![DeductionTree { conj_name: "root".to_string(), arity: 1, body: vec![] }];
    let prop = Prop { name: "love-t".to_string(), args: vec![] };
    record_deduction_step(&mut stack, &prop, &Den::Conj(vec![], vec![]));
    assert_eq!(stack.len(), 1);
    assert!(stack[0].full_p());
    assert_eq!(stack[0].to_string(), "root { love-t {  } }");
    let mut stack = vec![
        DeductionTree { conj_name: "root".to_string(), arity: 2, body: vec![] },
        DeductionTree { conj_name: "a-t".to_string(), arity: 0, body: vec![] },
    ];
    converge_deduction_tree(&mut stack);
    assert_eq!(stack.len(), 1);
    assert_eq!(stack[0].body.len(), 1);
    assert!(!stack[0].full_p());
}

#[test]
fn substitutions_print_and_read_back() {
    let x = Var { name: "x".to_string(), id: Some(Id::Local(0)) };
    let y = Term::Var(Var { name: "y".to_string(), id: None });
    let s = Subst::new().extend(Var { name: x.name.clone(), id: x.id }, Term::cons("pair-c", vec![clone(&y), Term::cons("hi-c", vec![])]));
    assert_eq!(s.to_string(), "x#0 = pair-c (y hi-c)\n");
    assert_eq!(s.reify_var(&x).to_string(), "pair-c (y#0 hi-c)");
    assert_eq!(Id::Uuid(0x0123456789abcdef0123456789abcdef).to_wissen_string(), "01234567-89ab-cdef-0123-456789abcdef");
    assert!(s.cons_p());
    assert!(s.var_occur_p(&Var { name: "y".to_string(), id: None }, &Term::Var(Var { name: x.name.clone(), id: x.id })));
}

#[test]
fn duplicate_renames_each_variable_once() {
    let x = Term::var_no_id("x");
    let t = Term::cons("pair-c", vec![clone(&x), Term::cons("box-c", vec![clone(&x), Term::var_no_id("y")])]);
    let mut map = Vec::new();
    let d = t.duplicate(&mut map);
    assert_eq!(map.len(), 2);
    match &d {
        Term::Cons(c) => {
            let a = &c.body[0];
            match &c.body[1] {
                Term::Cons(inner) => assert_eq!(&inner.body[0], a),
                _ => panic!(),
            }
            match a {
                Term::Var(v) => {
                    assert_eq!(v.name, "x");
                    assert!(matches!(v.id, Some(Id::Uuid(_))));
                }
                _ => panic!(),
            }
        }
        _ => panic!(),
    }
    // a second duplicate with the same map reuses the names
    let d2 = x.duplicate(&mut map);
    assert_eq!(map.len(), 2);
    assert_eq!(d2.to_string(), map[0].1.to_string());
}

#[test]
fn wissen_holds_denotations_by_name() {
    let mut w = cicada::wissen::Wissen::new();
    w.den("love-t", &Den::Conj(vec![Term::cons("you-c", vec![])], vec![]));
    w.den("nat-t", &Den::Disj(vec!["zero-t".to_string()]));
    assert_eq!(w.to_string(), "<wissen>\nlove-t = conj (you-c) {}\nnat-t = disj (zero-t)\n</wissen>\n");
    assert_eq!(w.find_den("nat-t"), Some(Den::Disj(vec!["zero-t".to_string()])));
    assert!(w.find_den("none-t").is_none());
    let fresh = w.find_den("love-t").unwrap();
    assert_eq!(fresh, Den::Conj(vec![Term::cons("you-c", vec![])], vec![]));
}

#[test]
fn unify_makes_both_terms_come_to_the_same() {
    let x = Term::var("x");
    let y = Term::var("y");
    let zero = Term::cons("zero-c", vec![]);
    let u = Term::cons("pair-c", vec![clone(&x), Term::cons("succ-c", vec![clone(&y)])]);
    let v = Term::cons("pair-c", vec![clone(&zero), Term::cons("succ-c", vec![clone(&x)])]);
    let subst = Subst::new().unify(&u, &v).unwrap();
    let expected = Term::cons("pair-c", vec![clone(&zero), Term::cons("succ-c", vec![clone(&zero)])]);
    assert_eq!(subst.deep_walk(&u), expected);
    assert_eq!(subst.deep_walk(&v), expected);
    assert_eq!(subst.walk(&y), zero);
}

#[test]
fn lib_test_love() {
    let mut wissen = Wissen::new();
    let den = Den::Conj(vec![Term::cons("you-c", vec![])], vec![]);
    wissen.den("love-t", &den);
    let prop = Prop { name: "love-t".to_string(), args: vec![Term::var("u")] };
    let mut proving = wissen.proving(&vec![prop]);
    assert!(proving.next_qed(&wissen).unwrap().is_some());
    assert!(proving.next_qed(&wissen).unwrap().is_none());
}

#[test]
fn lib_test_list_append() {
    let mut wissen = Wissen::new();
    let list_append_t = Den::Disj(vec!["zero-append-t".to_string(), "succ-append-t".to_string()]);
    wissen.den("list-append-t", &list_append_t);
    let succ = Term::var("succ");
    let zero_append_t = Den::Conj(vec![Term::cons("null-c", vec![]), clone(&succ), succ], vec![]);
    wissen.den("zero-append-t", &zero_append_t);
    let car = Term::var("car");
    let cdr = Term::var("cdr");
    let succ = Term::var("succ");
    let o_cdr = Term::var("o-cdr");
    let succ_append_t = Den::Conj(
        vec![
            Term::cons("cons-c", vec![clone(&car), clone(&cdr)]),
            clone(&succ),
            Term::cons("cons-c", vec![car, clone(&o_cdr)]),
        ],
        vec![Prop { name: "list-append-t".to_string(), args: vec![cdr, succ, o_cdr] }],
    );
    wissen.den("succ-append-t", &succ_append_t);
    let prop = Prop { name: "list-append-t".to_string(), args: vec![Term::var("x"), Term::var("y"), Term::var("z")] };
    let mut proving = wissen.proving(&vec![prop]);
    let subst_vec = proving.take_subst(&wissen, 100).unwrap();
    assert_eq!(subst_vec.len(), 100);
    for subst in subst_vec {
        assert!(subst.cons_p());
    }
}

#[test]
fn lib_test_mexp() {
    let mut wissen = Wissen::new();
    let input = LIST_APPEND_EXAMPLE;
    match wissen.wis(input) {
        Ok(mut output_vec) => {
            assert_eq!(output_vec.len(), 1);
            if let WissenOutput::Query { subst_vec, .. } = output_vec.pop().unwrap() {
                assert_eq!(subst_vec.len(), 10);
                for subst in subst_vec {
                    assert!(subst.cons_p());
                }
            } else {
                panic!()
            }
        },
        Err(error) => {
            println!("{:?}", error);
        },
    }
}

#[test]
fn prove_statements_give_deduction_trees() {
    let mut wissen = Wissen::new();
    let input = format!("{}\nprove (2) {{ list-append-t (x y z) }}\n", LIST_APPEND_EXAMPLE);
    let output_vec = wissen.wis(&input).unwrap();
    assert_eq!(output_vec.len(), 2);
    match &output_vec[1] {
        WissenOutput::Prove { qed_vec, prop_vec } => {
            assert_eq!(prop_vec.len(), 1);
            assert_eq!(qed_vec.len(), 2);
            assert_eq!(qed_vec[0].deduction_tree.to_string(), "root { zero-append-t {  } }");
        },
        _ => panic!("not a prove output"),
    }
}

#[test]
fn query_output_prints_each_answer_of_the_variables() {
    let mut wissen = Wissen::new();
    let den = Den::Conj(vec![Term::cons("you-c", vec![])], vec![]);
    wissen.den("love-t", &den);
    let output_vec = wissen.wis("query (1) { love-t (u) }").unwrap();
    assert_eq!(output_vec.len(), 1);
    let text = output_vec[0].to_string();
    assert!(text.starts_with("<query-output>\n\n<subst>\nu = you-c\n</subst>\n\n"), "{}", text);
    assert!(text.ends_with("</query-output>"));
}
