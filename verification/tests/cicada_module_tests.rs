use cicada::cicada::Obj;
use cicada::error_report::ErrorInCtx;
use cicada::cicada_module::{ExeAction, Module, SearchKind};
use cicada::mexp_syntax::SyntaxTable;
use cicada::cicada_value::{Dic, Subst, Value, Var};

const NAT_EXAMPLE: &str = r#"
nat-t = disj (
    zero-t
    succ-t
) {}

zero-t = conj {}

succ-t = conj {
    prev : nat-t
}

nat-add-t = disj (
    zero-add-t
    succ-add-t
) {
    a : nat-t
    b : nat-t
    c : nat-t
}

zero-add-t = conj {
    a : nat-t
    b : nat-t
    c : nat-t
    a = zero-c
    c = b
}

succ-add-t = conj {
    a : nat-t
    b : nat-t
    c : nat-t
    a = succ-c (:a)
    c = succ-c (:c)
    prev : nat-add-t (:a b :c)
}

assert! {
    nat-add-t (zero-c zero-c zero-c)
}

assert! {
    nat-add-t (zero-c succ-c (zero-c) succ-c (zero-c))
}

assert! {
    nat-add-t (succ-c (zero-c) zero-c succ-c (zero-c))
}
"#;

#[test]
fn test_module_get_prop() {
    let mut module = Module::new();
    let input = NAT_EXAMPLE;
    match module.run(input) {
        Ok(_obj_dic) => {},
        Err(error) => {
            println!("{:?}", error);
        },
    }
    let names: Vec<String> = module.obj_dic.entries.iter().map(|e| e.0.clone()).collect();
    for name in names {
        if name.ends_with("-t") {
            match module.get_prop(&name) {
                Ok((_prop, _subst)) => {},
                Err(error) => {
                    println!("- fail on name = {}", name);
                    println!("{:?}", error);
                    panic!("test_module_get_prop");
                },
            }
        }
    }
}

#[test]
fn test_module_output() {
    let mut module = Module::new();
    let input = NAT_EXAMPLE;
    match module.run(input) {
        Ok(_obj_dic) => {
            println!("{}", module.report());
        },
        Err(error) => {
            println!("{:?}", error);
        },
    }
}

#[test]
fn nat_example_runs_and_its_assertions_hold() {
    let mut module = Module::new();
    let obj_dic = module.run(NAT_EXAMPLE).unwrap();
    assert_eq!(obj_dic.len(), 6);
    assert_eq!(module.obj_dic.len(), 6);
}

#[test]
fn failing_assertion_is_an_error() {
    let mut module = Module::new();
    let input = format!("{}\nassert! {{ nat-add-t (zero-c zero-c succ-c (zero-c)) }}\n", NAT_EXAMPLE);
    let error = module.run(&input).unwrap_err();
    assert!(format!("{:?}", error).contains("assert! fail"));
}

#[test]
fn assert_not_holds_where_there_is_no_proof() {
    let mut module = Module::new();
    let input = format!("{}\nassert-not! {{ nat-add-t (zero-c zero-c succ-c (zero-c)) }}\n", NAT_EXAMPLE);
    assert!(module.run(&input).is_ok());
}

#[test]
fn search_and_query_define_their_results() {
    let mut module = Module::new();
    let input = format!(
        "{}\nfound = search! (1) {{ nat-add-t (zero-c zero-c zero-c) }}\nsums = query! (1) {{ nat-add-t (:x :y succ-c (zero-c)) }}\n",
        NAT_EXAMPLE
    );
    let obj_dic = module.run(&input).unwrap();
    match obj_dic.get("found") {
        Some(Obj::SearchRes(res)) => assert_eq!(res.qed_vec.len(), 1),
        _ => panic!("no search result"),
    }
    match obj_dic.get("sums") {
        Some(Obj::QueryRes(res)) => {
            assert_eq!(res.var_vec.len(), 2);
            assert_eq!(res.subst_vec.len(), 1);
        },
        _ => panic!("no query result"),
    }
}

#[test]
fn defining_a_name_twice_is_an_error() {
    let mut module = Module::new();
    let obj = Obj::Conj(Vec::new());
    assert!(module.define("zero-t", &obj).is_ok());
    let error = module.define("zero-t", &obj).unwrap_err();
    assert_eq!(error, ErrorInCtx::new().head("Module::define").line("name already defined").line("name = zero-t"));
    assert_eq!(module.obj_dic.len(), 1);
}

#[test]
fn exe_def_asks_for_imports_and_searches() {
    let mut module = Module::new();
    let table = SyntaxTable::default();
    let mexps = table.parse("lib = import! (\"lib.cic\")\nsearch! (1) { zero-t {} }").unwrap();
    let defs = cicada::cicada::mexp_vec_to_def_vec(&mexps).unwrap();
    match module.exe_def(0, &defs[0]) {
        ExeAction::Load { name, url } => {
            assert_eq!(name, "lib");
            assert_eq!(url, "lib.cic");
        },
        _ => panic!("not a load"),
    }
    module.define("zero-t", &Obj::Conj(Vec::new())).unwrap();
    match module.exe_def(7, &defs[1]) {
        ExeAction::Search { kind, name, counter, .. } => {
            assert_eq!(kind, SearchKind::Search);
            assert_eq!(name, "#7");
            assert_eq!(counter, 1);
        },
        _ => panic!("not a search"),
    }
}

#[test]
fn report_prints_what_searches_found() {
    let mut module = Module::new();
    let input = format!("{}\nfound = search! (1) {{ nat-add-t (zero-c zero-c zero-c) }}\n", NAT_EXAMPLE);
    module.run(&input).unwrap();
    let report = module.report();
    assert!(report.starts_with("found = $search-res-c {\n"), "{}", report);
    assert!(report.ends_with("}\n\n"), "{}", report);
    let text = module.to_string();
    assert!(text.starts_with("$module-c { nat-t = disj (zero-t succ-t) {}\n"), "{}", text);
}

#[test]
fn empty_search_result_prints_empty_block() {
    let mut module = Module::new();
    let input = "found = search! (1) { nope-t {} }\n";
    module.run(input).unwrap();
    assert_eq!(module.report(), "found = $search-res-c {}\n\n");
}

fn a_t_prop() -> cicada::cicada::Term {
    cicada::cicada::Term::Prop(
        cicada::error_report::Span { lo: 0, hi: 0 },
        "a-t".to_string(),
        cicada::cicada::Arg::Rec(Vec::new()),
    )
}

#[test]
fn assert_not_fails_on_a_proposition_that_has_a_proof() {
    let mut m = Module::new();
    let def = cicada::cicada::Def::Obj("a-t".to_string(), Obj::Conj(Vec::new()));
    assert!(m.exe_def_within(0, &def, &mut Vec::new(), &mut usize::MAX.clone()).is_ok());
    let mut budget = usize::MAX;
    let error = m.exe_def_within(1, &cicada::cicada::Def::AssertNot(a_t_prop()), &mut Vec::new(), &mut budget).unwrap_err();
    assert_eq!(error, ErrorInCtx::new().head("assert-not! fail").span(cicada::error_report::Span { lo: 0, hi: 0 }));
    assert_eq!(m.obj_dic.len(), 1);
    let mut budget = usize::MAX;
    assert_eq!(m.exe_def_within(1, &cicada::cicada::Def::Assert(a_t_prop()), &mut Vec::new(), &mut budget), Ok(None));
}

#[test]
fn searching_under_a_taken_name_is_the_redefinition_error() {
    let mut m = Module::new();
    m.define("a-t", &Obj::Conj(Vec::new())).unwrap();
    m.define("s", &Obj::Conj(Vec::new())).unwrap();
    match m.exe_def(2, &cicada::cicada::Def::Search("s".to_string(), 3, a_t_prop())) {
        ExeAction::Done(r) => {
            let error = r.unwrap_err();
            assert_eq!(error, ErrorInCtx::new().head("Module::define").line("name already defined").line("name = s"));
        },
        _ => panic!("not done"),
    }
    match m.exe_def(2, &cicada::cicada::Def::Query("s".to_string(), 3, a_t_prop())) {
        ExeAction::Done(r) => assert!(r.is_err()),
        _ => panic!("not done"),
    }
    assert_eq!(m.obj_dic.len(), 2);
}

#[test]
fn a_search_whose_proposition_has_no_value_finds_nothing() {
    let mut m = Module::new();
    let term = cicada::cicada::Term::Prop(
        cicada::error_report::Span { lo: 0, hi: 0 },
        "b-t".to_string(),
        cicada::cicada::Arg::Rec(Vec::new()),
    );
    match m.exe_def(0, &cicada::cicada::Def::Search("s".to_string(), 3, term)) {
        ExeAction::Done(Ok(Some((name, Obj::SearchRes(res))))) => {
            assert_eq!(name, "s");
            assert_eq!(res.qed_vec.len(), 0);
        },
        _ => panic!("not an empty result"),
    }
    match m.obj_dic.get("s") {
        Some(Obj::SearchRes(res)) => assert_eq!(res.qed_vec.len(), 0),
        _ => panic!("not defined"),
    }
}

#[test]
fn a_step_of_a_deduction_fills_its_first_typed_variable() {
    let mut module = Module::new();
    module.run(NAT_EXAMPLE).unwrap();
    let (value, subst) = module.get_prop("nat-t").unwrap();
    let mut proving = module.proving(&value, &subst);
    match proving.step(&module).unwrap() {
        Some(cicada::cicada_module::DeductionStep::More(ds)) => assert_eq!(ds.len(), 2),
        _ => panic!("no deductions"),
    }
    assert_eq!(proving.deduction_queue.len(), 2);
    let qeds = proving.take_qed(&module, 3).unwrap();
    assert_eq!(qeds.len(), 3);
}

#[test]
fn cover_dic_and_unify_dic_work_field_by_field() {
    let s = Subst::new();
    let x = Var::new("x");
    let mut large: Dic<Value> = Dic::new();
    large.ins("a", Some(Value::TypeOfType));
    large.ins("b", Some(Value::Var(x)));
    let mut small: Dic<Value> = Dic::new();
    small.ins("b", Some(Value::TypeOfType));
    let covered = s.cover_dic(&large, &small).unwrap();
    assert_eq!(covered.len(), 1);
    let mut other: Dic<Value> = Dic::new();
    other.ins("c", Some(Value::TypeOfType));
    assert!(s.cover_dic(&large, &other).is_none());
    assert!(s.unify_dic(&large, &other).is_none());
    let unified = s.unify_dic(&large, &large).unwrap();
    assert_eq!(unified.len(), 0);
}

#[test]
fn fulfilling_a_typed_variable_of_a_disjunction_tries_each_branch() {
    let mut module = Module::new();
    module.run(NAT_EXAMPLE).unwrap();
    let (value, subst) = module.get_prop("nat-t").unwrap();
    let tv = cicada::cicada_value::new_tv("n", &value);
    let ways = tv.fulfill(&module, &subst).unwrap();
    assert_eq!(ways.len(), 2);
    assert_eq!(ways[0].0.len(), 1);
    assert_eq!(ways[0].0[0].name, "n");
}

#[test]
fn step_many_takes_its_steps_then_one_more() {
    let mut module = Module::new();
    module.run(NAT_EXAMPLE).unwrap();
    let (value, subst) = module.get_prop("nat-t").unwrap();
    let mut proving = module.proving(&value, &subst);
    match proving.step_many(&module, 1).unwrap() {
        Some(cicada::cicada_module::DeductionStep::More(ds)) => assert_eq!(ds.len(), 1),
        _ => panic!("not the step after the first"),
    }
}
