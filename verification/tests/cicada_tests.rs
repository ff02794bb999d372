use cicada::cicada::{
    collect_var_name_vec_from_term, cons_name_symbol_p, field_name_symbol_p, mexp_to_def, mexp_to_nameless_search_def, mexp_to_term,
    mexp_vec_to_def_vec, parse_usize,
    prop_name_symbol_p, type_of_type_symbol_p, var_symbol_p, Arg, Binding, Def, Obj, Term,
};
use cicada::mexp_syntax::SyntaxTable;

const NAT_EXAMPLE: &str = r#"
nat-t = disj (
    zero-t
    succ-t
) {}

zero-t = conj {}

succ-t = conj {
    prev : nat-t
}

nat-add-t = disj (
    zero-add-t
    succ-add-t
) {
    a : nat-t
    b : nat-t
    c : nat-t
}

zero-add-t = conj {
    a : nat-t
    b : nat-t
    c : nat-t
    a = zero-c
    c = b
}

succ-add-t = conj {
    a : nat-t
    b : nat-t
    c : nat-t
    a = succ-c (:a)
    c = succ-c (:c)
    prev : nat-add-t (:a b :c)
}

assert! {
    nat-add-t (zero-c zero-c zero-c)
}

assert! {
    nat-add-t (zero-c succ-c (zero-c) succ-c (zero-c))
}

assert! {
    nat-add-t (succ-c (zero-c) zero-c succ-c (zero-c))
}
"#;

fn defs_of(input: &str) -> Result<Vec<Def>, cicada::error_report::ErrorInCtx> {
    let table = SyntaxTable::default();
    let mexp_vec = table.parse(input).unwrap();
    mexp_vec_to_def_vec(&mexp_vec)
}

fn term_names(term: &Term) -> String {
    match term {
        Term::Var(_, name) => name.clone(),
        Term::Cons(_, name, arg) | Term::Prop(_, name, arg) => {
            let inner = match arg {
                Arg::Vec(ts) => ts.iter().map(term_names).collect::<Vec<_>>().join(" "),
                Arg::Rec(bs) => bs
                    .iter()
                    .map(|b| match b {
                        Binding::EqualTo(n, t) => format!("{} = {}", n, term_names(t)),
                        Binding::Inhabit(n, t) => format!("{} : {}", n, term_names(t)),
                    })
                    .collect::<Vec<_>>()
                    .join(", "),
            };
            format!("{}({})", name, inner)
        }
        Term::FieldRef(_, name) => name.clone(),
        Term::TypeOfType(_) => "type".to_string(),
    }
}

#[test]
fn symbol_kinds() {
    assert!(var_symbol_p(":a"));
    assert!(!var_symbol_p("a"));
    assert!(cons_name_symbol_p("zero-c"));
    assert!(!cons_name_symbol_p(":zero-c"));
    assert!(prop_name_symbol_p("nat-t"));
    assert!(!prop_name_symbol_p("nat-c"));
    assert!(type_of_type_symbol_p("type"));
    assert!(field_name_symbol_p("prev"));
    assert!(!field_name_symbol_p("type"));
    assert!(!field_name_symbol_p("nat-t"));
}

#[test]
fn usize_text_as_str_parse_reads_it() {
    for text in ["0", "7", "+12", "0042", "", "+", "-1", "1a", " 1", "18446744073709551615", "18446744073709551616"] {
        assert_eq!(parse_usize(text), text.parse::<usize>().ok(), "text = {:?}", text);
    }
}

#[test]
fn nat_example_reads_into_definitions() {
    let defs = defs_of(NAT_EXAMPLE).unwrap();
    assert_eq!(defs.len(), 9);
    match &defs[0] {
        Def::Obj(name, Obj::Disj(names, bindings)) => {
            assert_eq!(name, "nat-t");
            assert_eq!(names, &vec!["zero-t".to_string(), "succ-t".to_string()]);
            assert!(bindings.is_empty());
        }
        other => panic!("unexpected {:?}", other),
    }
    match &defs[1] {
        Def::Obj(name, Obj::Conj(bindings)) => {
            assert_eq!(name, "zero-t");
            assert!(bindings.is_empty());
        }
        other => panic!("unexpected {:?}", other),
    }
    match &defs[5] {
        Def::Obj(name, Obj::Conj(bindings)) => {
            assert_eq!(name, "succ-add-t");
            assert_eq!(bindings.len(), 6);
            match &bindings[5] {
                Binding::Inhabit(field, term) => {
                    assert_eq!(field, "prev");
                    assert_eq!(term_names(term), "nat-add-t(:a b :c)");
                }
                other => panic!("unexpected {:?}", other),
            }
            match &bindings[3] {
                Binding::EqualTo(field, term) => {
                    assert_eq!(field, "a");
                    assert_eq!(term_names(term), "succ-c(:a)");
                }
                other => panic!("unexpected {:?}", other),
            }
        }
        other => panic!("unexpected {:?}", other),
    }
    match &defs[7] {
        Def::Assert(term) => {
            assert_eq!(term_names(term), "nat-add-t(zero-c() succ-c(zero-c()) succ-c(zero-c()))");
        }
        other => panic!("unexpected {:?}", other),
    }
}

#[test]
fn counted_definitions_read() {
    let defs = defs_of("s = search! (3) { nat-t }\nsearch! (2) { nat-t }\nq = query! (1) { nat-add-t (:x :y zero-c) }\nquery! (4) { nat-t }\nstep! (5) { nat-t }\nassert-not! { zero-t }\nnote { anything here }\nlib = import! (\"lib.cic\")").unwrap();
    assert_eq!(defs.len(), 8);
    assert!(matches!(&defs[0], Def::Search(name, 3, Term::Prop(_, p, _)) if name == "s" && p == "nat-t"));
    assert!(matches!(&defs[1], Def::NamelessSearch(2, Term::Prop(_, p, _)) if p == "nat-t"));
    assert!(matches!(&defs[2], Def::Query(name, 1, _) if name == "q"));
    match &defs[2] {
        Def::Query(_, _, term) => assert_eq!(term_names(term), "nat-add-t(:x :y zero-c())"),
        _ => unreachable!(),
    }
    assert!(matches!(&defs[3], Def::NamelessQuery(4, _)));
    assert!(matches!(&defs[4], Def::Step(5, _)));
    assert!(matches!(&defs[5], Def::AssertNot(Term::Prop(_, p, _)) if p == "zero-t"));
    assert_eq!(defs[6], Def::Note);
    assert_eq!(defs[7], Def::Import("lib".to_string(), "lib.cic".to_string()));
}

#[test]
fn counted_definitions_report_their_errors() {
    let table = SyntaxTable::default();
    let mexp_vec = table.parse("search! (x) { nat-t }").unwrap();
    let text = format!("{:?}", mexp_to_nameless_search_def(&mexp_vec[0]).unwrap_err());
    assert!(text.contains("fail to parse usize num in `search!`"), "{}", text);
    assert!(text.contains("symbol = x"), "{}", text);
    let mexp_vec = table.parse("search! (1 2) { nat-t }").unwrap();
    let text = format!("{:?}", mexp_to_nameless_search_def(&mexp_vec[0]).unwrap_err());
    assert!(text.contains("fail to parse `search!`'s first arg"), "{}", text);
    let mexp_vec = table.parse("search! (1) { nat-t zero-t }").unwrap();
    let text = format!("{:?}", mexp_to_nameless_search_def(&mexp_vec[0]).unwrap_err());
    assert!(text.contains("fail to parse `search!`'s body arg"), "{}", text);
    // a definition that reads as no kind reports the error of the last kind tried
    let text = format!("{:?}", mexp_to_def(&table.parse("search! (x) { nat-t }").unwrap()[0]).unwrap_err());
    assert!(text.contains("syntex error"), "{}", text);
    assert!(!text.contains("usize"), "{}", text);
}

#[test]
fn terms_read_in_order_of_kinds() {
    let table = SyntaxTable::default();
    let mexp_vec = table.parse(":x zero-c nat-t (:a) prev type").unwrap();
    let names: Vec<String> = mexp_vec.iter().map(|m| term_names(&mexp_to_term(m).unwrap())).collect();
    assert_eq!(names, vec![":x", "zero-c()", "nat-t(:a)", "prev", "type"]);
    assert!(matches!(mexp_to_term(&mexp_vec[0]).unwrap(), Term::Var(_, _)));
    assert!(matches!(mexp_to_term(&mexp_vec[1]).unwrap(), Term::Cons(_, _, Arg::Rec(ref v)) if v.is_empty()));
    assert!(matches!(mexp_to_term(&mexp_vec[3]).unwrap(), Term::FieldRef(_, _)));
    assert!(matches!(mexp_to_term(&mexp_vec[4]).unwrap(), Term::TypeOfType(_)));
}

#[test]
fn obj_definition_needs_a_prop_name() {
    let table = SyntaxTable::default();
    let mexp_vec = table.parse("nat-c = conj {}").unwrap();
    assert!(mexp_to_def(&mexp_vec[0]).is_err());
    let mexp_vec = table.parse("nat-t = conj { a = b = c }").unwrap();
    assert!(mexp_to_def(&mexp_vec[0]).is_err());
}

#[test]
fn syntax_prints_back() {
    let defs = defs_of("succ-add-t = conj {\n a : nat-t\n a = succ-c (:a)\n prev : nat-add-t (:a b :c)\n}\nnat-t = disj (zero-t succ-t) {}").unwrap();
    match &defs[0] {
        Def::Obj(_, obj) => assert_eq!(obj.to_string(), "conj { a : nat-t, a = succ-c (:a), prev : nat-add-t (:a b :c) }"),
        _ => unreachable!(),
    }
    match &defs[1] {
        Def::Obj(_, obj) => assert_eq!(obj.to_string(), "disj (zero-t succ-t) {}"),
        _ => unreachable!(),
    }
    let table = SyntaxTable::default();
    let m = table.parse("nat-t { a = zero-c }").unwrap();
    let t = mexp_to_term(&m[0]).unwrap();
    assert_eq!(t.to_string(), "nat-t { a = zero-c }");
    match &t {
        Term::Prop(_, _, arg) => assert_eq!(arg.to_string(), "{ a = zero-c }"),
        _ => unreachable!(),
    }
}

#[test]
fn variable_names_collect_once_in_order() {
    let table = SyntaxTable::default();
    let m = table.parse("nat-add-t (:a succ-c (:b) :a) { x = :c, y : :b }").unwrap();
    let t = mexp_to_term(&m[0]);
    // a proposition applied twice is not one term; read the first application alone
    let m = table.parse("nat-add-t (:a succ-c (:b) :a)").unwrap();
    let t2 = mexp_to_term(&m[0]).unwrap();
    let mut names = vec![":z".to_string(), ":b".to_string()];
    collect_var_name_vec_from_term(&mut names, &t2);
    assert_eq!(names, vec![":z", ":b", ":a"]);
    let _ = t;
}
