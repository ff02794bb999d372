//! The cicada runtime: a module of named objects, the values that terms
//! of propositions make, and the search for proofs of them, one step of a
//! deduction at a time.

use vstd::prelude::*;
use crate::error_report::{Span, ErrorInCtx, ErrorInCtxView, ErrorMsgView, strings_view};
use crate::cicada::{defs_view, Obj, ObjView, obj_view, obj_entries_view, obj_text, module_lines, Term, TermView, Arg, Binding, copy_bindings, Def, DefView, prop_name_symbol, prop_name_symbol_p, mexp_vec_to_def_vec, defs_of, joined, push_joined,
    collect_var_name_vec_from_term, collect_term};
use crate::cicada_value::{Dic, dic_find, dic_get, lemma_dic_find, Subst, BindView, Value, ValueView, Var, VarView,
    TypedVar, TvView, entries_view, Id, Disj, Conj, Data, names_view, copy_strings, copy_value, copy_dic,
    get_value, new_tv, copy_tv, walk_fuel, extends, lemma_extends_trans, lemma_unify_extends, lemma_extends_refl, opt_value_view, lemma_entries_view, copy_var, tv_view, value_text, tv_text, reify_fuel, format_mexp_block, cut_ok, cut_ok_p, renamed_kind, name_to_prop_name, name_to_cons_name, unify_fuel};
use crate::text::{string_from, push_str, push_decimal, decimal, str_eq, byte_len};
use crate::mexp_syntax::SyntaxTable;
use crate::mexp::mexps_view;
use crate::wissen::program_mexps;

verus! {

/// A proof found: the bindings it made and the typed variable it proved.
#[derive(Debug, PartialEq, Eq)]
pub struct Qed {
    pub subst: Subst,
    pub root: Value,
}

/// A deduction under way: its bindings, the typed variable it is to
/// prove, and the typed variables still to fill, first first.
#[derive(Debug, PartialEq, Eq)]
pub struct Deduction {
    pub subst: Subst,
    pub root: Value,
    pub tv_queue: Vec<TypedVar>,
}

/// What one step of a deduction gave: a proof, or the deductions that
/// carry it on.
#[derive(Debug, PartialEq, Eq)]
pub enum DeductionStep {
    Qed(Qed),
    More(Vec<Deduction>),
}

/// The proofs a search found.
#[derive(Debug, PartialEq, Eq)]
pub struct SearchRes {
    pub qed_vec: Vec<Qed>,
}

/// The bindings a query found, with the variables it asks for.
#[derive(Debug, PartialEq, Eq)]
pub struct QueryRes {
    pub var_vec: Vec<Var>,
    pub subst_vec: Vec<Subst>,
}

/// The last step of a run of steps and the deductions left after it.
#[derive(Debug, PartialEq, Eq)]
pub struct StepRes {
    pub step: Option<DeductionStep>,
    pub deduction_queue: Vec<Deduction>,
}

/// A module: its objects by name, in the order they were defined.
#[derive(Debug, PartialEq, Eq)]
pub struct Module {
    pub obj_dic: Dic<Obj>,
}

/// A search for proofs: the deductions under way, first first.
#[derive(Debug, PartialEq, Eq)]
pub struct Proving {
    pub deduction_queue: Vec<Deduction>,
}

/// What a proof is.
pub struct QedView {
    pub subst: Seq<BindView>,
    pub root: ValueView,
}

/// What a deduction is.
pub struct DeductionView {
    pub subst: Seq<BindView>,
    pub root: ValueView,
    pub tvs: Seq<TvView>,
}

/// What a step of a deduction gave.
pub enum StepView {
    Qed(QedView),
    More(Seq<DeductionView>),
}

/// The view of a proof.
pub open spec fn qed_view(q: Qed) -> QedView {
    QedView { subst: q.subst@, root: q.root@ }
}

/// The views of proofs.
pub open spec fn qeds_view(qs: Seq<Qed>) -> Seq<QedView> {
    qs.map_values(|q: Qed| qed_view(q))
}

/// The view of a deduction.
pub open spec fn deduction_view(d: Deduction) -> DeductionView {
    DeductionView { subst: d.subst@, root: d.root@, tvs: d.tv_queue@.map_values(|t: TypedVar| t@) }
}

/// The views of deductions.
pub open spec fn deductions_view(ds: Seq<Deduction>) -> Seq<DeductionView> {
    ds.map_values(|d: Deduction| deduction_view(d))
}

/// The view of a step.
pub open spec fn step_view(s: DeductionStep) -> StepView {
    match s {
        DeductionStep::Qed(q) => StepView::Qed(qed_view(q)),
        DeductionStep::More(ds) => StepView::More(deductions_view(ds@)),
    }
}

/// The view of an optional step.
pub open spec fn opt_step_view(s: Option<DeductionStep>) -> Option<StepView> {
    match s {
        Some(x) => Some(step_view(x)),
        None => None,
    }
}

impl View for Module {
    type V = Seq<(Seq<char>, Option<ObjView>)>;

    open spec fn view(&self) -> Seq<(Seq<char>, Option<ObjView>)> {
        obj_entries_view(self.obj_dic.entries@)
    }
}

impl View for Proving {
    type V = Seq<DeductionView>;

    open spec fn view(&self) -> Seq<DeductionView> {
        deductions_view(self.deduction_queue@)
    }
}

proof fn lemma_obj_entries_view(es: Seq<(String, Option<Obj>)>)
    ensures
        obj_entries_view(es).len() == es.len(),
        forall|i: int| 0 <= i < es.len() ==> #[trigger] obj_entries_view(es)[i].0 == es[i].0@,
        forall|i: int| 0 <= i < es.len() ==> (#[trigger] obj_entries_view(es)[i]).1 == match es[i].1 {
            Some(o) => Some(obj_view(o)),
            None => None::<ObjView>,
        },
    decreases es.len(),
{
    if es.len() > 0 {
        lemma_obj_entries_view(es.drop_last());
        assert forall|i: int| 0 <= i < es.len() - 1 implies es.drop_last()[i] == #[trigger] es[i] by {}
    }
}

/// Whether an object of the module is named `name`.
pub open spec fn defines(m: Seq<(Seq<char>, Option<ObjView>)>, name: Seq<char>) -> bool {
    exists|i: int| 0 <= i < m.len() && #[trigger] m[i].0 == name
}

/// The error of defining a name twice.
pub open spec fn redefine_error(name: Seq<char>) -> ErrorInCtxView {
    ErrorInCtxView {
        msg: ErrorMsgView { head: Some("Module::define"@), lines: seq!["name already defined"@, "name = "@ + name] },
        infos: Seq::empty(),
        notes: Seq::empty(),
        span: None,
    }
}

impl Module {
    /// A module with no objects.
    pub fn new() -> (m: Module)
        ensures
            m@ == Seq::<(Seq<char>, Option<ObjView>)>::empty(),
    {
        let m = Module { obj_dic: Dic::new() };
        proof {
            assert(m@ =~= Seq::<(Seq<char>, Option<ObjView>)>::empty());
        }
        m
    }

    /// Names `obj` by `name`, after the objects named before; an error
    /// where `name` is taken already.
    pub fn define(&mut self, name: &str, obj: &Obj) -> (r: Result<(), ErrorInCtx>)
        ensures
            defines(old(self)@, name@) <==> r is Err,
            r matches Err(e) ==> e@ == redefine_error(name@) && final(self)@ == old(self)@,
            r is Ok ==> final(self)@ == old(self)@.push((name@, Some(obj_view(*obj)))),
    {
        proof {
            lemma_dic_find(self.obj_dic.entries@, name@);
            lemma_obj_entries_view(self.obj_dic.entries@);
        }
        if self.obj_dic.has_name(name) {
            let mut line = string_from("name = ");
            push_str(&mut line, name);
            let e = ErrorInCtx::new().head("Module::define").line("name already defined").line(line.as_str());
            proof {
                let es = self.obj_dic.entries@;
                let i = dic_find(es, name@)->Some_0;
                assert(self@[i].0 == name@);
                assert(e@.msg.lines =~= seq!["name already defined"@, "name = "@ + name@]);
            }
            Err(e)
        } else {
            let ghost before = self.obj_dic.entries@;
            let ghost ov = obj_view(*obj);
            self.obj_dic.ins(name, Some(copy_obj(obj)));
            proof {
                assert(!defines(obj_entries_view(before), name@)) by {
                    if defines(obj_entries_view(before), name@) {
                        let i = choose|i: int| 0 <= i < obj_entries_view(before).len() && #[trigger] obj_entries_view(before)[i].0 == name@;
                        assert(before[i].0@ == name@);
                    }
                }
                let after = self.obj_dic.entries@;
                assert(after =~= before.push(after.last()));
                assert(after.drop_last() =~= before);
                assert(self@ =~= obj_entries_view(before).push((name@, Some(ov))));
            }
            Ok(())
        }
    }
}

/// The error of a name that the module does not define as a proposition.
pub open spec fn prop_error(lines: Seq<Seq<char>>) -> ErrorInCtxView {
    ErrorInCtxView {
        msg: ErrorMsgView { head: Some("Module::get_prop"@), lines },
        infos: Seq::empty(),
        notes: Seq::empty(),
        span: None,
    }
}

/// An error with a head and lines, at a place or nowhere.
pub(crate) fn runtime_error(head: &str, lines: Vec<String>, span: Option<Span>) -> (e: ErrorInCtx)
    ensures
        e@.msg.head == Some(head@),
        e@.msg.lines == strings_view(lines@),
        e@.infos == Seq::<ErrorMsgView>::empty(),
        e@.notes == Seq::<ErrorMsgView>::empty(),
        e@.span == span,
{
    let mut e = ErrorInCtx::new().head(head);
    let mut i: usize = 0;
    while i < lines.len()
        invariant
            i <= lines@.len(),
            e@.msg.head == Some(head@),
            e@.msg.lines == strings_view(lines@.take(i as int)),
            e@.infos == Seq::<ErrorMsgView>::empty(),
            e@.notes == Seq::<ErrorMsgView>::empty(),
            e@.span == None::<Span>,
        decreases lines@.len() - i,
    {
        e = e.line(lines[i].as_str());
        proof {
            assert(strings_view(lines@.take(i + 1)) =~= strings_view(lines@.take(i as int)).push(lines@[i as int]@));
        }
        i = i + 1;
    }
    proof {
        assert(lines@.take(lines@.len() as int) =~= lines@);
    }
    match span {
        Some(sp) => e.span(sp),
        None => e,
    }
}

/// `text` followed by `name`.
pub(crate) fn labeled_line(text: &str, name: &str) -> (s: String)
    ensures
        s@ == text@ + name@,
{
    let mut s = string_from(text);
    push_str(&mut s, name);
    s
}

/// The dictionary of fields of a disjunction, a conjunction or data.
pub fn value_dic(v: &Value) -> (r: Option<&Dic<Value>>)
    ensures
        match v@ {
            ValueView::Disj(_, _, es) => r matches Some(d) && entries_view(d.entries@) == es,
            ValueView::Conj(_, es) => r matches Some(d) && entries_view(d.entries@) == es,
            ValueView::Data(_, es) => r matches Some(d) && entries_view(d.entries@) == es,
            _ => r is None,
        },
{
    match v {
        Value::Disj(disj) => Some(&disj.body),
        Value::Conj(conj) => Some(&conj.body),
        Value::Data(data) => Some(&data.body),
        _ => None,
    }
}

/// Where unifying `old` with `value` in `bs` within the budget of the
/// runtime succeeds: the bindings it makes.
pub open spec fn unified(bs: Seq<BindView>, old: ValueView, value: ValueView) -> Option<Seq<BindView>> {
    match unify_fuel(bs, old, value, usize::MAX as nat) {
        Some(Some(bs2)) => Some(bs2),
        _ => None,
    }
}

/// Unifies `value` with what it is to equal, where there is such a value:
/// the bindings found are put before those of `subst`.
pub(crate) fn unify_against(value: &Value, against: Option<&Value>, subst: &mut Subst, span: Span) -> (r: Result<(), ErrorInCtx>)
    ensures
        match against {
            None => r is Ok && final(subst)@ == old(subst)@,
            Some(o) => match unified(old(subst)@, o@, value@) {
                Some(bs2) => r is Ok && final(subst)@ == bs2 + old(subst)@,
                None => r is Err && final(subst)@ == old(subst)@,
            },
        },
{
    match against {
        None => Ok(()),
        Some(old_value) => {
            match subst.unify_within(old_value, value, usize::MAX) {
                Some(Some(new_subst)) => {
                    let s = new_subst.union(&*subst);
                    *subst = s;
                    Ok(())
                },
                Some(None) => {
                    let mut lines: Vec<String> = Vec::new();
                    let mut a = string_from("old = ");
                    push_str(&mut a, old_value.to_string().as_str());
                    lines.push(a);
                    let mut b = string_from("new = ");
                    push_str(&mut b, value.to_string().as_str());
                    lines.push(b);
                    Err(runtime_error("unify_against fail", lines, Some(span)))
                },
                None => {
                    let mut lines: Vec<String> = Vec::new();
                    lines.push(string_from("unification does not come to an end"));
                    Err(runtime_error("unify_against fail", lines, Some(span)))
                },
            }
        },
    }
}

/// Whether `v` is a disjunction named `name` among `names`, or a
/// conjunction named `name`, as `o` defines.
pub open spec fn prop_value_of(o: Obj, name: Seq<char>, v: ValueView) -> bool {
    match o {
        Obj::Disj(ns, _) => v matches ValueView::Disj(n, ns2, _) && n == name && ns2 == names_view(ns@),
        Obj::Conj(_) => v matches ValueView::Conj(n, _) && n == name,
        _ => false,
    }
}

/// Whether `m` names a disjunction or a conjunction `name`.
pub open spec fn prop_named(m: Module, name: Seq<char>) -> bool {
    dic_get(m.obj_dic.entries@, name) matches Some(o) && (o is Disj || o is Conj)
}

/// Whether `m` names a disjunction or a conjunction `name` that has no
/// fields: one whose value cannot fail.
pub open spec fn plain_prop(m: Module, name: Seq<char>) -> bool {
    match dic_get(m.obj_dic.entries@, name) {
        Some(Obj::Disj(_, bv)) => bv@.len() == 0,
        Some(Obj::Conj(bv)) => bv@.len() == 0,
        _ => false,
    }
}

/// Whether an argument gives no term.
pub open spec fn arg_is_empty(a: Arg) -> bool {
    match a {
        Arg::Vec(ts) => ts@.len() == 0,
        Arg::Rec(bs) => bs@.len() == 0,
    }
}

/// When a term has a value, with nothing to equal: a variable and the
/// type of types always; a proposition never where the module names no
/// proposition so, and always where it names one without fields and the
/// term gives no argument.
pub open spec fn value_success(m: Module, t: Term, has_against: bool, r: Result<Value, ErrorInCtx>) -> bool {
    match t {
        Term::Var(..) => !has_against ==> r is Ok,
        Term::TypeOfType(_) => !has_against ==> r is Ok,
        Term::Prop(_, name, arg) => (!prop_named(m, name@) ==> r is Err)
            && (!has_against && plain_prop(m, name@) && arg_is_empty(arg) ==> r is Ok),
        _ => true,
    }
}

/// Whether a term has a value with no fields around it and nothing to
/// equal, where the module settles it without unifying: `Some(true)` for
/// a variable, the type of types and a plain proposition with no
/// argument; `Some(false)` for a field reference, a constructor and a
/// name that is no proposition; else `None`.
pub open spec fn term_valued(m: Module, t: Term) -> Option<bool> {
    match t {
        Term::Var(..) => Some(true),
        Term::TypeOfType(_) => Some(true),
        Term::FieldRef(..) => Some(false),
        Term::Cons(..) => Some(false),
        Term::Prop(_, name, arg) => if !prop_named(m, name@) {
            Some(false)
        } else if plain_prop(m, name@) && arg_is_empty(arg) {
            Some(true)
        } else {
            None
        },
    }
}

impl Module {
    /// A fresh value of the proposition named `name`, with the bindings
    /// its fields made; an error where `name` names no disjunction or
    /// conjunction.  `depth` bounds how deeply definitions may nest.
    pub(crate) fn get_prop_at(&self, name: &str, depth: usize) -> (r: Result<(Value, Subst), ErrorInCtx>)
        ensures
            match dic_get(self.obj_dic.entries@, name@) {
                None => r matches Err(e) && e@ == prop_error(seq!["undefined name = "@ + name@]),
                Some(o) => if o is Disj || o is Conj {
                    r matches Ok((v, _)) ==> prop_value_of(o, name@, v@)
                } else {
                    r matches Err(e) && e@ == prop_error(seq!["name is not bound to Disj or Conj"@, "name = "@ + name@])
                },
            },
            plain_prop(*self, name@) ==> r is Ok,
        decreases depth, 3nat, self,
    {
        match self.obj_dic.get(name) {
            Some(Obj::Disj(name_vec, binding_vec)) => {
                let (body, subst) = match new_value_dic(self, binding_vec, depth) {
                    Ok(x) => x,
                    Err(e) => {
                        return Err(e);
                    },
                };
                let disj = Value::Disj(Disj { name: string_from(name), name_vec: copy_strings(name_vec), body });
                Ok((disj, subst))
            },
            Some(Obj::Conj(binding_vec)) => {
                let (body, subst) = match new_value_dic(self, binding_vec, depth) {
                    Ok(x) => x,
                    Err(e) => {
                        return Err(e);
                    },
                };
                let conj = Value::Conj(Conj { name: string_from(name), body });
                Ok((conj, subst))
            },
            Some(_) => {
                let mut lines: Vec<String> = Vec::new();
                lines.push(string_from("name is not bound to Disj or Conj"));
                lines.push(labeled_line("name = ", name));
                let e = runtime_error("Module::get_prop", lines, None);
                proof {
                    assert(strings_view(lines@) =~= seq!["name is not bound to Disj or Conj"@, "name = "@ + name@]);
                }
                Err(e)
            },
            None => {
                let mut lines: Vec<String> = Vec::new();
                lines.push(labeled_line("undefined name = ", name));
                let e = runtime_error("Module::get_prop", lines, None);
                proof {
                    assert(strings_view(lines@) =~= seq!["undefined name = "@ + name@]);
                }
                Err(e)
            },
        }
    }

    /// Fresh data of the constructor named `name`, whose fields are those
    /// of its proposition, with the bindings they made.
    pub(crate) fn get_new_data_at(&self, name: &str, depth: usize) -> (r: Result<(Data, Subst), ErrorInCtx>)
        ensures
            r matches Ok((d, _)) ==> cut_ok(name@) && d.name@ == renamed_kind(name@, 'c'),
        decreases depth, 4nat, self,
    {
        if !cut_ok_p(name) {
            let mut lines: Vec<String> = Vec::new();
            lines.push(labeled_line("name = ", name));
            return Err(runtime_error("Module::get_new_data", lines, None));
        }
        let prop_name = name_to_prop_name(name);
        let (prop, subst) = match self.get_prop_at(prop_name.as_str(), depth) {
            Ok(x) => x,
            Err(e) => {
                return Err(e);
            },
        };
        match value_dic(&prop) {
            Some(body) => {
                let data = Data { name: name_to_cons_name(name), body: copy_dic(body) };
                Ok((data, subst))
            },
            None => {
                let mut lines: Vec<String> = Vec::new();
                lines.push(labeled_line("name = ", name));
                Err(runtime_error("Module::get_new_data", lines, None))
            },
        }
    }
}

/// The values of a list of bindings, field by field, with the bindings
/// of their variables.
pub(crate) fn new_value_dic(module: &Module, binding_vec: &Vec<Binding>, depth: usize) -> (r: Result<(Dic<Value>, Subst), ErrorInCtx>)
    ensures
        binding_vec@.len() == 0 ==> r is Ok,
    decreases depth, 2nat, binding_vec,
{
    let mut subst = Subst::new();
    let mut body: Dic<Value> = Dic::new();
    let mut var_dic: Dic<Value> = Dic::new();
    let mut i: usize = 0;
    while i < binding_vec.len()
        invariant
            i <= binding_vec@.len(),
        decreases binding_vec@.len() - i,
    {
        match binding_vec[i].bind_at(module, &mut subst, &mut body, &mut var_dic, depth) {
            Ok(()) => {},
            Err(e) => {
                return Err(e);
            },
        }
        i = i + 1;
    }
    Ok((body, subst))
}

impl Binding {
    /// Adds the field of this binding to `body`: a field that equals a
    /// term unifies with the term's value; a field that inhabits a term is
    /// a fresh typed variable of the term's value, unified with the field
    /// where there is one.
    pub(crate) fn bind_at(
        &self,
        module: &Module,
        subst: &mut Subst,
        body: &mut Dic<Value>,
        var_dic: &mut Dic<Value>,
        depth: usize,
    ) -> (r: Result<(), ErrorInCtx>)
        decreases depth, 1nat, self,
    {
        match self {
            Binding::EqualTo(name, term) => {
                let old_value = match body.get(name.as_str()) {
                    Some(v) => copy_value(v),
                    None => {
                        let mut lines: Vec<String> = Vec::new();
                        lines.push(string_from("on Binding::EqualTo"));
                        lines.push(labeled_line("name = ", name.as_str()));
                        return Err(runtime_error("Binding::bind", lines, Some(term.span())));
                    },
                };
                match term.value_at(module, subst, &*body, var_dic, Some(&old_value), depth) {
                    Ok(_) => Ok(()),
                    Err(e) => Err(e),
                }
            },
            Binding::Inhabit(name, term) => {
                let value = match term.value_at(module, subst, &*body, var_dic, None, depth) {
                    Ok(v) => v,
                    Err(e) => {
                        return Err(e);
                    },
                };
                let tv = Value::TypedVar(new_tv(name.as_str(), &value));
                let found = match body.get(name.as_str()) {
                    Some(v) => Some(copy_value(v)),
                    None => None,
                };
                match found {
                    Some(old_value) => {
                        match subst.unify_within(&old_value, &tv, usize::MAX) {
                            Some(Some(new_subst)) => {
                                let s = new_subst.union(&*subst);
                                *subst = s;
                                Ok(())
                            },
                            _ => {
                                let mut lines: Vec<String> = Vec::new();
                                lines.push(string_from("on Binding::Inhabit"));
                                Err(runtime_error("Binding::bind", lines, Some(term.span())))
                            },
                        }
                    },
                    None => {
                        var_dic.ins(name.as_str(), Some(copy_value(&tv)));
                        body.ins(name.as_str(), Some(tv));
                        Ok(())
                    },
                }
            },
        }
    }
}

/// Gives each term of `arg` its value: terms by position go with the
/// typed variables among the fields, in order; bindings by name with the
/// field of their name.
pub(crate) fn value_dic_merge_arg(
    value_dic: &Dic<Value>,
    arg: &Arg,
    module: &Module,
    subst: &mut Subst,
    body: &Dic<Value>,
    var_dic: &mut Dic<Value>,
    depth: usize,
) -> (r: Result<(), ErrorInCtx>)
    ensures
        arg_is_empty(*arg) ==> r is Ok,
    decreases depth, 0nat, arg,
{
    match arg {
        Arg::Vec(term_vec) => merge_terms(value_dic, term_vec, module, subst, body, var_dic, depth),
        Arg::Rec(binding_vec) => merge_bindings(value_dic, binding_vec, module, subst, body, var_dic, depth),
    }
}

fn merge_terms(
    value_dic: &Dic<Value>,
    term_vec: &Vec<Term>,
    module: &Module,
    subst: &mut Subst,
    body: &Dic<Value>,
    var_dic: &mut Dic<Value>,
    depth: usize,
) -> (r: Result<(), ErrorInCtx>)
    ensures
        term_vec@.len() == 0 ==> r is Ok,
    decreases depth, 0nat, term_vec,
{
    let mut queue: Vec<Value> = Vec::new();
    let mut i: usize = 0;
    while i < value_dic.entries.len()
        invariant
            i <= value_dic.entries@.len(),
        decreases value_dic.entries@.len() - i,
    {
        match &value_dic.entries[i].1 {
            Some(v) => {
                let w = subst.walk_within(v, usize::MAX);
                if let Value::TypedVar(_) = &w {
                    queue.push(w);
                }
            },
            None => {},
        }
        i = i + 1;
    }
    let mut k: usize = 0;
    while k < term_vec.len()
        invariant
            k <= term_vec@.len(),
        decreases term_vec@.len() - k,
    {
        assert(decreases_to!(term_vec => term_vec@[k as int]));
        let r = if k < queue.len() {
            term_vec[k].value_at(module, subst, body, var_dic, Some(&queue[k]), depth)
        } else {
            term_vec[k].value_at(module, subst, body, var_dic, None, depth)
        };
        match r {
            Ok(_) => {},
            Err(e) => {
                return Err(e);
            },
        }
        k = k + 1;
    }
    Ok(())
}

fn merge_bindings(
    value_dic: &Dic<Value>,
    binding_vec: &Vec<Binding>,
    module: &Module,
    subst: &mut Subst,
    body: &Dic<Value>,
    var_dic: &mut Dic<Value>,
    depth: usize,
) -> (r: Result<(), ErrorInCtx>)
    ensures
        binding_vec@.len() == 0 ==> r is Ok,
    decreases depth, 0nat, binding_vec,
{
    let mut k: usize = 0;
    while k < binding_vec.len()
        invariant
            k <= binding_vec@.len(),
        decreases binding_vec@.len() - k,
    {
        assert(decreases_to!(binding_vec => binding_vec@[k as int]));
        match &binding_vec[k] {
            Binding::EqualTo(name, term) => {
                match get_value(value_dic, name.as_str()) {
                    Some(old_value) => {
                        match term.value_at(module, subst, body, var_dic, Some(old_value), depth) {
                            Ok(_) => {},
                            Err(e) => {
                                return Err(e);
                            },
                        }
                    },
                    None => {
                        let mut lines: Vec<String> = Vec::new();
                        lines.push(string_from("on Binding::EqualTo"));
                        lines.push(labeled_line("name = ", name.as_str()));
                        return Err(runtime_error("value_dic_merge_arg", lines, Some(term.span())));
                    },
                }
            },
            Binding::Inhabit(name, term) => {
                let mut lines: Vec<String> = Vec::new();
                lines.push(string_from("on Binding::Inhabit"));
                lines.push(labeled_line("name = ", name.as_str()));
                return Err(runtime_error("value_dic_merge_arg", lines, Some(term.span())));
            },
        }
        k = k + 1;
    }
    Ok(())
}

impl Term {
    /// The value of the term, unified with `against` where given: a
    /// variable is the one `var_dic` holds for its name, or a fresh one
    /// put there; a constructor makes fresh data of its proposition's
    /// fields; a proposition a fresh value of its definition; a field
    /// reference the field of `body`.  `depth` bounds how deeply
    /// definitions may nest.
    pub(crate) fn value_at(
        &self,
        module: &Module,
        subst: &mut Subst,
        body: &Dic<Value>,
        var_dic: &mut Dic<Value>,
        against: Option<&Value>,
        depth: usize,
    ) -> (r: Result<Value, ErrorInCtx>)
        ensures
            value_shape(self@, old(var_dic).entries@, body.entries@, against is Some, r),
            depth > 0 ==> value_success(*module, *self, against is Some, r),
        decreases depth, 0nat, self,
    {
        match self {
            Term::Var(span, name) => {
                match var_dic.get(name.as_str()) {
                    Some(v) => {
                        let value = copy_value(v);
                        match unify_against(&value, against, subst, *span) {
                            Ok(()) => Ok(value),
                            Err(e) => Err(e),
                        }
                    },
                    None => {
                        let new_var = Value::Var(Var::new(name.as_str()));
                        var_dic.ins(name.as_str(), Some(copy_value(&new_var)));
                        match unify_against(&new_var, against, subst, *span) {
                            Ok(()) => Ok(new_var),
                            Err(e) => Err(e),
                        }
                    },
                }
            },
            Term::Cons(span, name, arg) => {
                if depth == 0 {
                    return Err(too_deep(*span));
                }
                let (data, new_subst) = match module.get_new_data_at(name.as_str(), depth - 1) {
                    Ok(x) => x,
                    Err(e) => {
                        return Err(e);
                    },
                };
                let data = Value::Data(data);
                let s = new_subst.union(&*subst);
                *subst = s;
                if against.is_none() {
                    let mut lines: Vec<String> = Vec::new();
                    lines.push(string_from("on Term::Cons"));
                    lines.push(labeled_line("name = ", name.as_str()));
                    lines.push(string_from("no against"));
                    return Err(runtime_error("Term::value", lines, Some(*span)));
                }
                match unify_against(&data, against, subst, *span) {
                    Ok(()) => {},
                    Err(e) => {
                        return Err(e);
                    },
                }
                match value_dic(&data) {
                    Some(d) => {
                        match value_dic_merge_arg(d, arg, module, subst, body, var_dic, depth) {
                            Ok(()) => Ok(data),
                            Err(e) => Err(e),
                        }
                    },
                    None => Ok(data),
                }
            },
            Term::Prop(span, name, arg) => {
                if depth == 0 {
                    return Err(too_deep(*span));
                }
                let (prop, new_subst) = match module.get_prop_at(name.as_str(), depth - 1) {
                    Ok(x) => x,
                    Err(e) => {
                        return Err(e);
                    },
                };
                let s = new_subst.union(&*subst);
                *subst = s;
                match unify_against(&prop, against, subst, *span) {
                    Ok(()) => {},
                    Err(e) => {
                        return Err(e);
                    },
                }
                match value_dic(&prop) {
                    Some(d) => {
                        match value_dic_merge_arg(d, arg, module, subst, body, var_dic, depth) {
                            Ok(()) => Ok(prop),
                            Err(e) => Err(e),
                        }
                    },
                    None => Ok(prop),
                }
            },
            Term::FieldRef(span, name) => {
                let value = match body.get(name.as_str()) {
                    Some(v) => copy_value(v),
                    None => {
                        let mut lines: Vec<String> = Vec::new();
                        lines.push(string_from("on Term::FieldRef"));
                        lines.push(labeled_line("name = ", name.as_str()));
                        return Err(runtime_error("Term::value", lines, Some(*span)));
                    },
                };
                match unify_against(&value, against, subst, *span) {
                    Ok(()) => Ok(value),
                    Err(e) => Err(e),
                }
            },
            Term::TypeOfType(span) => {
                let value = Value::TypeOfType;
                match unify_against(&value, against, subst, *span) {
                    Ok(()) => Ok(value),
                    Err(e) => Err(e),
                }
            },
        }
    }
}

/// The error of definitions that nest deeper than the runtime goes.
pub(crate) fn too_deep(span: Span) -> (e: ErrorInCtx) {
    let mut lines: Vec<String> = Vec::new();
    lines.push(string_from("definitions nest too deeply"));
    runtime_error("Term::value", lines, Some(span))
}

/// What holds of the value of a term, whatever fresh variables it drew:
/// a variable already met is the value held for it; the type of types
/// is itself; a field reference is the field, and an error where there
/// is none; data is named by the constructor, and a constructor needs a
/// value to equal; a proposition is a value of its name.
pub open spec fn value_shape(
    t: TermView,
    vars: Seq<(String, Option<Value>)>,
    body: Seq<(String, Option<Value>)>,
    has_against: bool,
    r: Result<Value, ErrorInCtx>,
) -> bool {
    match t {
        TermView::Var(_, name) => r matches Ok(v) ==> match dic_get(vars, name) {
            Some(w) => v@ == w@,
            None => v@ matches ValueView::Var(x) && x.name == name && x.id is Uuid,
        },
        TermView::TypeOfType(_) => r matches Ok(v) ==> v@ == ValueView::TypeOfType,
        TermView::FieldRef(_, name) => match dic_get(body, name) {
            Some(w) => r matches Ok(v) ==> v@ == w@,
            None => r is Err,
        },
        TermView::Cons(_, name, _) => (!has_against ==> r is Err)
            && (r matches Ok(v) ==> v@ matches ValueView::Data(n, _) && cut_ok(name) && n == renamed_kind(name, 'c')),
        TermView::Prop(_, name, _) => r matches Ok(v) ==> (v@ matches ValueView::Disj(n, _, _) && n == name)
            || (v@ matches ValueView::Conj(n, _) && n == name),
    }
}

fn copy_qed(q: &Qed) -> (r: Qed)
    ensures
        qed_view(r) == qed_view(*q),
{
    Qed { subst: q.subst.clone(), root: copy_value(&q.root) }
}

fn copy_tvs(v: &Vec<TypedVar>) -> (r: Vec<TypedVar>)
    ensures
        r@.map_values(|t: TypedVar| t@) == v@.map_values(|t: TypedVar| t@),
{
    let mut out: Vec<TypedVar> = Vec::new();
    let mut i: usize = 0;
    while i < v.len()
        invariant
            i <= v@.len(),
            out@.len() == i,
            forall|j: int| 0 <= j < i ==> #[trigger] out@[j]@ == v@[j]@,
        decreases v@.len() - i,
    {
        out.push(copy_tv(&v[i]));
        i = i + 1;
    }
    proof {
        assert(out@.map_values(|t: TypedVar| t@) =~= v@.map_values(|t: TypedVar| t@));
    }
    out
}

fn copy_deduction(d: &Deduction) -> (r: Deduction)
    ensures
        deduction_view(r) == deduction_view(*d),
{
    Deduction { subst: d.subst.clone(), root: copy_value(&d.root), tv_queue: copy_tvs(&d.tv_queue) }
}

fn copy_deductions(v: &Vec<Deduction>) -> (r: Vec<Deduction>)
    ensures
        deductions_view(r@) == deductions_view(v@),
{
    let mut out: Vec<Deduction> = Vec::new();
    let mut i: usize = 0;
    while i < v.len()
        invariant
            i <= v@.len(),
            out@.len() == i,
            forall|j: int| 0 <= j < i ==> #[trigger] deduction_view(out@[j]) == deduction_view(v@[j]),
        decreases v@.len() - i,
    {
        out.push(copy_deduction(&v[i]));
        i = i + 1;
    }
    proof {
        assert(deductions_view(out@) =~= deductions_view(v@));
    }
    out
}

fn copy_qeds(v: &Vec<Qed>) -> (r: Vec<Qed>)
    ensures
        qeds_view(r@) == qeds_view(v@),
{
    let mut out: Vec<Qed> = Vec::new();
    let mut i: usize = 0;
    while i < v.len()
        invariant
            i <= v@.len(),
            out@.len() == i,
            forall|j: int| 0 <= j < i ==> #[trigger] qed_view(out@[j]) == qed_view(v@[j]),
        decreases v@.len() - i,
    {
        out.push(copy_qed(&v[i]));
        i = i + 1;
    }
    proof {
        assert(qeds_view(out@) =~= qeds_view(v@));
    }
    out
}

fn copy_step(s: &DeductionStep) -> (r: DeductionStep)
    ensures
        step_view(r) == step_view(*s),
{
    match s {
        DeductionStep::Qed(q) => DeductionStep::Qed(copy_qed(q)),
        DeductionStep::More(ds) => DeductionStep::More(copy_deductions(ds)),
    }
}

fn copy_vars(v: &Vec<Var>) -> (r: Vec<Var>)
    ensures
        r@.map_values(|x: Var| x@) == v@.map_values(|x: Var| x@),
{
    let mut out: Vec<Var> = Vec::new();
    let mut i: usize = 0;
    while i < v.len()
        invariant
            i <= v@.len(),
            out@.len() == i,
            forall|j: int| 0 <= j < i ==> #[trigger] out@[j]@ == v@[j]@,
        decreases v@.len() - i,
    {
        out.push(copy_var(&v[i]));
        i = i + 1;
    }
    proof {
        assert(out@.map_values(|x: Var| x@) =~= v@.map_values(|x: Var| x@));
    }
    out
}

fn copy_substs(v: &Vec<Subst>) -> (r: Vec<Subst>)
    ensures
        r@.map_values(|s: Subst| s@) == v@.map_values(|s: Subst| s@),
{
    let mut out: Vec<Subst> = Vec::new();
    let mut i: usize = 0;
    while i < v.len()
        invariant
            i <= v@.len(),
            out@.len() == i,
            forall|j: int| 0 <= j < i ==> #[trigger] out@[j]@ == v@[j]@,
        decreases v@.len() - i,
    {
        out.push(v[i].clone());
        i = i + 1;
    }
    proof {
        assert(out@.map_values(|s: Subst| s@) =~= v@.map_values(|s: Subst| s@));
    }
    out
}

/// A copy of an object.
pub fn copy_obj(o: &Obj) -> (r: Obj)
    ensures
        obj_view(r) == obj_view(*o),
    decreases o, 1nat,
{
    match o {
        Obj::Disj(names, bs) => {
            let ns = copy_strings(names);
            let r = Obj::Disj(ns, copy_bindings(bs));
            proof {
                assert(crate::cicada::names_view(ns@) =~= crate::cicada::names_view(names@)) by {
                    assert(names_view(ns@).len() == names_view(names@).len());
                    assert forall|i: int| 0 <= i < ns@.len() implies ns@[i]@ == names@[i]@ by {
                        assert(names_view(ns@)[i] == names_view(names@)[i]);
                    }
                }
            }
            r
        },
        Obj::Conj(bs) => Obj::Conj(copy_bindings(bs)),
        Obj::Module(m) => Obj::Module(copy_module(m)),
        Obj::SearchRes(res) => Obj::SearchRes(SearchRes { qed_vec: copy_qeds(&res.qed_vec) }),
        Obj::QueryRes(res) => Obj::QueryRes(QueryRes { var_vec: copy_vars(&res.var_vec), subst_vec: copy_substs(&res.subst_vec) }),
        Obj::StepRes(res) => {
            let step = match &res.step {
                Some(s) => Some(copy_step(s)),
                None => None,
            };
            Obj::StepRes(StepRes { step, deduction_queue: copy_deductions(&res.deduction_queue) })
        },
    }
}

/// A copy of a module.
pub fn copy_module(m: &Module) -> (r: Module)
    ensures
        r@ == m@,
    decreases m, 0nat,
{
    let es = &m.obj_dic.entries;
    let mut out: Vec<(String, Option<Obj>)> = Vec::new();
    let mut i: usize = 0;
    proof {
        lemma_obj_entries_view(es@);
    }
    while i < es.len()
        invariant
            i <= es@.len(),
            es == &m.obj_dic.entries,
            out@.len() == i,
            forall|j: int| 0 <= j < i ==> #[trigger] out@[j].0@ == es@[j].0@,
            forall|j: int| 0 <= j < i ==> match (#[trigger] out@[j]).1 {
                Some(o) => es@[j].1 matches Some(p) && obj_view(o) == obj_view(p),
                None => es@[j].1 is None,
            },
        decreases es@.len() - i,
    {
        assert(decreases_to!(m => m.obj_dic.entries@[i as int]));
        let v = match &es[i].1 {
            Some(o) => {
                assert(decreases_to!(m => m.obj_dic.entries@[i as int].1->Some_0));
                Some(copy_obj(o))
            },
            None => None,
        };
        out.push((string_from(es[i].0.as_str()), v));
        i = i + 1;
    }
    let r = Module { obj_dic: Dic { entries: out } };
    proof {
        lemma_obj_entries_view(out@);
        assert forall|j: int| 0 <= j < out@.len() implies #[trigger] r@[j] == m@[j] by {
            assert(r@[j].0 == m@[j].0);
            assert(r@[j].1 == m@[j].1);
        }
        assert(r@ =~= m@);
    }
    r
}

impl Term {
    /// The value of the term, unified with `against` where given (see
    /// `value_shape` for what holds of it).
    pub fn value(
        &self,
        module: &Module,
        subst: &mut Subst,
        body: &Dic<Value>,
        var_dic: &mut Dic<Value>,
        against: Option<&Value>,
    ) -> (r: Result<Value, ErrorInCtx>)
        ensures
            value_shape(self@, old(var_dic).entries@, body.entries@, against is Some, r),
            value_success(*module, *self, against is Some, r),
    {
        self.value_at(module, subst, body, var_dic, against, usize::MAX)
    }
}

/// The names of variables.
pub open spec fn var_names(vs: Seq<Var>) -> Seq<Seq<char>> {
    vs.map_values(|x: Var| x@.name)
}

/// The value of `term` with fresh bindings and no fields around it.
pub fn new_value(module: &Module, term: &Term) -> (r: Result<(Value, Subst), ErrorInCtx>)
    ensures
        match r {
            Ok((v, _)) => value_shape(term@, Seq::empty(), Seq::empty(), false, Ok(v))
                && value_success(*module, *term, false, Ok(v)),
            Err(e) => value_shape(term@, Seq::empty(), Seq::empty(), false, Err(e))
                && value_success(*module, *term, false, Err(e)),
        },
{
    let mut subst = Subst::new();
    let body: Dic<Value> = Dic::new();
    let mut var_dic: Dic<Value> = Dic::new();
    match term.value(module, &mut subst, &body, &mut var_dic, None) {
        Ok(v) => Ok((v, subst)),
        Err(e) => Err(e),
    }
}

/// The value of `term`, as `new_value`, with the variables of the term,
/// fresh and in the order first met, made before it.
pub fn new_value_and_var_vec(module: &Module, term: &Term) -> (r: Result<(Value, Subst, Vec<Var>), ErrorInCtx>)
    ensures
        r matches Ok((_, _, vars)) ==> var_names(vars@) == collect_term(Seq::empty(), term@)
            && forall|i: int| 0 <= i < vars@.len() ==> (#[trigger] vars@[i]).id is Uuid,
        match r {
            Ok((v, _, _)) => value_success(*module, *term, false, Ok(v)),
            Err(e) => value_success(*module, *term, false, Err(e)),
        },
        (*term is FieldRef || *term is Cons) ==> r is Err,
{
    let mut subst = Subst::new();
    let body: Dic<Value> = Dic::new();
    let mut var_dic: Dic<Value> = Dic::new();
    let mut var_name_vec: Vec<String> = Vec::new();
    proof {
        assert(crate::cicada::names_view(var_name_vec@) =~= Seq::<Seq<char>>::empty());
    }
    collect_var_name_vec_from_term(&mut var_name_vec, term);
    let mut var_vec: Vec<Var> = Vec::new();
    let mut i: usize = 0;
    while i < var_name_vec.len()
        invariant
            i <= var_name_vec@.len(),
            var_vec@.len() == i,
            forall|j: int| 0 <= j < i ==> (#[trigger] var_vec@[j]).name@ == var_name_vec@[j]@ && var_vec@[j].id is Uuid,
        decreases var_name_vec@.len() - i,
    {
        let var = Var::new(var_name_vec[i].as_str());
        var_dic.ins(var_name_vec[i].as_str(), Some(Value::Var(copy_var(&var))));
        var_vec.push(var);
        i = i + 1;
    }
    proof {
        assert(var_names(var_vec@) =~= crate::cicada::names_view(var_name_vec@));
    }
    match term.value(module, &mut subst, &body, &mut var_dic, None) {
        Ok(v) => Ok((v, subst, var_vec)),
        Err(e) => Err(e),
    }
}

/// The typed variables among the fields `es`, walked in `bs`, whose
/// types walk to a disjunction or a conjunction: those a proof is still
/// to fill, in order.
pub open spec fn open_tvs(bs: Seq<BindView>, es: Seq<(Seq<char>, Option<ValueView>)>) -> Seq<TvView>
    decreases es.len(),
{
    if es.len() == 0 {
        Seq::empty()
    } else {
        open_tvs(bs, es.drop_last()) + match es.last().1 {
            Some(v) => match walk_fuel(bs, v, usize::MAX as nat) {
                ValueView::TypedVar(t) => match walk_fuel(bs, *t.ty, usize::MAX as nat) {
                    ValueView::Disj(..) => seq![t],
                    ValueView::Conj(..) => seq![t],
                    _ => Seq::empty(),
                },
                _ => Seq::empty(),
            },
            None => Seq::empty(),
        }
    }
}

fn open_tvs_within(subst: &Subst, d: &Dic<Value>) -> (r: Vec<TypedVar>)
    ensures
        r@.map_values(|t: TypedVar| t@) == open_tvs(subst@, entries_view(d.entries@)),
{
    let ghost es = entries_view(d.entries@);
    proof {
        lemma_entries_view(d.entries@);
    }
    let mut vec: Vec<TypedVar> = Vec::new();
    let mut i: usize = 0;
    while i < d.entries.len()
        invariant
            i <= d.entries@.len(),
            es == entries_view(d.entries@),
            es.len() == d.entries@.len(),
            forall|j: int| 0 <= j < d.entries@.len() ==> #[trigger] es[j] == (d.entries@[j].0@, opt_value_view(d.entries@[j].1)),
            vec@.map_values(|t: TypedVar| t@) == open_tvs(subst@, es.take(i as int)),
        decreases d.entries@.len() - i,
    {
        let ghost before = vec@.map_values(|t: TypedVar| t@);
        proof {
            assert(es.take(i + 1).drop_last() =~= es.take(i as int));
            assert(es.take(i + 1).last() == es[i as int]);
        }
        match &d.entries[i].1 {
            Some(value) => {
                let value = subst.walk_within(value, usize::MAX);
                match value {
                    Value::TypedVar(tv) => {
                        let ty = subst.walk_within(&tv.ty, usize::MAX);
                        match ty {
                            Value::Disj(_) | Value::Conj(_) => {
                                vec.push(tv);
                                proof {
                                    assert(vec@.map_values(|t: TypedVar| t@) =~= before + seq![tv@]);
                                }
                            },
                            _ => {
                                proof {
                                    assert(before + Seq::<TvView>::empty() =~= before);
                                }
                            },
                        }
                    },
                    _ => {
                        proof {
                            assert(before + Seq::<TvView>::empty() =~= before);
                        }
                    },
                }
            },
            None => {
                proof {
                    assert(before + Seq::<TvView>::empty() =~= before);
                }
            },
        }
        i = i + 1;
    }
    proof {
        assert(es.take(es.len() as int) =~= es);
    }
    vec
}

/// The error where the search cannot go on, as the runtime has no way
/// to fill a typed variable.
fn fulfill_error(line: &str) -> (e: ErrorInCtx) {
    let mut lines: Vec<String> = Vec::new();
    lines.push(string_from(line));
    runtime_error("TypedVar::fulfill", lines, None)
}

/// What looking up the proposition `name` in `m` may give (`None` for an
/// error): a value of the proposition that the module names so, with the
/// bindings its fields made; always an error where it names none.
pub open spec fn prop_outcome(m: Module, name: Seq<char>, x: Option<(ValueView, Seq<BindView>)>) -> bool {
    match dic_get(m.obj_dic.entries@, name) {
        None => x is None,
        Some(o) => if o is Disj || o is Conj {
            x matches Some((v, _)) ==> prop_value_of(o, name, v)
        } else {
            x is None
        },
    }
}

/// What making fresh data of the constructor `name` may give (`None` for
/// an error): data named by the constructor, its fields and the bindings
/// they made.
pub open spec fn data_outcome(name: Seq<char>, x: Option<(Seq<char>, Seq<(Seq<char>, Option<ValueView>)>, Seq<BindView>)>) -> bool {
    x matches Some((n, _, _)) ==> cut_ok(name) && n == renamed_kind(name, 'c')
}

/// Whether `nt` is a fresh typed variable named `name`.
pub open spec fn fresh_tv_named(name: Seq<char>, nt: TvView) -> bool {
    nt.name == name && nt.id is Uuid
}

/// The ways to fill the typed variable `tv` of a disjunction, one name of
/// it at a time (`None` for an error): for each name, in order, a fresh
/// typed variable of a value of that proposition, where it unifies with
/// `tv`.
pub open spec fn fulfill_disj(m: Module, tv: TvView, bs: Seq<BindView>, names: Seq<Seq<char>>,
    r: Option<Seq<(Seq<TvView>, Seq<BindView>)>>) -> bool
    decreases names.len(),
{
    if names.len() == 0 {
        r == Some(Seq::<(Seq<TvView>, Seq<BindView>)>::empty())
    } else {
        exists|x: Option<(ValueView, Seq<BindView>)>, nt: TvView|
            #![trigger prop_outcome(m, names[0], x), fresh_tv_named(tv.name, nt)]
            prop_outcome(m, names[0], x) && fresh_tv_named(tv.name, nt) && match x {
                None => r is None,
                Some((v, s)) => *nt.ty == v && match unify_fuel(s + bs, ValueView::TypedVar(tv), ValueView::TypedVar(nt), usize::MAX as nat) {
                    None => r is None,
                    Some(None) => fulfill_disj(m, tv, bs, names.drop_first(), r),
                    Some(Some(s2)) => match r {
                        None => fulfill_disj(m, tv, bs, names.drop_first(), None),
                        Some(alts) => alts.len() > 0 && alts[0] == (seq![nt], s2)
                            && fulfill_disj(m, tv, bs, names.drop_first(), Some(alts.drop_first())),
                    },
                },
            }
    }
}

/// The ways to fill the typed variable `tv` under the bindings `bs`
/// (`None` for an error): where its type walks to a disjunction, those
/// of `fulfill_disj`; to a conjunction, fresh data of it where it unifies
/// with `tv`, with the typed variables of its fields still to fill; else
/// an error.
pub open spec fn fulfill_rel(m: Module, tv: TvView, bs: Seq<BindView>, r: Option<Seq<(Seq<TvView>, Seq<BindView>)>>) -> bool {
    match walk_fuel(bs, *tv.ty, usize::MAX as nat) {
        ValueView::Disj(_, names, _) => fulfill_disj(m, tv, bs, names, r),
        ValueView::Conj(cname, _) => exists|x: Option<(Seq<char>, Seq<(Seq<char>, Option<ValueView>)>, Seq<BindView>)>|
            #[trigger] data_outcome(cname, x) && conj_fill(tv, bs, x, r),
        _ => r is None,
    }
}

/// The ways to fill `tv` with the fresh data `x` of its conjunction.
pub open spec fn conj_fill(tv: TvView, bs: Seq<BindView>, x: Option<(Seq<char>, Seq<(Seq<char>, Option<ValueView>)>, Seq<BindView>)>,
    r: Option<Seq<(Seq<TvView>, Seq<BindView>)>>) -> bool {
    match x {
        None => r is None,
        Some((n, es, s)) => match unify_fuel(s + bs, ValueView::TypedVar(tv), ValueView::Data(n, es), usize::MAX as nat) {
            None => r is None,
            Some(None) => r == Some(Seq::<(Seq<TvView>, Seq<BindView>)>::empty()),
            Some(Some(s2)) => r == Some(seq![(open_tvs(s2, es), s2)]),
        },
    }
}

proof fn lemma_conj_fill(m: Module, tv: TvView, bs: Seq<BindView>, cname: Seq<char>,
    x: Option<(Seq<char>, Seq<(Seq<char>, Option<ValueView>)>, Seq<BindView>)>, r: Option<Seq<(Seq<TvView>, Seq<BindView>)>>)
    requires
        walk_fuel(bs, *tv.ty, usize::MAX as nat) matches ValueView::Conj(n, _) && n == cname,
        data_outcome(cname, x),
        conj_fill(tv, bs, x, r),
    ensures
        fulfill_rel(m, tv, bs, r),
{
}

/// The view of the ways to fill a typed variable, `None` for an error.
pub open spec fn fulfill_view(r: Result<Vec<(Vec<TypedVar>, Subst)>, ErrorInCtx>) -> Option<Seq<(Seq<TvView>, Seq<BindView>)>> {
    match r {
        Ok(v) => Some(alts_view(v@)),
        Err(_) => None,
    }
}

/// The views of ways to fill a typed variable.
pub open spec fn alts_view(v: Seq<(Vec<TypedVar>, Subst)>) -> Seq<(Seq<TvView>, Seq<BindView>)> {
    v.map_values(|a: (Vec<TypedVar>, Subst)| (a.0@.map_values(|t: TypedVar| t@), a.1@))
}

/// `r` with the ways `acc` before its own.
pub open spec fn prepend_alts(acc: Seq<(Seq<TvView>, Seq<BindView>)>, r: Option<Seq<(Seq<TvView>, Seq<BindView>)>>)
    -> Option<Seq<(Seq<TvView>, Seq<BindView>)>> {
    match r {
        None => None,
        Some(x) => Some(acc + x),
    }
}

impl TypedVar {
    /// The ways to fill this typed variable (see `fulfill_rel`).
    pub fn fulfill(&self, module: &Module, subst: &Subst) -> (r: Result<Vec<(Vec<TypedVar>, Subst)>, ErrorInCtx>)
        ensures
            fulfill_rel(*module, self@, subst@, fulfill_view(r)),
    {
        let ghost m = *module;
        let ghost tvv = self@;
        let ghost bs = subst@;
        let ty = subst.walk_within(&self.ty, usize::MAX);
        match &ty {
            Value::Disj(disj) => {
                let ghost names = names_view(disj.name_vec@);
                proof {
                    assert(walk_fuel(bs, *tvv.ty, usize::MAX as nat) == ValueView::Disj(disj.name@, names, entries_view(disj.body.entries@)));
                }
                let mut tv_matrix: Vec<(Vec<TypedVar>, Subst)> = Vec::new();
                let mut i: usize = 0;
                proof {
                    assert(names.skip(0) =~= names);
                    assert forall|rr: Option<Seq<(Seq<TvView>, Seq<BindView>)>>|
                        #[trigger] fulfill_disj(m, tvv, bs, names.skip(0), rr)
                        implies fulfill_disj(m, tvv, bs, names, prepend_alts(alts_view(tv_matrix@), rr)) by {
                        match rr {
                            Some(x) => {
                                assert(alts_view(tv_matrix@) + x =~= x);
                            },
                            None => {},
                        }
                    }
                }
                while i < disj.name_vec.len()
                    invariant
                        i <= disj.name_vec@.len(),
                        m == *module,
                        tvv == self@,
                        bs == subst@,
                        names == names_view(disj.name_vec@),
                        walk_fuel(bs, *tvv.ty, usize::MAX as nat) == ValueView::Disj(disj.name@, names, entries_view(disj.body.entries@)),
                        names.len() == disj.name_vec@.len(),
                        forall|j: int| 0 <= j < disj.name_vec@.len() ==> #[trigger] names[j] == disj.name_vec@[j]@,
                        forall|rr: Option<Seq<(Seq<TvView>, Seq<BindView>)>>|
                            #[trigger] fulfill_disj(m, tvv, bs, names.skip(i as int), rr)
                                ==> fulfill_disj(m, tvv, bs, names, prepend_alts(alts_view(tv_matrix@), rr)),
                    decreases disj.name_vec@.len() - i,
                {
                    let ghost rest = names.skip(i as int);
                    let ghost acc = alts_view(tv_matrix@);
                    proof {
                        assert(rest.drop_first() =~= names.skip(i + 1));
                        assert(rest[0] == names[i as int]);
                    }
                    let (conj, new_subst) = match module.get_prop_at(disj.name_vec[i].as_str(), usize::MAX) {
                        Ok(x) => x,
                        Err(e) => {
                            proof {
                                let x = None::<(ValueView, Seq<BindView>)>;
                                let nt = TvView { id: Id::Uuid(0), name: tvv.name, ty: Box::new(ValueView::TypeOfType) };
                                assert(prop_outcome(m, rest[0], x));
                                assert(fresh_tv_named(tvv.name, nt));
                                assert(fulfill_disj(m, tvv, bs, rest, None));
                                assert(fulfill_disj(m, tvv, bs, names, prepend_alts(acc, None)));
                                assert(fulfill_disj(m, tvv, bs, names, None));
                                assert(fulfill_rel(m, tvv, bs, None));
                            }
                            return Err(e);
                        },
                    };
                    let s = new_subst.union(subst);
                    let new_tv = new_tv(self.name.as_str(), &conj);
                    let ghost x = Some((conj@, new_subst@));
                    let ghost nt = new_tv@;
                    proof {
                        assert(prop_outcome(m, rest[0], x));
                        assert(fresh_tv_named(tvv.name, nt));
                    }
                    match s.unify_within(&Value::TypedVar(copy_tv(self)), &Value::TypedVar(copy_tv(&new_tv)), usize::MAX) {
                        Some(Some(s2)) => {
                            let ghost s2v = s2@;
                            let mut tvs: Vec<TypedVar> = Vec::new();
                            tvs.push(new_tv);
                            tv_matrix.push((tvs, s2));
                            proof {
                                assert(tvs@.map_values(|t: TypedVar| t@) =~= seq![nt]);
                                assert(alts_view(tv_matrix@) =~= acc.push((seq![nt], s2v)));
                                assert forall|rr: Option<Seq<(Seq<TvView>, Seq<BindView>)>>|
                                    #[trigger] fulfill_disj(m, tvv, bs, names.skip(i + 1), rr)
                                    implies fulfill_disj(m, tvv, bs, names, prepend_alts(alts_view(tv_matrix@), rr)) by {
                                    let here = prepend_alts(seq![(seq![nt], s2v)], rr);
                                    match rr {
                                        Some(y) => {
                                            assert((seq![(seq![nt], s2v)] + y).drop_first() =~= y);
                                            assert(acc + (seq![(seq![nt], s2v)] + y) =~= alts_view(tv_matrix@) + y);
                                        },
                                        None => {},
                                    }
                                    assert(fulfill_disj(m, tvv, bs, rest, here));
                                }
                            }
                        },
                        Some(None) => {
                            proof {
                                assert forall|rr: Option<Seq<(Seq<TvView>, Seq<BindView>)>>|
                                    #[trigger] fulfill_disj(m, tvv, bs, names.skip(i + 1), rr)
                                    implies fulfill_disj(m, tvv, bs, names, prepend_alts(alts_view(tv_matrix@), rr)) by {
                                    assert(fulfill_disj(m, tvv, bs, rest, rr));
                                }
                            }
                        },
                        None => {
                            proof {
                                assert(fulfill_disj(m, tvv, bs, rest, None));
                                assert(fulfill_disj(m, tvv, bs, names, prepend_alts(acc, None)));
                            }
                            return Err(fulfill_error("unification does not come to an end"));
                        },
                    }
                    i = i + 1;
                }
                proof {
                    let e = Seq::<(Seq<TvView>, Seq<BindView>)>::empty();
                    assert(names.skip(i as int) =~= Seq::<Seq<char>>::empty());
                    assert(fulfill_disj(m, tvv, bs, names.skip(i as int), Some(e)));
                    assert(alts_view(tv_matrix@) + e =~= alts_view(tv_matrix@));
                }
                Ok(tv_matrix)
            },
            Value::Conj(conj) => {
                proof {
                    assert(walk_fuel(bs, *tvv.ty, usize::MAX as nat) == ValueView::Conj(conj.name@, entries_view(conj.body.entries@)));
                }
                let mut tv_matrix: Vec<(Vec<TypedVar>, Subst)> = Vec::new();
                let (data, new_subst) = match module.get_new_data_at(conj.name.as_str(), usize::MAX) {
                    Ok(x) => x,
                    Err(e) => {
                        proof {
                            assert(data_outcome(conj.name@, None));
                            lemma_conj_fill(m, tvv, bs, conj.name@, None, None);
                        }
                        return Err(e);
                    },
                };
                let ghost x = Some((data.name@, entries_view(data.body.entries@), new_subst@));
                proof {
                    assert(data_outcome(conj.name@, x));
                }
                let s = new_subst.union(subst);
                let data_value = Value::Data(Data { name: string_from(data.name.as_str()), body: copy_dic(&data.body) });
                match s.unify_within(&Value::TypedVar(copy_tv(self)), &data_value, usize::MAX) {
                    Some(Some(s2)) => {
                        let tvs = open_tvs_within(&s2, &data.body);
                        let ghost tvsv = tvs@.map_values(|t: TypedVar| t@);
                        let ghost s2v = s2@;
                        tv_matrix.push((tvs, s2));
                        proof {
                            assert(alts_view(tv_matrix@) =~= seq![(tvsv, s2v)]);
                            lemma_conj_fill(m, tvv, bs, conj.name@, x, Some(alts_view(tv_matrix@)));
                        }
                    },
                    Some(None) => {
                        proof {
                            assert(alts_view(tv_matrix@) =~= Seq::<(Seq<TvView>, Seq<BindView>)>::empty());
                            lemma_conj_fill(m, tvv, bs, conj.name@, x, Some(alts_view(tv_matrix@)));
                        }
                    },
                    None => {
                        proof {
                            lemma_conj_fill(m, tvv, bs, conj.name@, x, None);
                        }
                        return Err(fulfill_error("unification does not come to an end"));
                    },
                }
                Ok(tv_matrix)
            },
            _ => Err(fulfill_error("the type is neither a disjunction nor a conjunction")),
        }
    }
}

/// The view of a step, `None` for an error.
pub open spec fn step_result_view(r: Result<DeductionStep, ErrorInCtx>) -> Option<StepView> {
    match r {
        Ok(s) => Some(step_view(s)),
        Err(_) => None,
    }
}

/// The deductions that carry `d` on by the ways `a` to fill its first
/// typed variable: each with the bindings of its way, and the typed
/// variables that way leaves after the others.
pub open spec fn carried(d: DeductionView, a: Seq<(Seq<TvView>, Seq<BindView>)>) -> Seq<DeductionView> {
    Seq::new(a.len(), |i: int| DeductionView { subst: a[i].1, root: d.root, tvs: d.tvs.drop_first() + a[i].0 })
}

/// What one step of the deduction `d` gives in `m` (`None` for an
/// error): with no typed variable left, the proof of its root under its
/// bindings; else, for the ways `fulfill_rel` gives to fill its first
/// typed variable, the deductions they carry it on to.
pub open spec fn ded_step_rel(m: Module, d: DeductionView, s: Option<StepView>) -> bool {
    if d.tvs.len() == 0 {
        s == Some(StepView::Qed(QedView { subst: d.subst, root: d.root }))
    } else {
        exists|alts: Option<Seq<(Seq<TvView>, Seq<BindView>)>>| #[trigger] fulfill_rel(m, d.tvs[0], d.subst, alts) && match alts {
            None => s is None,
            Some(a) => s == Some(StepView::More(carried(d, a))),
        }
    }
}

impl Deduction {
    /// One step (see `ded_step_rel`): with no typed variable left, the
    /// proof; else the first typed variable filled in each way it can be,
    /// each way a deduction with the typed variables it leaves put after
    /// the others.
    pub fn step(&self, module: &Module) -> (r: Result<DeductionStep, ErrorInCtx>)
        ensures
            ded_step_rel(*module, deduction_view(*self), step_result_view(r)),
    {
        let ghost dv = deduction_view(*self);
        if self.tv_queue.len() == 0 {
            return Ok(DeductionStep::Qed(Qed { subst: self.subst.clone(), root: copy_value(&self.root) }));
        }
        let tv_matrix = match self.tv_queue[0].fulfill(module, &self.subst) {
            Ok(m) => m,
            Err(e) => {
                proof {
                    assert(fulfill_rel(*module, dv.tvs[0], dv.subst, None));
                }
                return Err(e);
            },
        };
        let ghost a = alts_view(tv_matrix@);
        let ghost want = carried(dv, a);
        proof {
            assert(fulfill_rel(*module, dv.tvs[0], dv.subst, Some(a)));
        }
        let mut deduction_queue: Vec<Deduction> = Vec::new();
        let mut k: usize = 0;
        while k < tv_matrix.len()
            invariant
                k <= tv_matrix@.len(),
                dv == deduction_view(*self),
                self.tv_queue@.len() > 0,
                a == alts_view(tv_matrix@),
                want == carried(dv, a),
                deduction_queue@.len() == k,
                forall|i: int| 0 <= i < k ==> #[trigger] deduction_view(deduction_queue@[i]) == want[i],
            decreases tv_matrix@.len() - k,
        {
            let mut tvs: Vec<TypedVar> = Vec::new();
            let mut j: usize = 1;
            while j < self.tv_queue.len()
                invariant
                    1 <= j <= self.tv_queue@.len(),
                    tvs@.map_values(|t: TypedVar| t@) == dv.tvs.subrange(1, j as int),
                    dv == deduction_view(*self),
                decreases self.tv_queue@.len() - j,
            {
                let ghost before = tvs@.map_values(|t: TypedVar| t@);
                tvs.push(copy_tv(&self.tv_queue[j]));
                proof {
                    assert(tvs@.map_values(|t: TypedVar| t@) =~= before.push(dv.tvs[j as int]));
                    assert(dv.tvs.subrange(1, j + 1) =~= dv.tvs.subrange(1, j as int).push(dv.tvs[j as int]));
                }
                j = j + 1;
            }
            let ghost row = tv_matrix@[k as int].0@.map_values(|t: TypedVar| t@);
            proof {
                assert(dv.tvs.subrange(1, dv.tvs.len() as int) =~= dv.tvs.drop_first());
                assert(a[k as int].0 == row);
            }
            let mut m: usize = 0;
            while m < tv_matrix[k].0.len()
                invariant
                    k < tv_matrix@.len(),
                    m <= tv_matrix@[k as int].0@.len(),
                    row == tv_matrix@[k as int].0@.map_values(|t: TypedVar| t@),
                    tvs@.map_values(|t: TypedVar| t@) == dv.tvs.drop_first() + row.take(m as int),
                decreases tv_matrix@[k as int].0@.len() - m,
            {
                let ghost before = tvs@.map_values(|t: TypedVar| t@);
                tvs.push(copy_tv(&tv_matrix[k].0[m]));
                proof {
                    assert(tvs@.map_values(|t: TypedVar| t@) =~= before.push(row[m as int]));
                    assert(row.take(m + 1) =~= row.take(m as int).push(row[m as int]));
                    assert(dv.tvs.drop_first() + row.take(m + 1) =~= (dv.tvs.drop_first() + row.take(m as int)).push(row[m as int]));
                }
                m = m + 1;
            }
            proof {
                assert(row.take(row.len() as int) =~= row);
            }
            let d = Deduction { subst: tv_matrix[k].1.clone(), root: copy_value(&self.root), tv_queue: tvs };
            proof {
                assert(deduction_view(d).tvs == want[k as int].tvs);
                assert(deduction_view(d) == want[k as int]);
            }
            deduction_queue.push(d);
            k = k + 1;
        }
        let r = Ok(DeductionStep::More(deduction_queue));
        proof {
            assert(deductions_view(deduction_queue@) =~= want);
        }
        r
    }
}

impl Module {
    /// A search for a proof of `value`: one deduction, under the bindings
    /// `subst`, of a fresh typed variable named `root` of that type.
    pub fn proving(&self, value: &Value, subst: &Subst) -> (p: Proving)
        ensures
            p@.len() == 1,
            p@[0].subst == subst@,
            (p@[0].root matches ValueView::TypedVar(t) && t.name == "root"@ && *t.ty == value@ && t.id is Uuid
                && p@[0].tvs == seq![t]),
    {
        let root_tv = new_tv("root", value);
        let mut tv_queue: Vec<TypedVar> = Vec::new();
        tv_queue.push(copy_tv(&root_tv));
        let deduction = Deduction { subst: subst.clone(), root: Value::TypedVar(root_tv), tv_queue };
        let mut deduction_queue: Vec<Deduction> = Vec::new();
        deduction_queue.push(deduction);
        let p = Proving { deduction_queue };
        proof {
            reveal_strlit("root");
            assert(p@[0].tvs =~= seq![tv_view(root_tv)]);
        }
        p
    }
}

impl Proving {
    /// One step of the first deduction: `None` where there is none; its
    /// proof, or the deductions that carry it on, put after the others.
    pub fn step(&mut self, module: &Module) -> (r: Result<Option<DeductionStep>, ErrorInCtx>)
        ensures
            pstep_rel(*module, old(self)@, final(self)@, pstep_view(r)),
            old(self)@.len() == 0 ==> (r matches Ok(None) && final(self)@ == old(self)@),
            old(self)@.len() > 0 ==> match r {
                Ok(Some(DeductionStep::Qed(q))) => old(self)@[0].tvs.len() == 0
                    && qed_view(q) == (QedView { subst: old(self)@[0].subst, root: old(self)@[0].root })
                    && final(self)@ == old(self)@.drop_first(),
                Ok(Some(DeductionStep::More(ds))) => old(self)@[0].tvs.len() > 0
                    && final(self)@ == old(self)@.drop_first() + deductions_view(ds@),
                Ok(None) => false,
                Err(_) => final(self)@ == old(self)@.drop_first(),
            },
    {
        if self.deduction_queue.len() == 0 {
            return Ok(None);
        }
        let ghost before = self.deduction_queue@;
        let deduction = self.deduction_queue.remove(0);
        proof {
            assert(deductions_view(self.deduction_queue@) =~= deductions_view(before).drop_first());
        }
        let ghost d0 = deduction_view(deduction);
        let st = deduction.step(module);
        proof {
            assert(ded_step_rel(*module, d0, step_result_view(st)));
            assert(d0 == deductions_view(before)[0]);
        }
        match st {
            Ok(DeductionStep::Qed(q)) => {
                proof {
                    assert(deductions_view(self.deduction_queue@) =~= deductions_view(before).drop_first() + Seq::<DeductionView>::empty());
                }
                Ok(Some(DeductionStep::Qed(q)))
            },
            Ok(DeductionStep::More(ds)) => {
                let ghost mid = self.deduction_queue@;
                let copies = copy_deductions(&ds);
                let mut i: usize = 0;
                while i < copies.len()
                    invariant
                        i <= copies@.len(),
                        deductions_view(copies@) == deductions_view(ds@),
                        deductions_view(self.deduction_queue@) == deductions_view(mid) + deductions_view(copies@.take(i as int)),
                    decreases copies@.len() - i,
                {
                    let d = copy_deduction(&copies[i]);
                    let ghost q0 = self.deduction_queue@;
                    self.deduction_queue.push(d);
                    proof {
                        assert(deductions_view(self.deduction_queue@) =~= deductions_view(q0).push(deduction_view(d)));
                        assert(deductions_view(copies@.take(i + 1)) =~= deductions_view(copies@.take(i as int)).push(deduction_view(copies@[i as int])));
                    }
                    i = i + 1;
                }
                proof {
                    assert(copies@.take(copies@.len() as int) =~= copies@);
                }
                Ok(Some(DeductionStep::More(ds)))
            },
            Err(e) => Err(e),
        }
    }
}

/// The view of the result of a step of a search, `None` for an error.
pub open spec fn pstep_view(r: Result<Option<DeductionStep>, ErrorInCtx>) -> Option<Option<StepView>> {
    match r {
        Ok(Some(s)) => Some(Some(step_view(s))),
        Ok(None) => Some(None),
        Err(_) => None,
    }
}

/// One step of a search from the deductions `q` to `q2`, with the result
/// `r` (`None` for an error): with none under way, nothing and `q` stays;
/// else the first deduction takes a step (see `ded_step_rel`), and the
/// deductions it gives go after the others.
pub open spec fn pstep_rel(m: Module, q: Seq<DeductionView>, q2: Seq<DeductionView>, r: Option<Option<StepView>>) -> bool {
    if q.len() == 0 {
        r == Some(None::<StepView>) && q2 == q
    } else {
        match r {
            None => ded_step_rel(m, q[0], None) && q2 == q.drop_first(),
            Some(None) => false,
            Some(Some(s)) => ded_step_rel(m, q[0], Some(s)) && q2 == q.drop_first() + match s {
                StepView::Qed(_) => Seq::<DeductionView>::empty(),
                StepView::More(ds) => ds,
            },
        }
    }
}

/// Looking for the next proof from the deductions `q` with `b` steps
/// left: with none under way, nothing; with no step left, an error; else
/// a step (see `pstep_rel`), which ends the search where it gives a proof
/// or an error, and else goes on.  `q2` and `b2` are the deductions and
/// the steps left at the end, `r` the result (`None` for an error).
pub open spec fn next_rel(m: Module, q: Seq<DeductionView>, b: nat, q2: Seq<DeductionView>, b2: nat, r: Option<Option<QedView>>) -> bool
    decreases b, 1nat,
{
    if q.len() == 0 {
        r == Some(None::<QedView>) && q2 == q && b2 == b
    } else if b == 0 {
        r is None && q2 == q && b2 == b
    } else {
        exists|q1: Seq<DeductionView>, s: Option<Option<StepView>>| #[trigger] pstep_rel(m, q, q1, s)
            && next_after(m, q1, (b - 1) as nat, s, q2, b2, r)
    }
}

/// `next_rel` after a step that gave `s` and left `q1` and `b1`.
pub open spec fn next_after(m: Module, q1: Seq<DeductionView>, b1: nat, s: Option<Option<StepView>>, q2: Seq<DeductionView>,
    b2: nat, r: Option<Option<QedView>>) -> bool
    decreases b1, 2nat,
{
    match s {
        None => r is None && q2 == q1 && b2 == b1,
        Some(Some(StepView::Qed(x))) => r == Some(Some(x)) && q2 == q1 && b2 == b1,
        Some(Some(StepView::More(_))) => next_rel(m, q1, b1, q2, b2, r),
        Some(None) => false,
    }
}

/// The view of the result of looking for the next proof.
pub open spec fn next_result_view(r: Result<Option<Qed>, ErrorInCtx>) -> Option<Option<QedView>> {
    match r {
        Ok(Some(q)) => Some(Some(qed_view(q))),
        Ok(None) => Some(None),
        Err(_) => None,
    }
}

/// The view of the proofs taken, `None` for an error.
pub open spec fn take_result_view(r: Result<Vec<Qed>, ErrorInCtx>) -> Option<Seq<QedView>> {
    match r {
        Ok(v) => Some(qeds_view(v@)),
        Err(_) => None,
    }
}

/// The proofs found by looking for the next one `n` times from `q` with
/// `b` steps left, in the order found; `None` where a look ends in an
/// error.
pub open spec fn take_rel(m: Module, q: Seq<DeductionView>, b: nat, n: nat, q2: Seq<DeductionView>, b2: nat, r: Option<Seq<QedView>>) -> bool
    decreases n, 1nat,
{
    if n == 0 {
        r == Some(Seq::<QedView>::empty()) && q2 == q && b2 == b
    } else {
        exists|q1: Seq<DeductionView>, b1: nat, r1: Option<Option<QedView>>| #[trigger] next_rel(m, q, b, q1, b1, r1)
            && take_after(m, q1, b1, n, r1, q2, b2, r)
    }
}

/// `take_rel` after the first look ended at `q1` and `b1` with `r1`.
pub open spec fn take_after(m: Module, q1: Seq<DeductionView>, b1: nat, n: nat, r1: Option<Option<QedView>>,
    q2: Seq<DeductionView>, b2: nat, r: Option<Seq<QedView>>) -> bool
    decreases n, 0nat,
{
    if n == 0 {
        false
    } else {
        match r1 {
            None => r is None && q2 == q1 && b2 == b1,
            Some(None) => take_rel(m, q1, b1, (n - 1) as nat, q2, b2, r),
            Some(Some(qd)) => match r {
                None => take_rel(m, q1, b1, (n - 1) as nat, q2, b2, None),
                Some(v) => v.len() > 0 && v[0] == qd && take_rel(m, q1, b1, (n - 1) as nat, q2, b2, Some(v.drop_first())),
            },
        }
    }
}

proof fn lemma_take_after_found(m: Module, q1: Seq<DeductionView>, b1: nat, n: nat, x: Option<QedView>,
    q2: Seq<DeductionView>, b2: nat, r2: Option<Seq<QedView>>)
    requires
        n > 0,
        take_rel(m, q1, b1, (n - 1) as nat, q2, b2, r2),
    ensures
        take_after(m, q1, b1, n, Some(x), q2, b2, prepend_found(x, r2)),
{
    match (x, r2) {
        (Some(qd), Some(v)) => {
            assert((seq![qd] + v).drop_first() =~= v);
        },
        _ => {},
    }
}

/// The proofs `r2`, with the proof `x` before them where there is one.
pub open spec fn prepend_found(x: Option<QedView>, r2: Option<Seq<QedView>>) -> Option<Seq<QedView>> {
    match r2 {
        None => None,
        Some(v) => Some(match x {
            Some(q) => seq![q] + v,
            None => v,
        }),
    }
}

/// The proofs `r2` after those of `v`.
pub open spec fn prepend_all(v: Seq<QedView>, r2: Option<Seq<QedView>>) -> Option<Seq<QedView>> {
    match r2 {
        None => None,
        Some(x) => Some(v + x),
    }
}

/// Taking `k` steps of a search from `q` to `q2`: `ok` where none ends in
/// an error.
pub open spec fn steps_rel(m: Module, q: Seq<DeductionView>, k: nat, q2: Seq<DeductionView>, ok: bool) -> bool
    decreases k,
{
    if k == 0 {
        ok && q2 == q
    } else {
        exists|q1: Seq<DeductionView>, s: Option<Option<StepView>>| #[trigger] pstep_rel(m, q, q1, s) && match s {
            None => !ok && q2 == q1,
            Some(_) => steps_rel(m, q1, (k - 1) as nat, q2, ok),
        }
    }
}

/// Taking `k` steps of a search from `q`, then one more, to `q2`, with
/// the result `r` of the last (`None` for an error, which may come from
/// one of the `k` steps).
pub open spec fn step_many_rel(m: Module, q: Seq<DeductionView>, k: nat, q2: Seq<DeductionView>, r: Option<Option<StepView>>) -> bool {
    (exists|q1: Seq<DeductionView>| #[trigger] steps_rel(m, q, k, q1, true) && pstep_rel(m, q1, q2, r))
        || (r is None && steps_rel(m, q, k, q2, false))
}

/// Whether every deduction of `q` is to prove `root`, under bindings that
/// extend `bs`.
pub open spec fn rooted(q: Seq<DeductionView>, root: ValueView, bs: Seq<BindView>) -> bool {
    forall|i: int| 0 <= i < q.len() ==> (#[trigger] q[i]).root == root && extends(bs, q[i].subst)
}

proof fn lemma_extends_prepend(bs: Seq<BindView>, s: Seq<BindView>)
    ensures
        extends(bs, s + bs),
{
    let c = s + bs;
    assert(c.subrange(c.len() - bs.len(), c.len() as int) =~= bs);
}

proof fn lemma_fulfill_disj_extends(m: Module, tv: TvView, bs: Seq<BindView>, names: Seq<Seq<char>>,
    alts: Seq<(Seq<TvView>, Seq<BindView>)>)
    requires
        fulfill_disj(m, tv, bs, names, Some(alts)),
    ensures
        forall|i: int| 0 <= i < alts.len() ==> extends(bs, (#[trigger] alts[i]).1),
    decreases names.len(),
{
    if names.len() > 0 {
        let (x, nt) = choose|x: Option<(ValueView, Seq<BindView>)>, nt: TvView|
            #![trigger prop_outcome(m, names[0], x), fresh_tv_named(tv.name, nt)]
            prop_outcome(m, names[0], x) && fresh_tv_named(tv.name, nt) && match x {
                None => Some(alts) is None,
                Some((v, s)) => *nt.ty == v && match unify_fuel(s + bs, ValueView::TypedVar(tv), ValueView::TypedVar(nt), usize::MAX as nat) {
                    None => Some(alts) is None,
                    Some(None) => fulfill_disj(m, tv, bs, names.drop_first(), Some(alts)),
                    Some(Some(s2)) => alts.len() > 0 && alts[0] == (seq![nt], s2)
                        && fulfill_disj(m, tv, bs, names.drop_first(), Some(alts.drop_first())),
                },
            };
        let (v, s) = x->Some_0;
        match unify_fuel(s + bs, ValueView::TypedVar(tv), ValueView::TypedVar(nt), usize::MAX as nat) {
            Some(None) => {
                lemma_fulfill_disj_extends(m, tv, bs, names.drop_first(), alts);
            },
            Some(Some(s2)) => {
                lemma_fulfill_disj_extends(m, tv, bs, names.drop_first(), alts.drop_first());
                lemma_unify_extends(s + bs, ValueView::TypedVar(tv), ValueView::TypedVar(nt), usize::MAX as nat);
                lemma_extends_prepend(bs, s);
                lemma_extends_trans(bs, s + bs, s2);
                assert forall|i: int| 0 <= i < alts.len() implies extends(bs, (#[trigger] alts[i]).1) by {
                    if i > 0 {
                        assert(alts[i] == alts.drop_first()[i - 1]);
                    }
                }
            },
            None => {},
        }
    }
}

proof fn lemma_fulfill_extends(m: Module, tv: TvView, bs: Seq<BindView>, alts: Seq<(Seq<TvView>, Seq<BindView>)>)
    requires
        fulfill_rel(m, tv, bs, Some(alts)),
    ensures
        forall|i: int| 0 <= i < alts.len() ==> extends(bs, (#[trigger] alts[i]).1),
{
    match walk_fuel(bs, *tv.ty, usize::MAX as nat) {
        ValueView::Disj(_, names, _) => {
            lemma_fulfill_disj_extends(m, tv, bs, names, alts);
        },
        ValueView::Conj(cname, _) => {
            let x = choose|x: Option<(Seq<char>, Seq<(Seq<char>, Option<ValueView>)>, Seq<BindView>)>|
                #[trigger] data_outcome(cname, x) && conj_fill(tv, bs, x, Some(alts));
            let (n, es, s) = x->Some_0;
            match unify_fuel(s + bs, ValueView::TypedVar(tv), ValueView::Data(n, es), usize::MAX as nat) {
                Some(Some(s2)) => {
                    lemma_unify_extends(s + bs, ValueView::TypedVar(tv), ValueView::Data(n, es), usize::MAX as nat);
                    lemma_extends_prepend(bs, s);
                    lemma_extends_trans(bs, s + bs, s2);
                },
                _ => {},
            }
        },
        _ => {},
    }
}

proof fn lemma_pstep_rooted(m: Module, q: Seq<DeductionView>, q1: Seq<DeductionView>, s: Option<Option<StepView>>,
    root: ValueView, bs: Seq<BindView>)
    requires
        pstep_rel(m, q, q1, s),
        rooted(q, root, bs),
    ensures
        rooted(q1, root, bs),
        s matches Some(Some(StepView::Qed(qd))) ==> qd.root == root && extends(bs, qd.subst),
{
    if q.len() > 0 {
        let d = q[0];
        assert(d.root == root && extends(bs, d.subst));
        match s {
            Some(Some(st)) => {
                if d.tvs.len() > 0 {
                    let alts = choose|alts: Option<Seq<(Seq<TvView>, Seq<BindView>)>>| #[trigger] fulfill_rel(m, d.tvs[0], d.subst, alts)
                        && match alts {
                            None => Some(st) is None,
                            Some(a) => Some(st) == Some(StepView::More(carried(d, a))),
                        };
                    let a = alts->Some_0;
                    lemma_fulfill_extends(m, d.tvs[0], d.subst, a);
                    let ds = carried(d, a);
                    assert forall|i: int| 0 <= i < q1.len() implies (#[trigger] q1[i]).root == root && extends(bs, q1[i].subst) by {
                        if i < q.len() - 1 {
                            assert(q1[i] == q[i + 1]);
                        } else {
                            let k = i - (q.len() - 1);
                            assert(q1[i] == ds[k]);
                            assert(extends(d.subst, a[k].1));
                            lemma_extends_trans(bs, d.subst, a[k].1);
                        }
                    }
                } else {
                    assert forall|i: int| 0 <= i < q1.len() implies (#[trigger] q1[i]).root == root && extends(bs, q1[i].subst) by {
                        assert(q1[i] == q[i + 1]);
                    }
                }
            },
            _ => {
                assert forall|i: int| 0 <= i < q1.len() implies (#[trigger] q1[i]).root == root && extends(bs, q1[i].subst) by {
                    assert(q1[i] == q[i + 1]);
                }
            },
        }
    }
}

proof fn lemma_next_rooted(m: Module, q: Seq<DeductionView>, b: nat, q2: Seq<DeductionView>, b2: nat, r: Option<Option<QedView>>,
    root: ValueView, bs: Seq<BindView>)
    requires
        next_rel(m, q, b, q2, b2, r),
        rooted(q, root, bs),
    ensures
        rooted(q2, root, bs),
        r matches Some(Some(qd)) ==> qd.root == root && extends(bs, qd.subst),
    decreases b,
{
    if q.len() > 0 && b > 0 {
        let (q1, s) = choose|q1: Seq<DeductionView>, s: Option<Option<StepView>>| #[trigger] pstep_rel(m, q, q1, s)
            && next_after(m, q1, (b - 1) as nat, s, q2, b2, r);
        lemma_pstep_rooted(m, q, q1, s, root, bs);
        match s {
            Some(Some(StepView::More(_))) => {
                lemma_next_rooted(m, q1, (b - 1) as nat, q2, b2, r, root, bs);
            },
            _ => {},
        }
    }
}

proof fn lemma_take_rooted(m: Module, q: Seq<DeductionView>, b: nat, n: nat, q2: Seq<DeductionView>, b2: nat,
    found: Seq<QedView>, root: ValueView, bs: Seq<BindView>)
    requires
        take_rel(m, q, b, n, q2, b2, Some(found)),
        rooted(q, root, bs),
    ensures
        forall|i: int| 0 <= i < found.len() ==> (#[trigger] found[i]).root == root && extends(bs, found[i].subst),
    decreases n,
{
    if n > 0 {
        let (q1, b1, r1) = choose|q1: Seq<DeductionView>, b1: nat, r1: Option<Option<QedView>>| #[trigger] next_rel(m, q, b, q1, b1, r1)
            && take_after(m, q1, b1, n, r1, q2, b2, Some(found));
        lemma_next_rooted(m, q, b, q1, b1, r1, root, bs);
        match r1 {
            Some(None) => {
                lemma_take_rooted(m, q1, b1, (n - 1) as nat, q2, b2, found, root, bs);
            },
            Some(Some(qd)) => {
                lemma_take_rooted(m, q1, b1, (n - 1) as nat, q2, b2, found.drop_first(), root, bs);
                assert forall|i: int| 0 <= i < found.len() implies (#[trigger] found[i]).root == root && extends(bs, found[i].subst) by {
                    if i > 0 {
                        assert(found[i] == found.drop_first()[i - 1]);
                    }
                }
            },
            None => {},
        }
    }
}

/// Every proof that a search finds, from the start `Module::proving` makes
/// for a value (see `initial_proving`), proves the typed variable the
/// search started from, under bindings that extend those it started
/// with; and the proofs come in the order of the breadth-first search
/// (see `take_rel`).
pub proof fn law_search_proves_its_root(m: Module, q: Seq<DeductionView>, v: ValueView, bs: Seq<BindView>, b: nat, n: nat,
    q2: Seq<DeductionView>, b2: nat, found: Seq<QedView>)
    requires
        initial_proving(q, v, bs),
        take_rel(m, q, b, n, q2, b2, Some(found)),
    ensures
        forall|i: int| 0 <= i < found.len() ==> (#[trigger] found[i]).root == q[0].root && extends(bs, found[i].subst),
{
    lemma_extends_refl(bs);
    assert(rooted(q, q[0].root, bs));
    lemma_take_rooted(m, q, b, n, q2, b2, found, q[0].root, bs);
}

/// Which search a definition asks for.
#[derive(Debug, PartialEq, Eq, Clone, Copy, Structural)]
pub enum SearchKind {
    Search,
    Query,
    Assert,
    AssertNot,
    Step,
}

/// What running a definition asks for next: nothing, as it is done with
/// this result; a module read from `url` and named `name`; or a search
/// run on `proving` before `exe_def_finish` ends it.
pub enum ExeAction {
    Done(Result<Option<(String, Obj)>, ErrorInCtx>),
    Load { name: String, url: String },
    Search { kind: SearchKind, name: String, counter: usize, span: Span, var_vec: Vec<Var>, proving: Proving },
}

/// The name of the `index`-th definition where it has none of its own.
pub open spec fn index_name(index: usize) -> Seq<char> {
    seq!['#'] + decimal(index as nat)
}

fn index_name_of(index: usize) -> (s: String)
    ensures
        s@ == index_name(index),
{
    let mut s = String::new();
    push_str(&mut s, "#");
    push_decimal(&mut s, index as u64);
    proof {
        reveal_strlit("#");
    }
    s
}

/// What defining `name` as `o` does to a module `m`, and what comes back.
pub open spec fn defined(m: Seq<(Seq<char>, Option<ObjView>)>, name: Seq<char>, o: ObjView,
    m2: Seq<(Seq<char>, Option<ObjView>)>, r: Result<Option<(String, Obj)>, ErrorInCtx>) -> bool {
    if defines(m, name) {
        r matches Err(e) && e@ == redefine_error(name) && m2 == m
    } else {
        r matches Ok(Some((n, ob))) && n@ == name && obj_view(ob) == o && m2 == m.push((name, Some(o)))
    }
}

/// What `exe_def` does with the `index`-th definition `def` of a program
/// in the module `module`: what it asks for next, `a`, and the objects
/// `m2` of the module after it.
pub open spec fn exe_def_rel(module: Module, index: usize, def: Def, a: ExeAction, m2: Seq<(Seq<char>, Option<ObjView>)>) -> bool {
    match def {
        Def::Obj(name, o) => a matches ExeAction::Done(r) && defined(module@, name@, obj_view(o), m2, r),
        Def::Import(name, url) => a matches ExeAction::Load { name: n, url: u } && n@ == name@ && u@ == url@
            && m2 == module@,
        Def::Note => a matches ExeAction::Done(Ok(None)) && m2 == module@,
        Def::Search(name, c, t) => exe_search_outcome(a, SearchKind::Search, name@, c, module, t, m2),
        Def::NamelessSearch(c, t) => exe_search_outcome(a, SearchKind::Search, index_name(index), c, module, t, m2),
        Def::Query(name, c, t) => exe_search_outcome(a, SearchKind::Query, name@, c, module, t, m2),
        Def::NamelessQuery(c, t) => exe_search_outcome(a, SearchKind::Query, index_name(index), c, module, t, m2),
        Def::Assert(t) => exe_search_outcome(a, SearchKind::Assert, Seq::empty(), 1, module, t, m2),
        Def::AssertNot(t) => exe_search_outcome(a, SearchKind::AssertNot, Seq::empty(), 1, module, t, m2),
        Def::Step(c, t) => exe_search_outcome(a, SearchKind::Step, index_name(index), c, module, t, m2),
    }
}

impl Module {
    fn define_and_give(&mut self, name: String, obj: Obj) -> (r: Result<Option<(String, Obj)>, ErrorInCtx>)
        ensures
            defined(old(self)@, name@, obj_view(obj), final(self)@, r),
    {
        match self.define(name.as_str(), &obj) {
            Ok(()) => Ok(Some((name, obj))),
            Err(e) => Err(e),
        }
    }

    /// Runs the `index`-th definition of a program as far as it can
    /// without a search or a file: an object is defined at once; an
    /// import asks for its module; a search, a query, an assertion or a
    /// run of steps whose term has a value asks for its search, else is
    /// done as it would be on finding nothing (an assertion fails).
    pub fn exe_def(&mut self, index: usize, def: &Def) -> (a: ExeAction)
        ensures
            exe_def_rel(*old(self), index, *def, a, final(self)@),
            !(a is Done) ==> *final(self) == *old(self),
    {
        match def {
            Def::Obj(name, obj) => ExeAction::Done(self.define_and_give(string_from(name.as_str()), copy_obj(obj))),
            Def::Import(name, url) => ExeAction::Load { name: string_from(name.as_str()), url: string_from(url.as_str()) },
            Def::Note => ExeAction::Done(Ok(None)),
            Def::Search(name, counter, term) => self.search_or_empty(SearchKind::Search, string_from(name.as_str()), *counter, term),
            Def::NamelessSearch(counter, term) => self.search_or_empty(SearchKind::Search, index_name_of(index), *counter, term),
            Def::Query(name, counter, term) => self.search_or_empty(SearchKind::Query, string_from(name.as_str()), *counter, term),
            Def::NamelessQuery(counter, term) => self.search_or_empty(SearchKind::Query, index_name_of(index), *counter, term),
            Def::Assert(term) => self.search_or_empty(SearchKind::Assert, String::new(), 1, term),
            Def::AssertNot(term) => self.search_or_empty(SearchKind::AssertNot, String::new(), 1, term),
            Def::Step(counter, term) => self.search_or_empty(SearchKind::Step, index_name_of(index), *counter, term),
        }
    }

    /// Whether the module names an object `name`.
    fn taken(&self, name: &str) -> (b: bool)
        ensures
            b == defines(self@, name@),
    {
        proof {
            lemma_dic_find(self.obj_dic.entries@, name@);
            lemma_obj_entries_view(self.obj_dic.entries@);
        }
        let b = self.obj_dic.has_name(name);
        proof {
            if b {
                let i = dic_find(self.obj_dic.entries@, name@)->Some_0;
                assert(self@[i].0 == name@);
            } else if defines(self@, name@) {
                let i = choose|i: int| 0 <= i < self@.len() && #[trigger] self@[i].0 == name@;
                assert(self.obj_dic.entries@[i].0@ == name@);
            }
        }
        b
    }

    fn search_or_empty(&mut self, kind: SearchKind, name: String, counter: usize, term: &Term) -> (a: ExeAction)
        ensures
            exe_search_outcome(a, kind, name@, counter, *old(self), *term, final(self)@),
            !(a is Done) ==> *final(self) == *old(self),
    {
        let span = term.span();
        if (kind == SearchKind::Search || kind == SearchKind::Query) && self.taken(name.as_str()) {
            let obj = if kind == SearchKind::Query {
                let var_vec: Vec<Var> = Vec::new();
                let subst_vec: Vec<Subst> = Vec::new();
                proof {
                    assert(var_vec@.map_values(|x: Var| x@) =~= Seq::<VarView>::empty());
                    assert(subst_vec@.map_values(|s: Subst| s@) =~= Seq::<Seq<BindView>>::empty());
                }
                Obj::QueryRes(QueryRes { var_vec, subst_vec })
            } else {
                let qed_vec: Vec<Qed> = Vec::new();
                proof {
                    assert(qeds_view(qed_vec@) =~= Seq::<QedView>::empty());
                }
                Obj::SearchRes(SearchRes { qed_vec })
            };
            return ExeAction::Done(self.define_and_give(name, obj));
        }
        if kind == SearchKind::Query {
            match new_value_and_var_vec(self, term) {
                Ok((value, subst, var_vec)) => {
                    let proving = self.proving(&value, &subst);
                    proof {
                        assert(initial_proving(proving@, value@, subst@));
                    }
                    let ghost nm = name@;
                    let a = ExeAction::Search { kind, name, counter, span, var_vec, proving };
                    proof {
                        assert(exists|v: Value, bs: Seq<BindView>| (kind != SearchKind::Query ==> value_shape(term@, Seq::empty(), Seq::empty(), false, Ok(v)))
                            && #[trigger] initial_proving(a->proving@, v@, bs)) by {
                            assert(initial_proving(a->proving@, value@, subst@));
                        }
                        assert(exe_search_outcome(a, kind, nm, counter, *old(self), *term, self@));
                    }
                    a
                },
                Err(_) => {
                    let var_vec: Vec<Var> = Vec::new();
                    let subst_vec: Vec<Subst> = Vec::new();
                    proof {
                        assert(var_vec@.map_values(|x: Var| x@) =~= Seq::<VarView>::empty());
                        assert(subst_vec@.map_values(|s: Subst| s@) =~= Seq::<Seq<BindView>>::empty());
                    }
                    let obj = Obj::QueryRes(QueryRes { var_vec, subst_vec });
                    ExeAction::Done(self.define_and_give(name, obj))
                },
            }
        } else {
            match new_value(self, term) {
                Ok((value, subst)) => {
                    let proving = self.proving(&value, &subst);
                    proof {
                        assert(initial_proving(proving@, value@, subst@));
                    }
                    let var_vec: Vec<Var> = Vec::new();
                    let ghost nm = name@;
                    let a = ExeAction::Search { kind, name, counter, span, var_vec, proving };
                    proof {
                        assert(exists|v: Value, bs: Seq<BindView>| (kind != SearchKind::Query ==> value_shape(term@, Seq::empty(), Seq::empty(), false, Ok(v)))
                            && #[trigger] initial_proving(a->proving@, v@, bs)) by {
                            assert(initial_proving(a->proving@, value@, subst@));
                        }
                        assert(exe_search_outcome(a, kind, nm, counter, *old(self), *term, self@));
                    }
                    a
                },
                Err(_) => {
                    if kind == SearchKind::Search {
                        let qed_vec: Vec<Qed> = Vec::new();
                        proof {
                            assert(qeds_view(qed_vec@) =~= Seq::<QedView>::empty());
                        }
                        let obj = Obj::SearchRes(SearchRes { qed_vec });
                        ExeAction::Done(self.define_and_give(name, obj))
                    } else if kind == SearchKind::Assert {
                        let mut lines: Vec<String> = Vec::new();
                        lines.push(string_from("can not get value from term"));
                        let e = runtime_error("assert! fail", lines, Some(span));
                        proof {
                            reveal_strlit("can not get value from term");
                            assert(strings_view(lines@) =~= seq!["can not get value from term"@]);
                        }
                        ExeAction::Done(Err(e))
                    } else {
                        ExeAction::Done(Ok(None))
                    }
                },
            }
        }
    }
}

/// What a search or query that found nothing defines.
pub open spec fn empty_result(kind: SearchKind) -> ObjView {
    if kind == SearchKind::Query {
        ObjView::QueryRes(Seq::empty(), Seq::empty())
    } else {
        ObjView::SearchRes(Seq::empty())
    }
}

/// The error of an assertion that failed.
pub open spec fn assert_error(head: Seq<char>, lines: Seq<Seq<char>>, span: Span) -> ErrorInCtxView {
    ErrorInCtxView {
        msg: ErrorMsgView { head: Some(head), lines },
        infos: Seq::empty(),
        notes: Seq::empty(),
        span: Some(span),
    }
}

/// Whether `p` is the search `Module::proving` starts for the value `v`
/// under the bindings `bs`.
pub open spec fn initial_proving(p: Seq<DeductionView>, v: ValueView, bs: Seq<BindView>) -> bool {
    &&& p.len() == 1
    &&& p[0].subst == bs
    &&& p[0].root matches ValueView::TypedVar(t) && t.name == "root"@ && *t.ty == v && t.id is Uuid && p[0].tvs == seq![t]
}

/// What `exe_def` does with a definition that asks for a search of
/// `kind` named `name` on the term `t` in the module `module`: a search
/// or a query under a name already taken fails with the error of
/// defining it again; else, where the term has a value, a search of that
/// kind, name and count on a fresh search for a proof of it, the module
/// unchanged (a query with the term's variables, in the order first
/// met); where it has none, a search or query defines its empty result,
/// an assertion fails, and the others are done.  `term_valued` says which
/// of the two holds where the module settles it.
pub open spec fn exe_search_outcome(a: ExeAction, kind: SearchKind, name: Seq<char>, counter: usize,
    module: Module, t: Term, m2: Seq<(Seq<char>, Option<ObjView>)>) -> bool {
    let m = module@;
    let named = kind == SearchKind::Search || kind == SearchKind::Query;
    match a {
        ExeAction::Search { kind: k, name: n, counter: c, proving, var_vec, .. } => k == kind && n@ == name && c == counter
            && m2 == m
            && !(named && defines(m, name))
            && term_valued(module, t) != Some(false)
            && (exists|v: Value, bs: Seq<BindView>| (kind != SearchKind::Query ==> value_shape(t@, Seq::empty(), Seq::empty(), false, Ok(v)))
                && #[trigger] initial_proving(proving@, v@, bs))
            && (kind == SearchKind::Query ==> var_names(var_vec@) == collect_term(Seq::empty(), t@)),
        ExeAction::Done(r) => (if named && defines(m, name) { true } else { term_valued(module, t) != Some(true) })
            && if named {
                defined(m, name, empty_result(kind), m2, r)
            } else if kind == SearchKind::Assert {
                r matches Err(e) && e@.msg.head == Some("assert! fail"@) && e@.msg.lines == seq!["can not get value from term"@] && m2 == m
            } else {
                r matches Ok(None) && m2 == m
            },
        ExeAction::Load { .. } => false,
    }
}

/// What a search of `kind` that found `found`, with `last` its last step
/// and `queue` the deductions left, defines.
pub open spec fn search_result(kind: SearchKind, vars: Seq<VarView>, found: Seq<QedView>, last: Option<StepView>,
    queue: Seq<DeductionView>) -> ObjView {
    if kind == SearchKind::Query {
        ObjView::QueryRes(vars, found.map_values(|q: QedView| q.subst))
    } else if kind == SearchKind::Step {
        ObjView::StepRes(last, queue)
    } else {
        ObjView::SearchRes(found)
    }
}

/// What ending the search `action` with the proofs `found` and the last
/// step `last` does to a module `m`, and what comes back: a search, a
/// query or a run of steps defines what it found; an assertion fails
/// where nothing was found, and one that nothing is found where
/// something was.
pub open spec fn finish_rel(m: Seq<(Seq<char>, Option<ObjView>)>, action: ExeAction, found: Seq<QedView>, last: Option<StepView>,
    queue: Seq<DeductionView>, m2: Seq<(Seq<char>, Option<ObjView>)>, r: Result<Option<(String, Obj)>, ErrorInCtx>) -> bool {
    match action {
        ExeAction::Done(r0) => r == r0 && m2 == m,
        ExeAction::Search { kind, name, span, var_vec, .. } => if kind == SearchKind::Assert {
            if found.len() == 0 {
                r matches Err(e) && e@ == assert_error("assert! fail"@, Seq::empty(), span) && m2 == m
            } else {
                r matches Ok(None) && m2 == m
            }
        } else if kind == SearchKind::AssertNot {
            if found.len() > 0 {
                r matches Err(e) && e@ == assert_error("assert-not! fail"@, Seq::empty(), span) && m2 == m
            } else {
                r matches Ok(None) && m2 == m
            }
        } else {
            defined(m, name@, search_result(kind, var_vec@.map_values(|x: Var| x@), found, last, queue), m2, r)
        },
        ExeAction::Load { .. } => false,
    }
}

impl Module {
    /// Ends the search that `exe_def` asked for, with the proofs `found`
    /// and, for a run of steps, `last`, its last step: a search, a query or
    /// a run of steps defines what it found; an assertion fails where
    /// nothing was found, and one that nothing is found where something
    /// was.
    pub fn exe_def_finish(&mut self, action: ExeAction, found: Vec<Qed>, last: Option<DeductionStep>)
        -> (r: Result<Option<(String, Obj)>, ErrorInCtx>)
        requires
            !(action is Load),
        ensures
            finish_rel(old(self)@, action, qeds_view(found@), opt_step_view(last), match action {
                ExeAction::Search { proving, .. } => proving@,
                _ => Seq::empty(),
            }, final(self)@, r),
    {
        match action {
            ExeAction::Done(r) => r,
            ExeAction::Load { .. } => Ok(None),
            ExeAction::Search { kind, name, span, var_vec, proving, .. } => {
                if kind == SearchKind::Assert {
                    if found.len() == 0 {
                        let e = runtime_error("assert! fail", Vec::new(), Some(span));
                        proof {
                            assert(strings_view(Seq::<String>::empty()) =~= Seq::<Seq<char>>::empty());
                        }
                        Err(e)
                    } else {
                        Ok(None)
                    }
                } else if kind == SearchKind::AssertNot {
                    if found.len() > 0 {
                        let e = runtime_error("assert-not! fail", Vec::new(), Some(span));
                        proof {
                            assert(strings_view(Seq::<String>::empty()) =~= Seq::<Seq<char>>::empty());
                        }
                        Err(e)
                    } else {
                        Ok(None)
                    }
                } else if kind == SearchKind::Query {
                    let ghost vv = var_vec@.map_values(|x: Var| x@);
                    let mut subst_vec: Vec<Subst> = Vec::new();
                    let mut i: usize = 0;
                    while i < found.len()
                        invariant
                            i <= found@.len(),
                            subst_vec@.len() == i,
                            forall|j: int| 0 <= j < i ==> #[trigger] subst_vec@[j]@ == found@[j].subst@,
                        decreases found@.len() - i,
                    {
                        subst_vec.push(found[i].subst.clone());
                        i = i + 1;
                    }
                    let obj = Obj::QueryRes(QueryRes { var_vec, subst_vec });
                    proof {
                        assert(subst_vec@.map_values(|s: Subst| s@) =~= qeds_view(found@).map_values(|q: QedView| q.subst));
                    }
                    self.define_and_give(name, obj)
                } else if kind == SearchKind::Step {
                    let obj = Obj::StepRes(StepRes { step: last, deduction_queue: proving.deduction_queue });
                    self.define_and_give(name, obj)
                } else {
                    let obj = Obj::SearchRes(SearchRes { qed_vec: found });
                    self.define_and_give(name, obj)
                }
            },
        }
    }

    /// Names the module read for an import; the error of reading it where
    /// that failed.
    pub fn exe_import(&mut self, name: &str, loaded: Result<Module, ErrorInCtx>) -> (r: Result<Option<(String, Obj)>, ErrorInCtx>)
        ensures
            match loaded {
                Err(e) => r == Err::<Option<(String, Obj)>, ErrorInCtx>(e) && final(self)@ == old(self)@,
                Ok(m) => defined(old(self)@, name@, ObjView::Module(m@), final(self)@, r),
            },
    {
        match loaded {
            Err(e) => Err(e),
            Ok(m) => self.define_and_give(string_from(name), Obj::Module(m)),
        }
    }
}

/// The names of the module's entries that name propositions, in order.
pub open spec fn prop_names(m: Seq<(Seq<char>, Option<ObjView>)>) -> Seq<Seq<char>>
    decreases m.len(),
{
    if m.len() == 0 {
        Seq::empty()
    } else if prop_name_symbol(m.last().0) {
        prop_names(m.drop_last()).push(m.last().0)
    } else {
        prop_names(m.drop_last())
    }
}

/// The error of a proposition that has no proof.
pub open spec fn prop_check_error(name: Seq<char>) -> ErrorInCtxView {
    ErrorInCtxView {
        msg: ErrorMsgView { head: Some("Module::prop_check"@), lines: seq!["fail on prop : "@ + name] },
        infos: Seq::empty(),
        notes: Seq::empty(),
        span: None,
    }
}

impl Module {
    /// The searches that checking the module's propositions runs: for each
    /// name of a proposition, in order, a search for a proof of it with no
    /// arguments; the first error of giving one a value.  Each must find a
    /// proof.
    pub fn prop_checks(&self) -> (r: Result<Vec<(String, Proving)>, ErrorInCtx>)
        ensures
            r matches Ok(v) ==> v@.map_values(|p: (String, Proving)| p.0@) == prop_names(self@)
                && forall|i: int| 0 <= i < v@.len() ==> (#[trigger] v@[i]).1@.len() == 1,
    {
        let es = &self.obj_dic.entries;
        let mut out: Vec<(String, Proving)> = Vec::new();
        let mut i: usize = 0;
        proof {
            lemma_obj_entries_view(es@);
            assert(self@.take(0) =~= Seq::<(Seq<char>, Option<ObjView>)>::empty());
            assert(out@.map_values(|p: (String, Proving)| p.0@) =~= Seq::<Seq<char>>::empty());
        }
        while i < es.len()
            invariant
                i <= es@.len(),
                es == &self.obj_dic.entries,
                obj_entries_view(es@).len() == es@.len(),
                forall|j: int| 0 <= j < es@.len() ==> #[trigger] obj_entries_view(es@)[j].0 == es@[j].0@,
                out@.map_values(|p: (String, Proving)| p.0@) == prop_names(self@.take(i as int)),
                forall|j: int| 0 <= j < out@.len() ==> (#[trigger] out@[j]).1@.len() == 1,
            decreases es@.len() - i,
        {
            let name = es[i].0.as_str();
            let ghost before = out@;
            proof {
                assert(self@.take(i + 1).drop_last() =~= self@.take(i as int));
                assert(self@.take(i + 1).last() == self@[i as int]);
            }
            if prop_name_symbol_p(name) {
                let span = Span { lo: 0, hi: 0 };
                let prop_term = Term::Prop(span, string_from(name), Arg::Rec(Vec::new()));
                let (value, subst) = match new_value(self, &prop_term) {
                    Ok(x) => x,
                    Err(e) => {
                        return Err(e);
                    },
                };
                let proving = self.proving(&value, &subst);
                out.push((string_from(name), proving));
                proof {
                    assert(out@.map_values(|p: (String, Proving)| p.0@) =~= before.map_values(|p: (String, Proving)| p.0@).push(name@));
                }
            }
            i = i + 1;
        }
        proof {
            assert(self@.take(es@.len() as int) =~= self@);
        }
        Ok(out)
    }
}

/// The error of the proposition `name` that has no proof.
pub fn prop_check_fail(name: &str) -> (e: ErrorInCtx)
    ensures
        e@ == prop_check_error(name@),
{
    let mut lines: Vec<String> = Vec::new();
    lines.push(labeled_line("fail on prop : ", name));
    let e = runtime_error("Module::prop_check", lines, None);
    proof {
        assert(strings_view(lines@) =~= seq!["fail on prop : "@ + name@]);
    }
    e
}

/// The error of a search that takes more steps than the runtime allows.
fn budget_error() -> (e: ErrorInCtx) {
    let mut lines: Vec<String> = Vec::new();
    lines.push(string_from("the search takes more steps than the runtime allows"));
    runtime_error("Proving::next_qed", lines, None)
}

impl Proving {
    /// Steps until a proof is found, each step taken out of `budget` (see
    /// `next_rel`): the proof, or `None` where the deductions run out.
    pub fn next_qed_within(&mut self, module: &Module, budget: &mut usize) -> (r: Result<Option<Qed>, ErrorInCtx>)
        ensures
            next_rel(*module, old(self)@, *old(budget) as nat, final(self)@, *final(budget) as nat, next_result_view(r)),
            *final(budget) <= *old(budget),
    {
        let ghost m = *module;
        let ghost q0 = self@;
        let ghost b0 = *budget as nat;
        loop
            invariant
                *budget <= *old(budget),
                m == *module,
                q0 == old(self)@,
                b0 == *old(budget) as nat,
                forall|q2: Seq<DeductionView>, b2: nat, r2: Option<Option<QedView>>|
                    #[trigger] next_rel(m, self@, *budget as nat, q2, b2, r2) ==> next_rel(m, q0, b0, q2, b2, r2),
            decreases *budget,
        {
            let ghost cur = self@;
            let ghost b = *budget as nat;
            if self.deduction_queue.len() == 0 {
                proof {
                    assert(next_rel(m, cur, b, cur, b, Some(None::<QedView>)));
                }
                return Ok(None);
            }
            if *budget == 0 {
                let r = Err(budget_error());
                proof {
                    assert(next_rel(m, cur, b, cur, b, next_result_view(r)));
                }
                return r;
            }
            *budget = *budget - 1;
            let st = self.step(module);
            let ghost sv = pstep_view(st);
            let ghost q1 = self@;
            proof {
                assert(pstep_rel(m, cur, q1, sv));
            }
            match st {
                Ok(None) => {
                    proof {
                        assert(false);
                    }
                    return Ok(None);
                },
                Ok(Some(DeductionStep::Qed(q))) => {
                    let r = Ok(Some(q));
                    proof {
                        assert(next_after(m, q1, *budget as nat, sv, q1, *budget as nat, next_result_view(r)));
                        assert(next_rel(m, cur, b, q1, *budget as nat, next_result_view(r)));
                    }
                    return r;
                },
                Ok(Some(DeductionStep::More(_))) => {
                    proof {
                        assert forall|q2: Seq<DeductionView>, b2: nat, r2: Option<Option<QedView>>|
                            #[trigger] next_rel(m, self@, *budget as nat, q2, b2, r2)
                            implies next_rel(m, q0, b0, q2, b2, r2) by {
                            assert(next_after(m, q1, *budget as nat, sv, q2, b2, r2));
                            assert(next_rel(m, cur, b, q2, b2, r2));
                        }
                    }
                },
                Err(e) => {
                    let r = Err(e);
                    proof {
                        assert(next_after(m, q1, *budget as nat, sv, q1, *budget as nat, next_result_view(r)));
                        assert(next_rel(m, cur, b, q1, *budget as nat, next_result_view(r)));
                    }
                    return r;
                },
            }
        }
    }

    /// The next proof within `usize::MAX` steps (see `next_rel`): `None`
    /// where the deductions run out.
    pub fn next_qed(&mut self, module: &Module) -> (r: Result<Option<Qed>, ErrorInCtx>)
        ensures
            exists|b2: nat| next_rel(*module, old(self)@, usize::MAX as nat, final(self)@, b2, next_result_view(r)),
    {
        let mut budget: usize = usize::MAX;
        let r = self.next_qed_within(module, &mut budget);
        proof {
            let b2 = budget as nat;
            assert(next_rel(*module, old(self)@, usize::MAX as nat, self@, b2, next_result_view(r)));
        }
        r
    }

    /// The proofs found by looking for the next one `n` times within
    /// `budget` steps, in the order found (see `take_rel`).
    pub fn take_qed_within(&mut self, module: &Module, n: usize, budget: &mut usize) -> (r: Result<Vec<Qed>, ErrorInCtx>)
        ensures
            take_rel(*module, old(self)@, *old(budget) as nat, n as nat, final(self)@, *final(budget) as nat, take_result_view(r)),
            *final(budget) <= *old(budget),
    {
        let ghost m = *module;
        let ghost q0 = self@;
        let ghost b0 = *budget as nat;
        let mut vec: Vec<Qed> = Vec::new();
        let mut i: usize = 0;
        proof {
            assert forall|q2: Seq<DeductionView>, b2: nat, r2: Option<Seq<QedView>>|
                #[trigger] take_rel(m, q0, b0, n as nat, q2, b2, r2)
                implies take_rel(m, q0, b0, n as nat, q2, b2, prepend_all(qeds_view(vec@), r2)) by {
                match r2 {
                    Some(x) => {
                        assert(qeds_view(vec@) + x =~= x);
                    },
                    None => {},
                }
            }
        }
        while i < n
            invariant
                i <= n,
                m == *module,
                q0 == old(self)@,
                b0 == *old(budget) as nat,
                *budget <= *old(budget),
                forall|q2: Seq<DeductionView>, b2: nat, r2: Option<Seq<QedView>>|
                    #[trigger] take_rel(m, self@, *budget as nat, (n - i) as nat, q2, b2, r2)
                        ==> take_rel(m, q0, b0, n as nat, q2, b2, prepend_all(qeds_view(vec@), r2)),
            decreases n - i,
        {
            let ghost cur = self@;
            let ghost b = *budget as nat;
            let ghost vv = qeds_view(vec@);
            let r1 = self.next_qed_within(module, budget);
            let ghost q1 = self@;
            let ghost b1 = *budget as nat;
            let ghost r1v = next_result_view(r1);
            proof {
                assert(next_rel(m, cur, b, q1, b1, r1v));
            }
            match r1 {
                Ok(x) => {
                    let ghost xv: Option<QedView> = r1v.unwrap();
                    match x {
                        Some(q) => {
                            vec.push(q);
                        },
                        None => {},
                    }
                    proof {
                        let vv2 = qeds_view(vec@);
                        assert forall|q2: Seq<DeductionView>, b2: nat, r2: Option<Seq<QedView>>|
                            #[trigger] take_rel(m, q1, b1, (n - (i + 1)) as nat, q2, b2, r2)
                            implies take_rel(m, q0, b0, n as nat, q2, b2, prepend_all(vv2, r2)) by {
                            let k: nat = (n - i) as nat;
                            assert((k - 1) as nat == (n - (i + 1)) as nat);
                            lemma_take_after_found(m, q1, b1, k, xv, q2, b2, r2);
                            assert(take_rel(m, cur, b, k, q2, b2, prepend_found(xv, r2)));
                            match r2 {
                                Some(v) => {
                                    match xv {
                                        Some(qd) => {
                                            assert(vv + (seq![qd] + v) =~= vv2 + v);
                                        },
                                        None => {
                                            assert(vv2 =~= vv);
                                        },
                                    }
                                },
                                None => {},
                            }
                        }
                    }
                },
                Err(e) => {
                    let r = Err(e);
                    proof {
                        assert(take_after(m, q1, b1, (n - i) as nat, r1v, q1, b1, None));
                        assert(take_rel(m, cur, b, (n - i) as nat, q1, b1, None));
                    }
                    return r;
                },
            }
            i = i + 1;
        }
        let r = Ok(vec);
        proof {
            let cur = self@;
            assert(take_rel(m, cur, *budget as nat, (n - i) as nat, cur, *budget as nat, Some(Seq::<QedView>::empty())));
            assert(qeds_view(vec@) + Seq::<QedView>::empty() =~= qeds_view(vec@));
        }
        r
    }

    /// The proofs found by looking for the next one `n` times, within
    /// `usize::MAX` steps in all, in the order found (see `take_rel`).
    pub fn take_qed(&mut self, module: &Module, n: usize) -> (r: Result<Vec<Qed>, ErrorInCtx>)
        ensures
            exists|b2: nat| take_rel(*module, old(self)@, usize::MAX as nat, n as nat, final(self)@, b2, take_result_view(r)),
    {
        let mut budget: usize = usize::MAX;
        let r = self.take_qed_within(module, n, &mut budget);
        proof {
            let b2 = budget as nat;
            assert(take_rel(*module, old(self)@, usize::MAX as nat, n as nat, self@, b2, take_result_view(r)));
        }
        r
    }

    /// The bindings of the proofs found by looking for the next one `n`
    /// times (see `take_qed`).
    pub fn take_subst(&mut self, module: &Module, n: usize) -> (r: Result<Vec<Subst>, ErrorInCtx>)
        ensures
            exists|b2: nat, t: Option<Seq<QedView>>| take_rel(*module, old(self)@, usize::MAX as nat, n as nat, final(self)@, b2, t)
                && match r {
                    Ok(v) => t matches Some(qs) && v@.map_values(|s: Subst| s@) == qs.map_values(|q: QedView| q.subst),
                    Err(_) => t is None,
                },
    {
        let qeds = match self.take_qed(module, n) {
            Ok(v) => v,
            Err(e) => {
                return Err(e);
            },
        };
        let mut out: Vec<Subst> = Vec::new();
        let mut i: usize = 0;
        while i < qeds.len()
            invariant
                i <= qeds@.len(),
                out@.len() == i,
                forall|j: int| 0 <= j < i ==> #[trigger] out@[j]@ == qeds@[j].subst@,
            decreases qeds@.len() - i,
        {
            out.push(qeds[i].subst.clone());
            i = i + 1;
        }
        proof {
            assert(out@.map_values(|s: Subst| s@) =~= qeds_view(qeds@).map_values(|q: QedView| q.subst));
        }
        Ok(out)
    }

    /// Takes `counter` steps (see `steps_rel`), then gives the step after
    /// them (see `pstep_rel`).
    pub fn step_many(&mut self, module: &Module, counter: usize) -> (r: Result<Option<DeductionStep>, ErrorInCtx>)
        ensures
            step_many_rel(*module, old(self)@, counter as nat, final(self)@, pstep_view(r)),
    {
        let ghost m = *module;
        let ghost q0 = self@;
        let mut k: usize = 0;
        proof {
            assert forall|q2: Seq<DeductionView>, ok: bool| #[trigger] steps_rel(m, q0, (counter - k) as nat, q2, ok)
                implies steps_rel(m, q0, counter as nat, q2, ok) by {}
        }
        while k < counter
            invariant
                k <= counter,
                m == *module,
                q0 == old(self)@,
                forall|q2: Seq<DeductionView>, ok: bool| #[trigger] steps_rel(m, self@, (counter - k) as nat, q2, ok)
                    ==> steps_rel(m, q0, counter as nat, q2, ok),
            decreases counter - k,
        {
            let ghost cur = self@;
            let st = self.step(module);
            let ghost sv = pstep_view(st);
            let ghost q1 = self@;
            proof {
                assert(pstep_rel(m, cur, q1, sv));
            }
            match st {
                Ok(_) => {
                    proof {
                        assert forall|q2: Seq<DeductionView>, ok: bool| #[trigger] steps_rel(m, q1, (counter - (k + 1)) as nat, q2, ok)
                            implies steps_rel(m, q0, counter as nat, q2, ok) by {
                            let j: nat = (counter - k) as nat;
                            assert((j - 1) as nat == (counter - (k + 1)) as nat);
                            assert(steps_rel(m, cur, j, q2, ok));
                        }
                    }
                },
                Err(e) => {
                    proof {
                        assert(steps_rel(m, cur, (counter - k) as nat, q1, false));
                        assert(steps_rel(m, q0, counter as nat, q1, false));
                    }
                    return Err(e);
                },
            }
            k = k + 1;
        }
        let ghost q1 = self@;
        proof {
            assert(steps_rel(m, q1, (counter - k) as nat, q1, true));
            assert(steps_rel(m, q0, counter as nat, q1, true));
        }
        let r = self.step(module);
        proof {
            assert(pstep_rel(m, q1, self@, pstep_view(r)));
        }
        r
    }
}

/// The error of an import whose module could not be read.
pub fn load_error(url: &str) -> (e: ErrorInCtx)
    ensures
        e@.msg.head == Some("Module::load"@),
        e@.msg.lines == seq!["url = "@ + url@],
        e@.span == None::<Span>,
{
    let mut lines: Vec<String> = Vec::new();
    lines.push(labeled_line("url = ", url));
    let e = runtime_error("Module::load", lines, None);
    proof {
        assert(strings_view(lines@) =~= seq!["url = "@ + url@]);
    }
    e
}

/// The first module read for `url` among `loaded`.
pub open spec fn loaded_for(loaded: Seq<(String, Result<Module, ErrorInCtx>)>, url: Seq<char>) -> Option<Result<Module, ErrorInCtx>>
    decreases loaded.len(),
{
    if loaded.len() == 0 {
        None
    } else if loaded[0].0@ == url {
        Some(loaded[0].1)
    } else {
        loaded_for(loaded.drop_first(), url)
    }
}

/// `loaded` without its first module read for `url`.
pub open spec fn loaded_rest(loaded: Seq<(String, Result<Module, ErrorInCtx>)>, url: Seq<char>) -> Seq<(String, Result<Module, ErrorInCtx>)>
    decreases loaded.len(),
{
    if loaded.len() == 0 {
        loaded
    } else if loaded[0].0@ == url {
        loaded.drop_first()
    } else {
        seq![loaded[0]] + loaded_rest(loaded.drop_first(), url)
    }
}

/// Takes the first module read for `url` out of `loaded`.
fn take_loaded(loaded: &mut Vec<(String, Result<Module, ErrorInCtx>)>, url: &str) -> (r: Option<Result<Module, ErrorInCtx>>)
    ensures
        r == loaded_for(old(loaded)@, url@),
        final(loaded)@ == loaded_rest(old(loaded)@, url@),
{
    let ghost l0 = loaded@;
    let mut i: usize = 0;
    proof {
        assert(l0.skip(0) =~= l0);
        assert(l0.take(0) + loaded_rest(l0, url@) =~= loaded_rest(l0, url@));
    }
    while i < loaded.len()
        invariant
            i <= loaded@.len(),
            loaded@ == l0,
            l0 == old(loaded)@,
            loaded_for(l0, url@) == loaded_for(l0.skip(i as int), url@),
            loaded_rest(l0, url@) == l0.take(i as int) + loaded_rest(l0.skip(i as int), url@),
            forall|j: int| 0 <= j < i ==> #[trigger] l0[j].0@ != url@,
        decreases loaded@.len() - i,
    {
        proof {
            assert(l0.skip(i as int).drop_first() =~= l0.skip(i + 1));
            assert(l0.skip(i as int)[0] == l0[i as int]);
            assert(l0.take(i + 1) =~= l0.take(i as int).push(l0[i as int]));
            assert(l0.take(i as int) + (seq![l0[i as int]] + loaded_rest(l0.skip(i + 1), url@))
                =~= l0.take(i + 1) + loaded_rest(l0.skip(i + 1), url@));
        }
        if str_eq(loaded[i].0.as_str(), url) {
            proof {
                assert(loaded_for(l0.skip(i as int), url@) == Some(l0[i as int].1));
            }
            let entry = loaded.remove(i);
            proof {
                assert(entry == l0[i as int]);
                assert(loaded@ =~= l0.take(i as int) + l0.skip(i as int).drop_first());
            }
            let r = Some(entry.1);
            proof {
                assert(r == loaded_for(l0, url@));
                assert(l0 == old(loaded)@);
            }
            return r;
        }
        i = i + 1;
    }
    proof {
        assert(l0.skip(i as int) =~= Seq::<(String, Result<Module, ErrorInCtx>)>::empty());
        assert(l0.take(i as int) =~= l0);
        assert(l0 + Seq::<(String, Result<Module, ErrorInCtx>)>::empty() =~= l0);
    }
    None
}

/// What running the search of `kind` with the count `counter` gives from
/// the deductions `q` with `b` steps left, where it ends without error
/// (`ok`): a run of steps takes its steps and gives the last (see
/// `step_many_rel`); the others take their proofs (see `take_rel`).
/// `q2` and `b2` are what is left after it.
pub open spec fn search_ran(m: Module, kind: SearchKind, counter: usize, q: Seq<DeductionView>, b: nat,
    q2: Seq<DeductionView>, b2: nat, found: Seq<QedView>, last: Option<StepView>, ok: bool) -> bool {
    if kind == SearchKind::Step {
        b2 == b && found.len() == 0 && if ok {
            step_many_rel(m, q, counter as nat, q2, Some(last))
        } else {
            step_many_rel(m, q, counter as nat, q2, None)
        }
    } else {
        last is None && if ok {
            take_rel(m, q, b, counter as nat, q2, b2, Some(found))
        } else {
            take_rel(m, q, b, counter as nat, q2, b2, None)
        }
    }
}

/// The end of the search `a` of `kind` from the deductions `q` with `b`
/// steps left: where it runs without error, what `finish_rel` makes of
/// what it found; else its error, the module `mid` unchanged.
pub open spec fn search_done(module: Module, a: ExeAction, kind: SearchKind, counter: usize, q: Seq<DeductionView>, b: nat,
    mid: Seq<(Seq<char>, Option<ObjView>)>, m2: Seq<(Seq<char>, Option<ObjView>)>, b2: nat,
    r: Result<Option<(String, Obj)>, ErrorInCtx>) -> bool {
    ||| exists|q2: Seq<DeductionView>, found: Seq<QedView>, last: Option<StepView>|
        #[trigger] search_ran(module, kind, counter, q, b, q2, b2, found, last, true) && finish_rel(mid, a, found, last, q2, m2, r)
    ||| r is Err && m2 == mid && exists|q2: Seq<DeductionView>|
        #[trigger] search_ran(module, kind, counter, q, b, q2, b2, Seq::empty(), None, false)
}

/// Running the definitions `defs` in turn, the first as the `index`-th
/// of its program, from the module `m` to `m2`, with the modules read
/// for imports `loaded` and `b` steps of search left (see `def_run_rel`):
/// `ok` where none ends in an error, else the run stops at the first that
/// does, or where the definitions outnumber the indices.
pub open spec fn run_from(m: Module, defs: Seq<Def>, index: int, loaded: Seq<(String, Result<Module, ErrorInCtx>)>, b: nat,
    m2: Module, ok: bool) -> bool
    decreases defs.len(),
{
    if defs.len() == 0 {
        ok && m2 == m
    } else if index > usize::MAX {
        !ok && m2 == m
    } else {
        exists|m1: Module, l1: Seq<(String, Result<Module, ErrorInCtx>)>, b1: nat, r1: Result<Option<(String, Obj)>, ErrorInCtx>|
            #[trigger] def_run_rel(m, index as usize, defs[0], loaded, b, m1@, l1, b1, r1) && match r1 {
                Err(_) => !ok && m2 == m1,
                Ok(_) => run_from(m1, defs.drop_first(), index + 1, l1, b1, m2, ok),
            }
    }
}

/// Where the text `cs` reads as definitions, that running them in turn
/// took the module `m` to `m2`, with no error where `ok`.
pub open spec fn program_ran(m: Module, cs: Seq<char>, loaded: Seq<(String, Result<Module, ErrorInCtx>)>, m2: Module, ok: bool) -> bool {
    match program_mexps(cs) {
        Some(ms) => match defs_of(ms) {
            Ok(dv) => exists|defs: Seq<Def>, ran_ok: bool|
                #[trigger] run_from(m, defs, m.obj_dic.entries@.len() as int, loaded, usize::MAX as nat, m2, ran_ok)
                && defs_view(defs) == dv && (ok ==> ran_ok),
            Err(_) => true,
        },
        None => true,
    }
}

/// What running the `index`-th definition `def` to its end does to the
/// module `module`, with the modules read for imports `loaded` and `b`
/// steps of search left, and what comes back; `l2` and `b2` are the modules and
/// steps left after it (see `exe_def_rel`,
/// `search_ran` and `finish_rel`).
pub open spec fn def_run_rel(module: Module, index: usize, def: Def, loaded: Seq<(String, Result<Module, ErrorInCtx>)>, b: nat,
    m2: Seq<(Seq<char>, Option<ObjView>)>, l2: Seq<(String, Result<Module, ErrorInCtx>)>, b2: nat,
    r: Result<Option<(String, Obj)>, ErrorInCtx>) -> bool {
    exists|a: ExeAction, mid: Seq<(Seq<char>, Option<ObjView>)>| #[trigger] exe_def_rel(module, index, def, a, mid) && match a {
        ExeAction::Done(r0) => r == r0 && m2 == mid && b2 == b && l2 == loaded,
        ExeAction::Load { name, url } => b2 == b && l2 == loaded_rest(loaded, url@) && match loaded_for(loaded, url@) {
            Some(Ok(lm)) => defined(mid, name@, ObjView::Module(lm@), m2, r),
            Some(Err(e)) => r == Err::<Option<(String, Obj)>, ErrorInCtx>(e) && m2 == mid,
            None => r matches Err(e) && e@.msg.head == Some("Module::load"@) && e@.msg.lines == seq!["url = "@ + url@] && m2 == mid,
        },
        ExeAction::Search { kind, counter, proving, .. } => l2 == loaded && search_done(module, a, kind, counter, proving@, b, mid, m2, b2, r),
    }
}

impl Module {
    /// Runs one definition to its end (see `def_run_rel`): an import takes
    /// its module from `loaded`; a search is run within `budget` steps.
    pub fn exe_def_within(
        &mut self,
        index: usize,
        def: &Def,
        loaded: &mut Vec<(String, Result<Module, ErrorInCtx>)>,
        budget: &mut usize,
    ) -> (r: Result<Option<(String, Obj)>, ErrorInCtx>)
        ensures
            def_run_rel(*old(self), index, *def, old(loaded)@, *old(budget) as nat, final(self)@, final(loaded)@, *final(budget) as nat, r),
    {
        let ghost m0 = *self;
        let ghost l0 = loaded@;
        let ghost b0 = *budget as nat;
        let action = self.exe_def(index, def);
        let ghost mid = self@;
        let ghost a0 = action;
        proof {
            assert(exe_def_rel(m0, index, *def, a0, mid));
        }
        match action {
            ExeAction::Load { name, url } => {
                let m = match take_loaded(loaded, url.as_str()) {
                    Some(m) => m,
                    None => Err(load_error(url.as_str())),
                };
                let r = self.exe_import(name.as_str(), m);
                proof {
                    assert(def_run_rel(m0, index, *def, l0, b0, self@, loaded@, *budget as nat, r));
                }
                r
            },
            ExeAction::Done(r) => {
                proof {
                    assert(def_run_rel(m0, index, *def, l0, b0, self@, loaded@, *budget as nat, r));
                }
                r
            },
            ExeAction::Search { kind, name, counter, span, var_vec, mut proving } => {
                let ghost q0 = proving@;
                let mut found: Vec<Qed> = Vec::new();
                let mut last: Option<DeductionStep> = None;
                if kind == SearchKind::Step {
                    match proving.step_many(self, counter) {
                        Ok(s) => {
                            last = s;
                        },
                        Err(e) => {
                            let r = Err(e);
                            proof {
                                assert(search_ran(m0, kind, counter, q0, b0, proving@, *budget as nat, Seq::empty(), None, false));
                                assert(def_run_rel(m0, index, *def, l0, b0, self@, loaded@, *budget as nat, r));
                            }
                            return r;
                        },
                    }
                } else {
                    found = match proving.take_qed_within(self, counter, budget) {
                        Ok(v) => v,
                        Err(e) => {
                            let r = Err(e);
                            proof {
                                assert(search_ran(m0, kind, counter, q0, b0, proving@, *budget as nat, Seq::empty(), None, false));
                                assert(def_run_rel(m0, index, *def, l0, b0, self@, loaded@, *budget as nat, r));
                            }
                            return r;
                        },
                    };
                }
                let ghost q2 = proving@;
                let ghost fv = qeds_view(found@);
                let ghost lv = opt_step_view(last);
                proof {
                    assert(qeds_view(Seq::<Qed>::empty()) =~= Seq::<QedView>::empty());
                    assert(search_ran(m0, kind, counter, q0, b0, q2, *budget as nat, fv, lv, true));
                }
                let action2 = ExeAction::Search { kind, name, counter, span, var_vec, proving };
                let r = self.exe_def_finish(action2, found, last);
                proof {
                    assert(finish_rel(mid, a0, fv, lv, q2, self@, r));
                    assert(def_run_rel(m0, index, *def, l0, b0, self@, loaded@, *budget as nat, r));
                }
                r
            },
        }
    }

    /// Checks each proposition of the module: each must have a proof.
    pub fn prop_check_within(&self, budget: &mut usize) -> (r: Result<(), ErrorInCtx>) {
        let checks = match self.prop_checks() {
            Ok(v) => v,
            Err(e) => {
                return Err(e);
            },
        };
        let mut checks = checks;
        let mut i: usize = 0;
        let n = checks.len();
        while i < n
            invariant
                i <= n,
                n == checks@.len(),
            decreases n - i,
        {
            let found = match checks[i].1.next_qed_within(self, budget) {
                Ok(q) => q,
                Err(e) => {
                    return Err(e);
                },
            };
            if found.is_none() {
                return Err(prop_check_fail(checks[i].0.as_str()));
            }
            i = i + 1;
        }
        Ok(())
    }

    /// Checks each proposition of the module: each must have a proof.
    pub fn prop_check(&self) -> (r: Result<(), ErrorInCtx>) {
        let mut budget: usize = usize::MAX;
        self.prop_check_within(&mut budget)
    }

    /// Runs a program: reads its definitions, runs each in order (see
    /// `run_from`), with the modules of its imports taken from `loaded`,
    /// then checks the propositions; what the definitions named, by name.
    #[verifier::spinoff_prover]
    #[verifier::rlimit(60)]
    pub fn run_loaded(&mut self, input: &str, loaded: Vec<(String, Result<Module, ErrorInCtx>)>) -> (r: Result<Dic<Obj>, ErrorInCtx>)
        requires
            byte_len(input@) <= usize::MAX,
        ensures
            program_mexps(input@) is None ==> (r is Err && final(self)@ == old(self)@),
            program_mexps(input@) matches Some(ms) && defs_of(ms) is Err ==> (r is Err && final(self)@ == old(self)@),
            r is Ok ==> (program_mexps(input@) matches Some(ms) && defs_of(ms) is Ok),
            program_ran(*old(self), input@, loaded@, *final(self), r is Ok),
    {
        let syntax_table = SyntaxTable::default();
        proof {
            assert(syntax_table@ == crate::mexp_syntax::default_table());
        }
        let mexp_vec = match syntax_table.try_parse(input) {
            Some(Ok(v)) => v,
            Some(Err(e)) => {
                proof {
                    assert(program_mexps(input@) is None);
                }
                return Err(e);
            },
            None => {
                proof {
                    assert(program_mexps(input@) is None);
                }
                let mut lines: Vec<String> = Vec::new();
                lines.push(string_from("an operator has no expression before it"));
                return Err(runtime_error("Module::run", lines, None));
            },
        };
        let def_vec = match mexp_vec_to_def_vec(&mexp_vec) {
            Ok(v) => v,
            Err(e) => {
                proof {
                    assert(program_mexps(input@) == Some(mexps_view(mexp_vec@)));
                }
                return Err(e);
            },
        };
        let ghost m0 = *self;
        let ghost l0 = loaded@;
        let ghost ds = def_vec@;
        let mut pending = loaded;
        let mut budget: usize = usize::MAX;
        let len = self.obj_dic.len();
        let mut obj_dic: Dic<Obj> = Dic::new();
        let mut index: usize = 0;
        proof {
            assert(program_mexps(input@) matches Some(ms) && defs_of(ms) is Ok);
            assert(ds.skip(0) =~= ds);
        }
        while index < def_vec.len()
            invariant
                index <= def_vec@.len(),
                ds == def_vec@,
                m0 == *old(self),
                l0 == loaded@,
                len == m0.obj_dic.entries@.len(),
                program_mexps(input@) matches Some(ms) && defs_of(ms) == Ok::<Seq<DefView>, ErrorInCtxView>(defs_view(ds)),
                forall|m2: Module, ok: bool| #[trigger] run_from(*self, ds.skip(index as int), len + index, pending@, budget as nat, m2, ok)
                    ==> run_from(m0, ds, len as int, l0, usize::MAX as nat, m2, ok),
            decreases def_vec@.len() - index,
        {
            let ghost cur = *self;
            let ghost rest = ds.skip(index as int);
            let ghost lc = pending@;
            let ghost bc = budget as nat;
            proof {
                assert(rest.drop_first() =~= ds.skip(index + 1));
                assert(rest[0] == ds[index as int]);
            }
            if len > usize::MAX - index {
                let mut lines: Vec<String> = Vec::new();
                lines.push(string_from("too many definitions"));
                proof {
                    assert(run_from(cur, rest, len + index, lc, bc, cur, false));
                    assert(run_from(m0, ds, len as int, l0, usize::MAX as nat, *self, false));
                }
                return Err(runtime_error("Module::run", lines, None));
            }
            let r1 = self.exe_def_within(len + index, &def_vec[index], &mut pending, &mut budget);
            proof {
                assert(def_run_rel(cur, (len + index) as usize, rest[0], lc, bc, self@, pending@, budget as nat, r1));
            }
            match r1 {
                Ok(Some((name, obj))) => {
                    obj_dic.ins(name.as_str(), Some(obj));
                },
                Ok(None) => {},
                Err(e) => {
                    proof {
                        assert(run_from(cur, rest, len + index, lc, bc, *self, false));
                        assert(run_from(m0, ds, len as int, l0, usize::MAX as nat, *self, false));
                    }
                    return Err(e);
                },
            }
            let ghost i0 = index;
            index = index + 1;
            proof {
                assert(ds.skip(index as int) =~= rest.drop_first());
                assert forall|m2: Module, ok: bool| #[trigger] run_from(*self, ds.skip(index as int), len + index, pending@, budget as nat, m2, ok)
                    implies run_from(m0, ds, len as int, l0, usize::MAX as nat, m2, ok) by {
                    assert(len + index == len + i0 + 1);
                    assert(run_from(cur, rest, len + i0, lc, bc, m2, ok));
                }
            }
        }
        proof {
            assert(ds.skip(index as int) =~= Seq::<Def>::empty());
            assert(run_from(*self, ds.skip(index as int), len + index, pending@, budget as nat, *self, true));
            assert(run_from(m0, ds, len as int, l0, usize::MAX as nat, *self, true));
        }
        match self.prop_check_within(&mut budget) {
            Ok(()) => Ok(obj_dic),
            Err(e) => Err(e),
        }
    }

    /// Runs a program that imports nothing (see `run_loaded`).
    pub fn run(&mut self, input: &str) -> (r: Result<Dic<Obj>, ErrorInCtx>)
        requires
            byte_len(input@) <= usize::MAX,
        ensures
            program_mexps(input@) is None ==> (r is Err && final(self)@ == old(self)@),
            program_mexps(input@) matches Some(ms) && defs_of(ms) is Err ==> (r is Err && final(self)@ == old(self)@),
            r is Ok ==> (program_mexps(input@) matches Some(ms) && defs_of(ms) is Ok),
            program_ran(*old(self), input@, Seq::empty(), *final(self), r is Ok),
    {
        let loaded: Vec<(String, Result<Module, ErrorInCtx>)> = Vec::new();
        let r = self.run_loaded(input, loaded);
        proof {
            assert(loaded@ =~= Seq::<(String, Result<Module, ErrorInCtx>)>::empty());
        }
        r
    }

    /// Whether `name` names a disjunction or a conjunction that has a
    /// value: the value and its bindings.
    pub fn get_prop(&self, name: &str) -> (r: Result<(Value, Subst), ErrorInCtx>)
        ensures
            match dic_get(self.obj_dic.entries@, name@) {
                None => r matches Err(e) && e@ == prop_error(seq!["undefined name = "@ + name@]),
                Some(o) => if o is Disj || o is Conj {
                    r matches Ok((v, _)) ==> prop_value_of(o, name@, v@)
                } else {
                    r matches Err(e) && e@ == prop_error(seq!["name is not bound to Disj or Conj"@, "name = "@ + name@])
                },
            },
    {
        self.get_prop_at(name, usize::MAX)
    }
}

/// The text of `v` read back from `bs` within the runtime's budget; the
/// text of `v` itself where reading back does not end within it.
pub open spec fn reified_text(bs: Seq<BindView>, v: ValueView) -> Seq<char> {
    match reify_fuel(bs, v, usize::MAX as nat) {
        Some(w) => value_text(w),
        None => value_text(v),
    }
}

fn reified_string(subst: &Subst, v: &Value) -> (s: String)
    ensures
        s@ == reified_text(subst@, v@),
{
    match subst.reify_within(v, usize::MAX) {
        Some(w) => w.to_string(),
        None => v.to_string(),
    }
}

/// The text of a proof: its root read back.
pub open spec fn qed_text(q: QedView) -> Seq<char> {
    reified_text(q.subst, q.root)
}

/// The text of a deduction: its root and the typed variables still to
/// fill, as they are and read back.
pub open spec fn deduction_text(d: DeductionView) -> Seq<char> {
    "$deduction-c {\n                 root = "@ + reified_text(d.subst, d.root)
        + "\n                 tv-queue = [ "@ + joined(d.tvs.map_values(|t: TvView| tv_text(t)), seq![' '])
        + " ]\n                 reified-tv-queue = [ "@
        + joined(d.tvs.map_values(|t: TvView| reified_text(d.subst, ValueView::TypedVar(t))), seq![' ']) + " ] }"@
}

/// The text of a step.
pub open spec fn step_text(s: StepView) -> Seq<char> {
    match s {
        StepView::Qed(q) => "$deduction-step:qed-c { root = "@ + qed_text(q) + " }"@,
        StepView::More(ds) => "$deduction-step:queue-c { queue = [ "@
            + joined(ds.map_values(|d: DeductionView| deduction_text(d)), seq![' ']) + " ] }"@,
    }
}

/// The text of the bindings of the variables `xs` in `bs`, read back.
pub open spec fn subst_report_text(xs: Seq<VarView>, bs: Seq<BindView>) -> Seq<char> {
    let lines = joined(xs.map_values(|x: VarView| x.name + " = "@ + reified_text(bs, ValueView::Var(x)) + seq!['\n']), Seq::empty());
    if lines.len() == 0 { "$subst-c {}"@ } else { "$subst-c { "@ + lines + " }"@ }
}

/// The text of what a search found, before it is laid out.
pub open spec fn search_res_text(qs: Seq<QedView>) -> Seq<char> {
    if qs.len() == 0 {
        "$search-res-c {}\n"@
    } else {
        "$search-res-c {\n"@ + joined(qs.map_values(|q: QedView| qed_text(q)), Seq::empty()) + "}\n"@
    }
}

/// The text of what a query found, before it is laid out.
pub open spec fn query_res_text(xs: Seq<VarView>, ss: Seq<Seq<BindView>>) -> Seq<char> {
    if ss.len() == 0 {
        "$query-res-c {}\n"@
    } else {
        "$query-res-c {\n"@ + joined(ss.map_values(|bs: Seq<BindView>| subst_report_text(xs, bs)), Seq::empty()) + "}\n"@
    }
}

/// The text of a run of steps, before it is laid out.
pub open spec fn step_res_text(last: Option<StepView>, queue: Seq<DeductionView>) -> Seq<char> {
    "$step-res-c {\n"@ + (match last {
        Some(s) => "step = "@ + step_text(s),
        None => Seq::empty(),
    }) + "queue = [ "@ + joined(queue.map_values(|d: DeductionView| deduction_text(d)), seq![' ']) + " ]"@ + "}\n"@
}

/// Appends the texts `pieces`, separated by `sep`.
fn push_pieces(s: &mut String, pieces: &Vec<String>, sep: &str)
    ensures
        final(s)@ == old(s)@ + joined(names_view(pieces@), sep@),
{
    push_joined(s, pieces, sep);
    proof {
        assert(names_view(pieces@) =~= crate::cicada::names_view(pieces@));
    }
}

fn reified_tvs(subst: &Subst, tvs: &Vec<TypedVar>) -> (r: Vec<String>)
    ensures
        names_view(r@) == tvs@.map_values(|t: TypedVar| t@).map_values(|t: TvView| reified_text(subst@, ValueView::TypedVar(t))),
{
    let mut out: Vec<String> = Vec::new();
    let mut i: usize = 0;
    while i < tvs.len()
        invariant
            i <= tvs@.len(),
            out@.len() == i,
            forall|j: int| 0 <= j < i ==> #[trigger] out@[j]@ == reified_text(subst@, ValueView::TypedVar(tvs@[j]@)),
        decreases tvs@.len() - i,
    {
        let v = Value::TypedVar(copy_tv(&tvs[i]));
        out.push(reified_string(subst, &v));
        i = i + 1;
    }
    proof {
        assert(names_view(out@) =~= tvs@.map_values(|t: TypedVar| t@).map_values(|t: TvView| reified_text(subst@, ValueView::TypedVar(t))));
    }
    out
}

fn tv_strings(tvs: &Vec<TypedVar>) -> (r: Vec<String>)
    ensures
        names_view(r@) == tvs@.map_values(|t: TypedVar| t@).map_values(|t: TvView| tv_text(t)),
{
    let mut out: Vec<String> = Vec::new();
    let mut i: usize = 0;
    while i < tvs.len()
        invariant
            i <= tvs@.len(),
            out@.len() == i,
            forall|j: int| 0 <= j < i ==> #[trigger] out@[j]@ == tv_text(tvs@[j]@),
        decreases tvs@.len() - i,
    {
        out.push(tvs[i].to_string());
        i = i + 1;
    }
    proof {
        assert(names_view(out@) =~= tvs@.map_values(|t: TypedVar| t@).map_values(|t: TvView| tv_text(t)));
    }
    out
}

impl Qed {
    /// The text of the proof: its root read back.
    pub fn to_string(&self) -> (s: String)
        ensures
            s@ == qed_text(qed_view(*self)),
    {
        reified_string(&self.subst, &self.root)
    }
}

impl Deduction {
    /// The text of the deduction.
    pub fn to_string(&self) -> (s: String)
        ensures
            s@ == deduction_text(deduction_view(*self)),
    {
        let mut s = string_from("$deduction-c {\n                 root = ");
        push_str(&mut s, reified_string(&self.subst, &self.root).as_str());
        push_str(&mut s, "\n                 tv-queue = [ ");
        push_pieces(&mut s, &tv_strings(&self.tv_queue), " ");
        push_str(&mut s, " ]\n                 reified-tv-queue = [ ");
        push_pieces(&mut s, &reified_tvs(&self.subst, &self.tv_queue), " ");
        push_str(&mut s, " ] }");
        proof {
            reveal_strlit(" ");
            assert(" "@ =~= seq![' ']);
            assert(s@ =~= deduction_text(deduction_view(*self)));
        }
        s
    }
}

fn deduction_strings(ds: &Vec<Deduction>) -> (r: Vec<String>)
    ensures
        names_view(r@) == deductions_view(ds@).map_values(|d: DeductionView| deduction_text(d)),
{
    let mut out: Vec<String> = Vec::new();
    let mut i: usize = 0;
    while i < ds.len()
        invariant
            i <= ds@.len(),
            out@.len() == i,
            forall|j: int| 0 <= j < i ==> #[trigger] out@[j]@ == deduction_text(deduction_view(ds@[j])),
        decreases ds@.len() - i,
    {
        out.push(ds[i].to_string());
        i = i + 1;
    }
    proof {
        assert(names_view(out@) =~= deductions_view(ds@).map_values(|d: DeductionView| deduction_text(d)));
    }
    out
}

impl DeductionStep {
    /// The text of the step.
    pub fn to_string(&self) -> (s: String)
        ensures
            s@ == step_text(step_view(*self)),
    {
        match self {
            DeductionStep::Qed(q) => {
                let mut s = string_from("$deduction-step:qed-c { root = ");
                push_str(&mut s, q.to_string().as_str());
                push_str(&mut s, " }");
                s
            },
            DeductionStep::More(ds) => {
                let mut s = string_from("$deduction-step:queue-c { queue = [ ");
                push_pieces(&mut s, &deduction_strings(ds), " ");
                push_str(&mut s, " ] }");
                proof {
                    reveal_strlit(" ");
                    assert(" "@ =~= seq![' ']);
                }
                s
            },
        }
    }
}

/// The text of the bindings of the variables `var_vec` in `subst`, read
/// back.
pub fn subst_report(var_vec: &Vec<Var>, subst: &Subst) -> (s: String)
    ensures
        s@ == subst_report_text(var_vec@.map_values(|x: Var| x@), subst@),
{
    let mut lines: Vec<String> = Vec::new();
    let mut i: usize = 0;
    while i < var_vec.len()
        invariant
            i <= var_vec@.len(),
            lines@.len() == i,
            forall|j: int| 0 <= j < i ==> #[trigger] lines@[j]@ == var_vec@[j]@.name + " = "@ + reified_text(subst@, ValueView::Var(var_vec@[j]@)) + seq!['\n'],
        decreases var_vec@.len() - i,
    {
        let mut line = string_from(var_vec[i].name.as_str());
        push_str(&mut line, " = ");
        let v = Value::Var(copy_var(&var_vec[i]));
        push_str(&mut line, reified_string(subst, &v).as_str());
        push_str(&mut line, "\n");
        proof {
            reveal_strlit("\n");
            assert(line@ =~= var_vec@[i as int]@.name + " = "@ + reified_text(subst@, ValueView::Var(var_vec@[i as int]@)) + seq!['\n']);
        }
        lines.push(line);
        i = i + 1;
    }
    let mut body = String::new();
    push_pieces(&mut body, &lines, "");
    proof {
        reveal_strlit("");
        assert(""@ =~= Seq::<char>::empty());
        assert(names_view(lines@) =~= var_vec@.map_values(|x: Var| x@).map_values(|x: VarView| x.name + " = "@ + reified_text(subst@, ValueView::Var(x)) + seq!['\n']));
        assert(body@ =~= joined(names_view(lines@), Seq::empty()));
        reveal_strlit("$subst-c");
        reveal_strlit(" {}");
        reveal_strlit(" { ");
        reveal_strlit(" }");
        reveal_strlit("$subst-c {}");
        reveal_strlit("$subst-c { ");
        assert("$subst-c"@ + " {}"@ =~= "$subst-c {}"@);
        assert("$subst-c"@ + " { "@ =~= "$subst-c { "@);
    }
    let r = format_mexp_block("$subst-c", body);
    proof {
        if body@.len() != 0 {
            assert("$subst-c"@ + " { "@ + body@ + " }"@ =~= "$subst-c { "@ + body@ + " }"@);
        }
    }
    r
}

impl SearchRes {
    /// The text of what the search found, before it is laid out.
    pub fn to_string(&self) -> (s: String)
        ensures
            s@ == search_res_text(qeds_view(self.qed_vec@)),
    {
        if self.qed_vec.len() == 0 {
            return string_from("$search-res-c {}\n");
        }
        let mut pieces: Vec<String> = Vec::new();
        let mut i: usize = 0;
        while i < self.qed_vec.len()
            invariant
                i <= self.qed_vec@.len(),
                pieces@.len() == i,
                forall|j: int| 0 <= j < i ==> #[trigger] pieces@[j]@ == qed_text(qed_view(self.qed_vec@[j])),
            decreases self.qed_vec@.len() - i,
        {
            pieces.push(self.qed_vec[i].to_string());
            i = i + 1;
        }
        let mut s = string_from("$search-res-c {\n");
        push_pieces(&mut s, &pieces, "");
        push_str(&mut s, "}\n");
        proof {
            reveal_strlit("");
            assert(""@ =~= Seq::<char>::empty());
            assert(names_view(pieces@) =~= qeds_view(self.qed_vec@).map_values(|q: QedView| qed_text(q)));
        }
        s
    }
}

impl QueryRes {
    /// The text of what the query found, before it is laid out.
    pub fn to_string(&self) -> (s: String)
        ensures
            s@ == query_res_text(self.var_vec@.map_values(|x: Var| x@), self.subst_vec@.map_values(|b: Subst| b@)),
    {
        if self.subst_vec.len() == 0 {
            return string_from("$query-res-c {}\n");
        }
        let ghost xs = self.var_vec@.map_values(|x: Var| x@);
        let mut pieces: Vec<String> = Vec::new();
        let mut i: usize = 0;
        while i < self.subst_vec.len()
            invariant
                i <= self.subst_vec@.len(),
                xs == self.var_vec@.map_values(|x: Var| x@),
                pieces@.len() == i,
                forall|j: int| 0 <= j < i ==> #[trigger] pieces@[j]@ == subst_report_text(xs, self.subst_vec@[j]@),
            decreases self.subst_vec@.len() - i,
        {
            pieces.push(subst_report(&self.var_vec, &self.subst_vec[i]));
            i = i + 1;
        }
        let mut s = string_from("$query-res-c {\n");
        push_pieces(&mut s, &pieces, "");
        push_str(&mut s, "}\n");
        proof {
            reveal_strlit("");
            assert(""@ =~= Seq::<char>::empty());
            assert(names_view(pieces@) =~= self.subst_vec@.map_values(|b: Subst| b@).map_values(|bs: Seq<BindView>| subst_report_text(xs, bs)));
        }
        s
    }
}

impl StepRes {
    /// The text of the run of steps, before it is laid out.
    pub fn to_string(&self) -> (s: String)
        ensures
            s@ == step_res_text(opt_step_view(self.step), deductions_view(self.deduction_queue@)),
    {
        let mut s = string_from("$step-res-c {\n");
        match &self.step {
            Some(step) => {
                push_str(&mut s, "step = ");
                push_str(&mut s, step.to_string().as_str());
            },
            None => {},
        }
        push_str(&mut s, "queue = [ ");
        push_pieces(&mut s, &deduction_strings(&self.deduction_queue), " ");
        push_str(&mut s, " ]");
        push_str(&mut s, "}\n");
        proof {
            reveal_strlit(" ");
            assert(" "@ =~= seq![' ']);
            assert(s@ =~= step_res_text(opt_step_view(self.step), deductions_view(self.deduction_queue@)));
        }
        s
    }
}

impl Module {
    /// The text of the module: its named objects, one to a line, in
    /// `$module-c { }`.
    pub fn to_string(&self) -> (s: String)
        ensures
            s@ == obj_text(ObjView::Module(self@)),
        decreases self, 0nat,
    {
        let es = &self.obj_dic.entries;
        let mut body = String::new();
        let mut i: usize = 0;
        proof {
            lemma_obj_entries_view(es@);
            assert(obj_entries_view(es@).take(0) =~= Seq::<(Seq<char>, Option<ObjView>)>::empty());
        }
        while i < es.len()
            invariant
                i <= es@.len(),
                es == &self.obj_dic.entries,
                self@ == obj_entries_view(es@),
                self@.len() == es@.len(),
                forall|j: int| 0 <= j < es@.len() ==> #[trigger] self@[j].0 == es@[j].0@,
                forall|j: int| 0 <= j < es@.len() ==> (#[trigger] self@[j]).1 == match es@[j].1 {
                    Some(o) => Some(obj_view(o)),
                    None => None::<ObjView>,
                },
                body@ == module_lines(self@.take(i as int)),
            decreases es@.len() - i,
        {
            proof {
                assert(self@.take(i + 1).drop_last() =~= self@.take(i as int));
                assert(self@.take(i + 1).last() == self@[i as int]);
            }
            match &es[i].1 {
                Some(o) => {
                    assert(decreases_to!(self => self.obj_dic.entries@[i as int].1->Some_0));
                    push_str(&mut body, es[i].0.as_str());
                    push_str(&mut body, " = ");
                    push_str(&mut body, o.to_string().as_str());
                    push_str(&mut body, "\n");
                    proof {
                        reveal_strlit("\n");
                    }
                },
                None => {
                    proof {
                        assert(body@ =~= body@ + Seq::<char>::empty());
                    }
                },
            }
            i = i + 1;
        }
        proof {
            assert(self@.take(es@.len() as int) =~= self@);
        }
        let r = format_mexp_block("$module-c", body);
        proof {
            reveal_strlit("$module-c");
            reveal_strlit(" {}");
            reveal_strlit(" { ");
            reveal_strlit("$module-c {}");
            reveal_strlit("$module-c { ");
            assert("$module-c"@ + " {}"@ =~= "$module-c {}"@);
            assert("$module-c"@ + " { "@ + body@ + " }"@ =~= "$module-c { "@ + body@ + " }"@);
        }
        r
    }

    /// The results of the module's searches, queries and runs of steps,
    /// each on a line `name = result`.
    pub fn report(&self) -> (s: String)
        ensures
            s@ == report_lines(self@),
    {
        report_obj_dic(&self.obj_dic)
    }
}

/// Whether an object is what a search, a query or a run of steps found.
pub open spec fn is_result(o: ObjView) -> bool {
    o is SearchRes || o is QueryRes || o is StepRes
}

/// The results among named objects, each on a line `name = result`.
pub open spec fn report_lines(es: Seq<(Seq<char>, Option<ObjView>)>) -> Seq<char>
    decreases es.len(),
{
    if es.len() == 0 {
        Seq::empty()
    } else {
        report_lines(es.drop_last()) + match es.last().1 {
            Some(o) => if is_result(o) { es.last().0 + " = "@ + obj_text(o) + seq!['\n'] } else { Seq::empty() },
            None => Seq::empty(),
        }
    }
}

/// The results among the objects of `obj_dic`, each on a line
/// `name = result`.
pub fn report_obj_dic(obj_dic: &Dic<Obj>) -> (s: String)
    ensures
        s@ == report_lines(obj_entries_view(obj_dic.entries@)),
{
    let es = &obj_dic.entries;
    let ghost v = obj_entries_view(es@);
    let mut s = String::new();
    let mut i: usize = 0;
    proof {
        lemma_obj_entries_view(es@);
        assert(v.take(0) =~= Seq::<(Seq<char>, Option<ObjView>)>::empty());
    }
    while i < es.len()
        invariant
            i <= es@.len(),
            es == &obj_dic.entries,
            v == obj_entries_view(es@),
            v.len() == es@.len(),
            forall|j: int| 0 <= j < es@.len() ==> #[trigger] v[j].0 == es@[j].0@,
            forall|j: int| 0 <= j < es@.len() ==> (#[trigger] v[j]).1 == match es@[j].1 {
                Some(o) => Some(obj_view(o)),
                None => None::<ObjView>,
            },
            s@ == report_lines(v.take(i as int)),
        decreases es@.len() - i,
    {
        proof {
            assert(v.take(i + 1).drop_last() =~= v.take(i as int));
            assert(v.take(i + 1).last() == v[i as int]);
        }
        match &es[i].1 {
            Some(o) => {
                let shown = match o {
                    Obj::SearchRes(_) | Obj::QueryRes(_) | Obj::StepRes(_) => true,
                    _ => false,
                };
                if shown {
                    push_str(&mut s, es[i].0.as_str());
                    push_str(&mut s, " = ");
                    push_str(&mut s, o.to_string().as_str());
                    push_str(&mut s, "\n");
                    proof {
                        reveal_strlit("\n");
                    }
                } else {
                    proof {
                        assert(s@ =~= s@ + Seq::<char>::empty());
                    }
                }
            },
            None => {
                proof {
                    assert(s@ =~= s@ + Seq::<char>::empty());
                }
            },
        }
        i = i + 1;
    }
    proof {
        assert(v.take(es@.len() as int) =~= v);
    }
    s
}

/// The urls that the imports of `defs` read, in order.
pub open spec fn import_urls_of(defs: Seq<DefView>) -> Seq<Seq<char>>
    decreases defs.len(),
{
    if defs.len() == 0 {
        Seq::empty()
    } else {
        import_urls_of(defs.drop_last()) + match defs.last() {
            DefView::Import(_, url) => seq![url],
            _ => Seq::empty(),
        }
    }
}

/// The urls that the imports of the definitions `def_vec` read, in order.
pub fn import_urls(def_vec: &Vec<Def>) -> (r: Vec<String>)
    ensures
        crate::cicada::names_view(r@) == import_urls_of(def_vec@.map_values(|d: Def| d@)),
{
    let ghost ds = def_vec@.map_values(|d: Def| d@);
    let mut out: Vec<String> = Vec::new();
    let mut i: usize = 0;
    proof {
        assert(ds.take(0) =~= Seq::<DefView>::empty());
        assert(crate::cicada::names_view(out@) =~= Seq::<Seq<char>>::empty());
    }
    while i < def_vec.len()
        invariant
            i <= def_vec@.len(),
            ds == def_vec@.map_values(|d: Def| d@),
            crate::cicada::names_view(out@) == import_urls_of(ds.take(i as int)),
        decreases def_vec@.len() - i,
    {
        let ghost before = out@;
        proof {
            assert(ds.take(i + 1).drop_last() =~= ds.take(i as int));
            assert(ds.take(i + 1).last() == def_vec@[i as int]@);
        }
        match &def_vec[i] {
            Def::Import(_, url) => {
                out.push(string_from(url.as_str()));
                proof {
                    assert(crate::cicada::names_view(out@) =~= crate::cicada::names_view(before).push(url@));
                }
            },
            _ => {
                proof {
                    assert(import_urls_of(ds.take(i as int)) + Seq::<Seq<char>>::empty() =~= import_urls_of(ds.take(i as int)));
                }
            },
        }
        i = i + 1;
    }
    proof {
        assert(ds.take(def_vec@.len() as int) =~= ds);
    }
    out
}

} // verus!
