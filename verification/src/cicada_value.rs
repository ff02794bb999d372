//! The values of the cicada language, the dictionaries of named values they
//! hold, and the substitutions that bind their variables.

use vstd::prelude::*;
use std::sync::Arc;
use crate::dict::share;
use crate::ukanren::new_v4_id;
use crate::cicada::joined;
use uuid::Uuid;
use crate::text::{string_from, str_eq, chars_of, char_width, len_utf8, push_char, push_str, push_decimal, decimal};

verus! {

/// A dictionary of named entries, kept in the order their names were
/// first inserted; an entry may be declared without a value.
#[derive(Debug, PartialEq, Eq)]
pub struct Dic<T> {
    pub entries: Vec<(String, Option<T>)>,
}

/// What tells apart variables of one name: a random number, or a counter
/// that numbers the variables of a value in order.
#[derive(Clone, Copy, Debug, PartialEq, Eq, Structural)]
pub enum Id {
    Uuid(u128),
    Local(usize),
}

/// A logic variable.
#[derive(Debug, PartialEq, Eq)]
pub struct Var {
    pub id: Id,
    pub name: String,
}

/// A variable of a type: what a proof of the type is to fill.
#[derive(Debug, PartialEq, Eq)]
pub struct TypedVar {
    pub id: Id,
    pub name: String,
    pub ty: Box<Value>,
}

/// A proposition that one of the named propositions proves, with the
/// fields they share.
#[derive(Debug, PartialEq, Eq)]
pub struct Disj {
    pub name: String,
    pub name_vec: Vec<String>,
    pub body: Dic<Value>,
}

/// A proposition proved by its fields together.
#[derive(Debug, PartialEq, Eq)]
pub struct Conj {
    pub name: String,
    pub body: Dic<Value>,
}

/// Data made by a constructor, with its fields.
#[derive(Debug, PartialEq, Eq)]
pub struct Data {
    pub name: String,
    pub body: Dic<Value>,
}

/// A value: a variable, a typed variable, a disjunction, a conjunction,
/// data, or the type of types.
#[derive(Debug, PartialEq, Eq)]
pub enum Value {
    Var(Var),
    TypedVar(TypedVar),
    Disj(Disj),
    Conj(Conj),
    Data(Data),
    TypeOfType,
}

/// What a variable is.
pub struct VarView {
    pub id: Id,
    pub name: Seq<char>,
}

/// What a typed variable is.
pub struct TvView {
    pub id: Id,
    pub name: Seq<char>,
    pub ty: Box<ValueView>,
}

/// What a value is, its names as characters and its dictionaries as
/// sequences of named entries.
pub enum ValueView {
    Var(VarView),
    TypedVar(TvView),
    Disj(Seq<char>, Seq<Seq<char>>, Seq<(Seq<char>, Option<ValueView>)>),
    Conj(Seq<char>, Seq<(Seq<char>, Option<ValueView>)>),
    Data(Seq<char>, Seq<(Seq<char>, Option<ValueView>)>),
    TypeOfType,
}

/// The view of a variable.
pub open spec fn var_view(x: Var) -> VarView {
    VarView { id: x.id, name: x.name@ }
}

/// The view of a value.
pub open spec fn value_view(v: Value) -> ValueView
    decreases v, 4nat,
{
    match v {
        Value::Var(x) => ValueView::Var(var_view(x)),
        Value::TypedVar(t) => ValueView::TypedVar(tv_view(t)),
        Value::Disj(d) => ValueView::Disj(d.name@, names_view(d.name_vec@), entries_view(d.body.entries@)),
        Value::Conj(c) => ValueView::Conj(c.name@, entries_view(c.body.entries@)),
        Value::Data(d) => ValueView::Data(d.name@, entries_view(d.body.entries@)),
        Value::TypeOfType => ValueView::TypeOfType,
    }
}

/// The view of a typed variable.
pub open spec fn tv_view(t: TypedVar) -> TvView
    decreases t, 3nat,
{
    TvView { id: t.id, name: t.name@, ty: Box::new(value_view(*t.ty)) }
}

/// The views of the entries of a dictionary of values.
pub open spec fn entries_view(es: Seq<(String, Option<Value>)>) -> Seq<(Seq<char>, Option<ValueView>)>
    decreases es, 2nat,
{
    if es.len() == 0 {
        Seq::empty()
    } else {
        entries_view(es.drop_last()).push((es.last().0@, opt_value_view(es.last().1)))
    }
}

/// The view of an optional value.
pub open spec fn opt_value_view(o: Option<Value>) -> Option<ValueView>
    decreases o, 1nat,
{
    match o {
        Some(v) => Some(value_view(v)),
        None => None,
    }
}

/// The texts of strings.
pub open spec fn names_view(v: Seq<String>) -> Seq<Seq<char>> {
    v.map_values(|s: String| s@)
}

impl View for Var {
    type V = VarView;

    open spec fn view(&self) -> VarView {
        var_view(*self)
    }
}

impl View for TypedVar {
    type V = TvView;

    open spec fn view(&self) -> TvView {
        tv_view(*self)
    }
}

impl View for Value {
    type V = ValueView;

    open spec fn view(&self) -> ValueView {
        value_view(*self)
    }
}

/// The entries of a dictionary view.
pub proof fn lemma_entries_view(es: Seq<(String, Option<Value>)>)
    ensures
        entries_view(es).len() == es.len(),
        forall|i: int| 0 <= i < es.len() ==> #[trigger] entries_view(es)[i] == (es[i].0@, opt_value_view(es[i].1)),
    decreases es.len(),
{
    if es.len() > 0 {
        lemma_entries_view(es.drop_last());
        assert forall|i: int| 0 <= i < es.len() implies #[trigger] entries_view(es)[i] == (es[i].0@, opt_value_view(es[i].1)) by {
            if i < es.len() - 1 {
                assert(es.drop_last()[i] == es[i]);
            }
        }
    }
}

/// A copy of a string.
pub(crate) fn copy_string(s: &String) -> (r: String)
    ensures
        r@ == s@,
{
    string_from(s.as_str())
}

/// A copy of strings.
pub(crate) fn copy_strings(v: &Vec<String>) -> (r: Vec<String>)
    ensures
        names_view(r@) == names_view(v@),
{
    let mut out: Vec<String> = Vec::new();
    let mut i: usize = 0;
    while i < v.len()
        invariant
            i <= v@.len(),
            out@.len() == i,
            forall|j: int| 0 <= j < i ==> #[trigger] out@[j]@ == v@[j]@,
        decreases v@.len() - i,
    {
        out.push(copy_string(&v[i]));
        i = i + 1;
    }
    proof {
        assert(names_view(out@) =~= names_view(v@));
    }
    out
}

/// A copy of a variable.
pub fn copy_var(x: &Var) -> (r: Var)
    ensures
        r@ == x@,
{
    Var { id: x.id, name: copy_string(&x.name) }
}

/// A copy of a value.
pub fn copy_value(v: &Value) -> (r: Value)
    ensures
        r@ == v@,
    decreases v, 4nat,
{
    match v {
        Value::Var(x) => Value::Var(copy_var(x)),
        Value::TypedVar(t) => Value::TypedVar(copy_tv(t)),
        Value::Disj(d) => Value::Disj(Disj {
            name: copy_string(&d.name),
            name_vec: copy_strings(&d.name_vec),
            body: copy_dic(&d.body),
        }),
        Value::Conj(c) => Value::Conj(Conj { name: copy_string(&c.name), body: copy_dic(&c.body) }),
        Value::Data(d) => Value::Data(Data { name: copy_string(&d.name), body: copy_dic(&d.body) }),
        Value::TypeOfType => Value::TypeOfType,
    }
}

/// A copy of a typed variable.
pub fn copy_tv(t: &TypedVar) -> (r: TypedVar)
    ensures
        r@ == t@,
    decreases t, 3nat,
{
    TypedVar { id: t.id, name: copy_string(&t.name), ty: Box::new(copy_value(&t.ty)) }
}

/// A copy of a dictionary of values.
pub fn copy_dic(d: &Dic<Value>) -> (r: Dic<Value>)
    ensures
        entries_view(r.entries@) == entries_view(d.entries@),
    decreases d, 2nat,
{
    let mut out: Vec<(String, Option<Value>)> = Vec::new();
    let mut i: usize = 0;
    proof {
        assert(d.entries@.take(0) =~= Seq::<(String, Option<Value>)>::empty());
        assert(out@ =~= Seq::<(String, Option<Value>)>::empty());
    }
    while i < d.entries.len()
        invariant
            i <= d.entries@.len(),
            entries_view(out@) == entries_view(d.entries@.take(i as int)),
        decreases d.entries@.len() - i,
    {
        assert(decreases_to!(d => d.entries@[i as int]));
        let value = match &d.entries[i].1 {
            Some(x) => {
                assert(decreases_to!(d => d.entries@[i as int].1->Some_0));
                Some(copy_value(x))
            },
            None => None,
        };
        let e = (copy_string(&d.entries[i].0), value);
        assert(opt_value_view(e.1) == opt_value_view(d.entries@[i as int].1));
        let ghost before = out@;
        out.push(e);
        proof {
            assert(out@.drop_last() =~= before);
            assert(out@.last() == e);
            assert(d.entries@.take(i + 1).drop_last() =~= d.entries@.take(i as int));
            assert(d.entries@.take(i + 1).last() == d.entries@[i as int]);
        }
        i = i + 1;
    }
    proof {
        assert(d.entries@.take(d.entries@.len() as int) =~= d.entries@);
    }
    Dic { entries: out }
}

/// The index of the first entry named `name`.
pub open spec fn dic_find<T>(es: Seq<(String, Option<T>)>, name: Seq<char>) -> Option<int>
    decreases es.len(),
{
    if es.len() == 0 {
        None
    } else if es[0].0@ == name {
        Some(0)
    } else {
        match dic_find(es.drop_first(), name) {
            Some(i) => Some(i + 1),
            None => None,
        }
    }
}

/// Where `dic_find` finds an entry, the entry has that name and no
/// entry before it has.
pub proof fn lemma_dic_find<T>(es: Seq<(String, Option<T>)>, name: Seq<char>)
    ensures
        match dic_find(es, name) {
            Some(i) => 0 <= i < es.len() && es[i].0@ == name && forall|j: int| 0 <= j < i ==> es[j].0@ != name,
            None => forall|j: int| 0 <= j < es.len() ==> es[j].0@ != name,
        },
    decreases es.len(),
{
    if es.len() > 0 {
        lemma_dic_find(es.drop_first(), name);
        if es[0].0@ != name {
            match dic_find(es.drop_first(), name) {
                Some(i) => {
                    assert forall|j: int| 0 <= j < i + 1 implies es[j].0@ != name by {
                        if j > 0 {
                            assert(es[j] == es.drop_first()[j - 1]);
                        }
                    }
                },
                None => {
                    assert forall|j: int| 0 <= j < es.len() implies es[j].0@ != name by {
                        if j > 0 {
                            assert(es[j] == es.drop_first()[j - 1]);
                        }
                    }
                },
            }
        }
    }
}

/// The value of the first entry named `name`, where it has one.
pub open spec fn dic_get<T>(es: Seq<(String, Option<T>)>, name: Seq<char>) -> Option<T> {
    match dic_find(es, name) {
        Some(i) => es[i].1,
        None => None,
    }
}

impl<T> Dic<T> {
    /// The dictionary with no entries.
    pub fn new() -> (d: Self)
        ensures
            d.entries@ == Seq::<(String, Option<T>)>::empty(),
    {
        Dic { entries: Vec::new() }
    }

    /// The number of entries.
    pub fn len(&self) -> (n: usize)
        ensures
            n == self.entries@.len(),
    {
        self.entries.len()
    }

    /// Whether there are no entries.
    pub fn is_empty(&self) -> (r: bool)
        ensures
            r == (self.entries@.len() == 0),
    {
        self.entries.len() == 0
    }

    fn find(&self, name: &str) -> (r: Option<usize>)
        ensures
            match r {
                Some(i) => dic_find(self.entries@, name@) == Some(i as int),
                None => dic_find(self.entries@, name@) is None,
            },
    {
        proof {
            lemma_dic_find(self.entries@, name@);
        }
        let mut i: usize = 0;
        while i < self.entries.len()
            invariant
                i <= self.entries@.len(),
                forall|j: int| 0 <= j < i ==> self.entries@[j].0@ != name@,
                match dic_find(self.entries@, name@) {
                    Some(k) => 0 <= k < self.entries@.len() && self.entries@[k].0@ == name@
                        && forall|j: int| 0 <= j < k ==> self.entries@[j].0@ != name@,
                    None => forall|j: int| 0 <= j < self.entries@.len() ==> self.entries@[j].0@ != name@,
                },
            decreases self.entries@.len() - i,
        {
            if str_eq(self.entries[i].0.as_str(), name) {
                return Some(i);
            }
            i = i + 1;
        }
        None
    }

    /// Whether an entry is named `name`.
    pub fn has_name(&self, name: &str) -> (r: bool)
        ensures
            r == (dic_find(self.entries@, name@) is Some),
    {
        self.find(name).is_some()
    }

    /// The value of the entry named `name`, where there is one and it has
    /// a value.
    pub fn get(&self, name: &str) -> (r: Option<&T>)
        ensures
            match r {
                Some(x) => dic_get(self.entries@, name@) == Some(*x),
                None => dic_get(self.entries@, name@) is None,
            },
    {
        proof {
            lemma_dic_find(self.entries@, name@);
        }
        match self.find(name) {
            Some(i) => {
                match &self.entries[i].1 {
                    Some(v) => {
                        Some(v)
                    },
                    None => None,
                }
            },
            None => None,
        }
    }

    /// Sets the entry named `name` to `value`; where there is none, adds
    /// one after the others.
    pub fn ins(&mut self, name: &str, value: Option<T>)
        ensures
            match dic_find(old(self).entries@, name@) {
                Some(i) => final(self).entries@.len() == old(self).entries@.len()
                    && final(self).entries@[i].0@ == name@
                    && final(self).entries@[i].1 == value
                    && forall|j: int| 0 <= j < old(self).entries@.len() && j != i ==> final(self).entries@[j] == old(self).entries@[j],
                None => final(self).entries@.len() == old(self).entries@.len() + 1
                    && final(self).entries@.last().0@ == name@
                    && final(self).entries@.last().1 == value
                    && forall|j: int| 0 <= j < old(self).entries@.len() ==> final(self).entries@[j] == old(self).entries@[j],
            },
    {
        proof {
            lemma_dic_find(self.entries@, name@);
        }
        match self.find(name) {
            Some(i) => {
                self.entries.set(i, (string_from(name), value));
            },
            None => {
                self.entries.push((string_from(name), value));
            },
        }
    }
}

/// The bindings of a substitution: a variable, or a typed variable, bound
/// to a value.
pub enum BindView {
    Var(VarView, ValueView),
    Tv(TvView, ValueView),
}

/// A substitution: bindings of variables and typed variables to values,
/// the latest first.
#[derive(Debug, PartialEq, Eq)]
pub enum Subst {
    Null,
    VarBinding(Var, Value, Arc<Subst>),
    TypedVarBinding(TypedVar, Value, Arc<Subst>),
}

/// The bindings of a substitution, the latest first.
pub open spec fn subst_view(s: Subst) -> Seq<BindView>
    decreases s,
{
    match s {
        Subst::Null => Seq::empty(),
        Subst::VarBinding(x, v, next) => seq![BindView::Var(x@, v@)] + subst_view(*next),
        Subst::TypedVarBinding(t, v, next) => seq![BindView::Tv(t@, v@)] + subst_view(*next),
    }
}

impl View for Subst {
    type V = Seq<BindView>;

    open spec fn view(&self) -> Seq<BindView> {
        subst_view(*self)
    }
}

/// The value the latest binding of the variable `x` binds it to.
pub open spec fn find_var_spec(bs: Seq<BindView>, x: VarView) -> Option<ValueView>
    decreases bs.len(),
{
    if bs.len() == 0 {
        None
    } else {
        match bs[0] {
            BindView::Var(y, v) => if y == x { Some(v) } else { find_var_spec(bs.drop_first(), x) },
            BindView::Tv(..) => find_var_spec(bs.drop_first(), x),
        }
    }
}

/// The value the latest binding of the typed variable `t` binds it to.
pub open spec fn find_tv_spec(bs: Seq<BindView>, t: TvView) -> Option<ValueView>
    decreases bs.len(),
{
    if bs.len() == 0 {
        None
    } else {
        match bs[0] {
            BindView::Tv(u, v) => if u == t { Some(v) } else { find_tv_spec(bs.drop_first(), t) },
            BindView::Var(..) => find_tv_spec(bs.drop_first(), t),
        }
    }
}

impl Clone for Subst {
    fn clone(&self) -> (r: Self)
        ensures
            r@ == self@,
    {
        match self {
            Subst::Null => Subst::Null,
            Subst::VarBinding(x, v, next) => Subst::VarBinding(copy_var(x), copy_value(v), share(next)),
            Subst::TypedVarBinding(t, v, next) => Subst::TypedVarBinding(copy_tv(t), copy_value(v), share(next)),
        }
    }
}

/// Whether two variables are the same.
pub fn var_eq(a: &Var, b: &Var) -> (r: bool)
    ensures
        r == (a@ == b@),
{
    a.id == b.id && str_eq(a.name.as_str(), b.name.as_str())
}

fn names_eq(a: &Vec<String>, b: &Vec<String>) -> (r: bool)
    ensures
        r == (names_view(a@) == names_view(b@)),
{
    if a.len() != b.len() {
        proof {
            assert(names_view(a@).len() != names_view(b@).len());
        }
        return false;
    }
    let mut i: usize = 0;
    while i < a.len()
        invariant
            a@.len() == b@.len(),
            i <= a@.len(),
            forall|j: int| 0 <= j < i ==> a@[j]@ == b@[j]@,
        decreases a@.len() - i,
    {
        if !str_eq(a[i].as_str(), b[i].as_str()) {
            proof {
                assert(names_view(a@)[i as int] != names_view(b@)[i as int]);
            }
            return false;
        }
        i = i + 1;
    }
    proof {
        assert(names_view(a@) =~= names_view(b@));
    }
    true
}

/// Whether two values are the same.
pub fn value_eq(a: &Value, b: &Value) -> (r: bool)
    ensures
        r == (a@ == b@),
    decreases a, 4nat,
{
    match (a, b) {
        (Value::Var(x), Value::Var(y)) => var_eq(x, y),
        (Value::TypedVar(x), Value::TypedVar(y)) => tv_eq(x, y),
        (Value::Disj(x), Value::Disj(y)) => {
            str_eq(x.name.as_str(), y.name.as_str()) && names_eq(&x.name_vec, &y.name_vec) && dic_eq(&x.body, &y.body)
        },
        (Value::Conj(x), Value::Conj(y)) => str_eq(x.name.as_str(), y.name.as_str()) && dic_eq(&x.body, &y.body),
        (Value::Data(x), Value::Data(y)) => str_eq(x.name.as_str(), y.name.as_str()) && dic_eq(&x.body, &y.body),
        (Value::TypeOfType, Value::TypeOfType) => true,
        _ => false,
    }
}

/// Whether two typed variables are the same, their types included.
pub fn tv_eq(a: &TypedVar, b: &TypedVar) -> (r: bool)
    ensures
        r == (a@ == b@),
    decreases a, 3nat,
{
    a.id == b.id && str_eq(a.name.as_str(), b.name.as_str()) && value_eq(&a.ty, &b.ty)
}

fn dic_eq(a: &Dic<Value>, b: &Dic<Value>) -> (r: bool)
    ensures
        r == (entries_view(a.entries@) == entries_view(b.entries@)),
    decreases a, 2nat,
{
    proof {
        lemma_entries_view(a.entries@);
        lemma_entries_view(b.entries@);
    }
    if a.entries.len() != b.entries.len() {
        return false;
    }
    let mut i: usize = 0;
    while i < a.entries.len()
        invariant
            a.entries@.len() == b.entries@.len(),
            i <= a.entries@.len(),
            entries_view(a.entries@).len() == a.entries@.len(),
            entries_view(b.entries@).len() == b.entries@.len(),
            forall|j: int| 0 <= j < i ==> #[trigger] entries_view(a.entries@)[j] == entries_view(b.entries@)[j],
            forall|j: int| 0 <= j < a.entries@.len() ==> #[trigger] entries_view(a.entries@)[j] == (a.entries@[j].0@, opt_value_view(a.entries@[j].1)),
            forall|j: int| 0 <= j < b.entries@.len() ==> #[trigger] entries_view(b.entries@)[j] == (b.entries@[j].0@, opt_value_view(b.entries@[j].1)),
        decreases a.entries@.len() - i,
    {
        assert(decreases_to!(a => a.entries@[i as int]));
        if !str_eq(a.entries[i].0.as_str(), b.entries[i].0.as_str()) {
            assert(entries_view(a.entries@)[i as int] != entries_view(b.entries@)[i as int]);
            return false;
        }
        let same = match (&a.entries[i].1, &b.entries[i].1) {
            (Some(x), Some(y)) => {
                assert(decreases_to!(a => a.entries@[i as int].1->Some_0));
                value_eq(x, y)
            },
            (None, None) => true,
            _ => false,
        };
        if !same {
            assert(entries_view(a.entries@)[i as int] != entries_view(b.entries@)[i as int]);
            return false;
        }
        i = i + 1;
    }
    proof {
        assert(entries_view(a.entries@) =~= entries_view(b.entries@));
    }
    true
}

proof fn lemma_step_back(
    s: Seq<BindView>,
    k: int,
    ante: Seq<BindView>,
    next: Seq<BindView>,
    before: Seq<BindView>,
    rest: Seq<BindView>,
)
    requires
        0 <= k < s.len(),
        ante == s.skip(k),
        ante == seq![ante[0]] + next,
        before == s.take(k).reverse() + rest,
    ensures
        next == s.skip(k + 1),
        seq![ante[0]] + before == s.take(k + 1).reverse() + rest,
{
    assert(ante.drop_first() =~= next);
    assert(s.skip(k + 1) =~= s.skip(k).drop_first());
    assert(s[k] == ante[0]);
    assert(s.take(k + 1).reverse() =~= seq![s[k]] + s.take(k).reverse());
    assert(seq![ante[0]] + before =~= s.take(k + 1).reverse() + rest);
}

impl Subst {
    /// The substitution with no bindings.
    pub fn new() -> (s: Self)
        ensures
            s@ == Seq::<BindView>::empty(),
    {
        Subst::Null
    }

    /// This substitution with `var` bound to `value` before its bindings.
    pub fn bind_var(&self, var: Var, value: Value) -> (s: Self)
        ensures
            s@ == seq![BindView::Var(var@, value@)] + self@,
    {
        Subst::VarBinding(var, value, Arc::new(self.clone()))
    }

    /// This substitution with `tv` bound to `value` before its bindings.
    pub fn bind_tv(&self, tv: TypedVar, value: Value) -> (s: Self)
        ensures
            s@ == seq![BindView::Tv(tv@, value@)] + self@,
    {
        Subst::TypedVarBinding(tv, value, Arc::new(self.clone()))
    }

    /// The value the latest binding of `var` binds it to.
    pub fn find_var(&self, var: &Var) -> (r: Option<&Value>)
        ensures
            match r {
                Some(v) => find_var_spec(self@, var@) == Some(v@),
                None => find_var_spec(self@, var@) is None,
            },
        decreases self,
    {
        match self {
            Subst::Null => None,
            Subst::VarBinding(var1, value, next) => {
                proof {
                    assert(self@.drop_first() =~= next@);
                }
                if var_eq(var1, var) {
                    Some(value)
                } else {
                    next.find_var(var)
                }
            },
            Subst::TypedVarBinding(_tv, _value, next) => {
                proof {
                    assert(self@.drop_first() =~= next@);
                }
                next.find_var(var)
            },
        }
    }

    /// The value the latest binding of `tv` binds it to.
    pub fn find_tv(&self, tv: &TypedVar) -> (r: Option<&Value>)
        ensures
            match r {
                Some(v) => find_tv_spec(self@, tv@) == Some(v@),
                None => find_tv_spec(self@, tv@) is None,
            },
        decreases self,
    {
        match self {
            Subst::Null => None,
            Subst::VarBinding(_var, _value, next) => {
                proof {
                    assert(self@.drop_first() =~= next@);
                }
                next.find_tv(tv)
            },
            Subst::TypedVarBinding(tv1, value, next) => {
                proof {
                    assert(self@.drop_first() =~= next@);
                }
                if tv_eq(tv1, tv) {
                    Some(value)
                } else {
                    next.find_tv(tv)
                }
            },
        }
    }

    /// The number of bindings.
    pub fn len(&self) -> (n: usize)
        requires
            self@.len() <= usize::MAX,
        ensures
            n == self@.len(),
    {
        let mut n: usize = 0;
        let mut subst = self;
        loop
            invariant
                n + subst@.len() == self@.len(),
                self@.len() <= usize::MAX,
            ensures
                n == self@.len(),
            decreases subst@.len(),
        {
            match subst {
                Subst::Null => {
                    break;
                },
                Subst::VarBinding(_var, _value, next) => {
                    n = n + 1;
                    subst = next;
                },
                Subst::TypedVarBinding(_tv, _value, next) => {
                    n = n + 1;
                    subst = next;
                },
            }
        }
        n
    }

    /// The bindings of this substitution in reverse order, before those of
    /// `subst`.
    pub fn reverse_union(&self, subst: &Subst) -> (r: Subst)
        ensures
            r@ == self@.reverse() + subst@,
    {
        let mut out = subst.clone();
        let mut ante = self;
        let ghost k: int = 0;
        proof {
            assert(self@.take(0).reverse() + subst@ =~= subst@);
            assert(self@.skip(0) =~= self@);
        }
        loop
            invariant
                0 <= k <= self@.len(),
                ante@ == self@.skip(k),
                out@ == self@.take(k).reverse() + subst@,
            ensures
                out@ == self@.reverse() + subst@,
            decreases ante@.len(),
        {
            match ante {
                Subst::Null => {
                    proof {
                        assert(self@.take(k) =~= self@);
                    }
                    break;
                },
                Subst::VarBinding(var, value, next) => {
                    let ghost before = out@;
                    out = Subst::VarBinding(copy_var(var), copy_value(value), Arc::new(out));
                    proof {
                        lemma_step_back(self@, k, ante@, next@, before, subst@);
                        k = k + 1;
                    }
                    ante = next;
                },
                Subst::TypedVarBinding(tv, value, next) => {
                    let ghost before = out@;
                    out = Subst::TypedVarBinding(copy_tv(tv), copy_value(value), Arc::new(out));
                    proof {
                        lemma_step_back(self@, k, ante@, next@, before, subst@);
                        k = k + 1;
                    }
                    ante = next;
                },
            }
        }
        out
    }

    /// The bindings of this substitution in reverse order.
    pub fn reverse(&self) -> (r: Subst)
        ensures
            r@ == self@.reverse(),
    {
        let r = self.reverse_union(&Subst::new());
        proof {
            assert(self@.reverse() + Seq::<BindView>::empty() =~= self@.reverse());
        }
        r
    }

    /// The bindings of this substitution before those of `subst`.
    pub fn union(&self, subst: &Subst) -> (r: Subst)
        ensures
            r@ == self@ + subst@,
    {
        let ante = self.reverse();
        let r = ante.reverse_union(subst);
        proof {
            assert(self@.reverse().reverse() =~= self@);
        }
        r
    }
}

/// Whether the value is a variable or a typed variable that the bindings
/// bind.
pub open spec fn bound(bs: Seq<BindView>, v: ValueView) -> bool {
    match v {
        ValueView::Var(x) => find_var_spec(bs, x) is Some,
        ValueView::TypedVar(t) => find_tv_spec(bs, t) is Some,
        _ => false,
    }
}

/// What a bound variable is bound to; any other value itself.
pub open spec fn lookup(bs: Seq<BindView>, v: ValueView) -> ValueView {
    match v {
        ValueView::Var(x) => match find_var_spec(bs, x) {
            Some(w) => w,
            None => v,
        },
        ValueView::TypedVar(t) => match find_tv_spec(bs, t) {
            Some(w) => w,
            None => v,
        },
        _ => v,
    }
}

/// Where a value leads through the bindings within `fuel` steps.
pub open spec fn walk_fuel(bs: Seq<BindView>, v: ValueView, fuel: nat) -> ValueView
    decreases fuel,
{
    if fuel > 0 && bound(bs, v) {
        walk_fuel(bs, lookup(bs, v), (fuel - 1) as nat)
    } else {
        v
    }
}

/// Whether walking the value through the bindings comes to a value that
/// is not bound.  Bindings that make a variable stand, through others, for
/// itself keep the walk going without end.
pub open spec fn walk_ends(bs: Seq<BindView>, v: ValueView) -> bool {
    exists|fuel: nat| !bound(bs, #[trigger] walk_fuel(bs, v, fuel))
}

/// Where a value leads through the bindings, where the walk ends.
pub open spec fn walk_spec(bs: Seq<BindView>, v: ValueView) -> ValueView {
    walk_fuel(bs, v, choose|fuel: nat| !bound(bs, #[trigger] walk_fuel(bs, v, fuel)))
}

impl Subst {
    fn walk_in(&self, value: &Value, Ghost(fuel): Ghost<nat>) -> (r: Value)
        requires
            !bound(self@, walk_fuel(self@, value@, fuel)),
        ensures
            r@ == walk_fuel(self@, value@, fuel),
        decreases fuel,
    {
        match value {
            Value::Var(var) => match self.find_var(var) {
                Some(new_value) => self.walk_in(new_value, Ghost((fuel - 1) as nat)),
                None => copy_value(value),
            },
            Value::TypedVar(tv) => match self.find_tv(tv) {
                Some(new_value) => self.walk_in(new_value, Ghost((fuel - 1) as nat)),
                None => copy_value(value),
            },
            _ => copy_value(value),
        }
    }

    /// Where `value` leads through the bindings: to a value that is not
    /// bound.
    pub fn walk(&self, value: &Value) -> (r: Value)
        requires
            walk_ends(self@, value@),
        ensures
            r@ == walk_spec(self@, value@),
    {
        let ghost fuel = choose|fuel: nat| !bound(self@, #[trigger] walk_fuel(self@, value@, fuel));
        self.walk_in(value, Ghost(fuel))
    }
}

/// The value of the first entry named `name`, where it has one.
pub open spec fn entry_get(vs: Seq<(Seq<char>, Option<ValueView>)>, name: Seq<char>) -> Option<ValueView>
    decreases vs.len(),
{
    if vs.len() == 0 {
        None
    } else if vs[0].0 == name {
        vs[0].1
    } else {
        entry_get(vs.drop_first(), name)
    }
}

/// The value of the first entry of `d` named `name`, where it has one.
pub fn get_value<'b>(d: &'b Dic<Value>, name: &str) -> (r: Option<&'b Value>)
    ensures
        match r {
            Some(v) => entry_get(entries_view(d.entries@), name@) == Some(v@),
            None => entry_get(entries_view(d.entries@), name@) is None,
        },
{
    let ghost vs = entries_view(d.entries@);
    proof {
        lemma_entries_view(d.entries@);
        assert(vs.skip(0) =~= vs);
    }
    let mut i: usize = 0;
    while i < d.entries.len()
        invariant
            i <= d.entries@.len(),
            vs == entries_view(d.entries@),
            vs.len() == d.entries@.len(),
            forall|j: int| 0 <= j < d.entries@.len() ==> #[trigger] vs[j] == (d.entries@[j].0@, opt_value_view(d.entries@[j].1)),
            entry_get(vs.skip(i as int), name@) == entry_get(vs, name@),
        decreases d.entries@.len() - i,
    {
        proof {
            assert(vs.skip(i as int)[0] == vs[i as int]);
            assert(vs.skip(i as int).drop_first() =~= vs.skip(i + 1));
        }
        if str_eq(d.entries[i].0.as_str(), name) {
            return match &d.entries[i].1 {
                Some(v) => Some(v),
                None => None,
            };
        }
        i = i + 1;
    }
    None
}

/// Whether `name` is one of `names`.
fn names_contain(names: &Vec<String>, name: &String) -> (r: bool)
    ensures
        r == names_view(names@).contains(name@),
{
    let mut i: usize = 0;
    while i < names.len()
        invariant
            i <= names@.len(),
            forall|j: int| 0 <= j < i ==> names@[j]@ != name@,
        decreases names@.len() - i,
    {
        if str_eq(names[i].as_str(), name.as_str()) {
            proof {
                assert(names_view(names@)[i as int] == name@);
            }
            return true;
        }
        i = i + 1;
    }
    proof {
        if names_view(names@).contains(name@) {
            let k = choose|k: int| 0 <= k < names_view(names@).len() && names_view(names@)[k] == name@;
            assert(names@[k]@ == name@);
        }
    }
    false
}

/// Whether `target` occurs in `v` walked through the bindings within
/// `fuel` steps and levels: `None` where the fuel runs out.  A value that
/// walks to data is searched through the values of its fields; any other
/// occurs where it is the target.
pub open spec fn occurs_fuel(bs: Seq<BindView>, target: ValueView, v: ValueView, fuel: nat) -> Option<bool>
    decreases fuel, 0nat,
{
    if fuel == 0 {
        None
    } else {
        let w = walk_fuel(bs, v, fuel);
        if bound(bs, w) {
            None
        } else {
            match w {
                ValueView::Data(_, es) => occurs_in(bs, target, es, 0, (fuel - 1) as nat),
                _ => Some(w == target),
            }
        }
    }
}

/// Whether `target` occurs in the values of the entries from index `i` on.
pub open spec fn occurs_in(bs: Seq<BindView>, target: ValueView, es: Seq<(Seq<char>, Option<ValueView>)>, i: int, fuel: nat)
    -> Option<bool>
    decreases fuel, 1nat + (if i < es.len() { (es.len() - i) as nat } else { 0nat }),
{
    if i < 0 || i >= es.len() {
        Some(false)
    } else {
        match es[i].1 {
            None => occurs_in(bs, target, es, i + 1, fuel),
            Some(x) => match occurs_fuel(bs, target, x, fuel) {
                None => None,
                Some(true) => Some(true),
                Some(false) => occurs_in(bs, target, es, i + 1, fuel),
            },
        }
    }
}

/// Whether the search for `target` in `v` comes to an end.
pub open spec fn occurs_ends(bs: Seq<BindView>, target: ValueView, v: ValueView) -> bool {
    exists|fuel: nat| #[trigger] occurs_fuel(bs, target, v, fuel) is Some
}

/// Whether `target` occurs in `v`, where the search ends.
pub open spec fn occurs_spec(bs: Seq<BindView>, target: ValueView, v: ValueView) -> bool {
    occurs_fuel(bs, target, v, choose|fuel: nat| #[trigger] occurs_fuel(bs, target, v, fuel) is Some)->Some_0
}

impl Subst {
    fn occurs_at(&self, target: &Value, value: &Value, Ghost(fuel): Ghost<nat>) -> (r: bool)
        requires
            occurs_fuel(self@, target@, value@, fuel) is Some,
        ensures
            r == occurs_fuel(self@, target@, value@, fuel)->Some_0,
        decreases fuel, 0nat,
    {
        let w = self.walk_in(value, Ghost(fuel));
        match &w {
            Value::Data(data) => self.occurs_in_dic(target, &data.body, Ghost((fuel - 1) as nat)),
            _ => value_eq(&w, target),
        }
    }

    fn occurs_in_dic(&self, target: &Value, d: &Dic<Value>, Ghost(fuel): Ghost<nat>) -> (r: bool)
        requires
            occurs_in(self@, target@, entries_view(d.entries@), 0, fuel) is Some,
        ensures
            r == occurs_in(self@, target@, entries_view(d.entries@), 0, fuel)->Some_0,
        decreases fuel, 1nat + d.entries@.len(),
    {
        let ghost es = entries_view(d.entries@);
        proof {
            lemma_entries_view(d.entries@);
        }
        let mut i: usize = 0;
        while i < d.entries.len()
            invariant
                i <= d.entries@.len(),
                es == entries_view(d.entries@),
                es.len() == d.entries@.len(),
                forall|j: int| 0 <= j < d.entries@.len() ==> #[trigger] es[j] == (d.entries@[j].0@, opt_value_view(d.entries@[j].1)),
                occurs_in(self@, target@, es, i as int, fuel) == occurs_in(self@, target@, es, 0, fuel),
                occurs_in(self@, target@, es, 0, fuel) is Some,
            decreases d.entries@.len() - i,
        {
            match &d.entries[i].1 {
                Some(x) => {
                    if self.occurs_at(target, x, Ghost(fuel)) {
                        return true;
                    }
                },
                None => {},
            }
            i = i + 1;
        }
        false
    }

    /// Whether `var` occurs in `value`: in what it walks to, or in the
    /// fields of data it walks to.
    pub fn var_occur_p(&self, var: &Var, value: &Value) -> (r: bool)
        requires
            occurs_ends(self@, ValueView::Var(var@), value@),
        ensures
            r == occurs_spec(self@, ValueView::Var(var@), value@),
    {
        let target = Value::Var(copy_var(var));
        let ghost fuel = choose|fuel: nat| #[trigger] occurs_fuel(self@, ValueView::Var(var@), value@, fuel) is Some;
        self.occurs_at(&target, value, Ghost(fuel))
    }

    /// Whether `tv` occurs in `value`: in what it walks to, or in the
    /// fields of data it walks to.
    pub fn tv_occur_p(&self, tv: &TypedVar, value: &Value) -> (r: bool)
        requires
            occurs_ends(self@, ValueView::TypedVar(tv@), value@),
        ensures
            r == occurs_spec(self@, ValueView::TypedVar(tv@), value@),
    {
        let target = Value::TypedVar(copy_tv(tv));
        let ghost fuel = choose|fuel: nat| #[trigger] occurs_fuel(self@, ValueView::TypedVar(tv@), value@, fuel) is Some;
        self.occurs_at(&target, value, Ghost(fuel))
    }
}

/// Whether cutting the last two bytes off the name falls between two
/// characters.
pub open spec fn cut_ok(n: Seq<char>) -> bool {
    n.len() >= 1 && (char_width(n.last()) == 2
        || (char_width(n.last()) == 1 && n.len() >= 2 && char_width(n[n.len() - 2]) == 1))
}

/// The name of the proposition of a constructor: its name with the last
/// two bytes, its `-c`, replaced by `-t`.
pub open spec fn prop_name_of_cons(n: Seq<char>) -> Seq<char> {
    renamed_kind(n, 't')
}

/// The name with its last two bytes replaced by `-` and `c`.
pub open spec fn renamed_kind(n: Seq<char>, c: char) -> Seq<char> {
    let k = if char_width(n.last()) == 2 { 1int } else { 2int };
    n.subrange(0, n.len() - k) + seq!['-', c]
}

fn rename_kind(name: &str, c: char) -> (r: String)
    requires
        cut_ok(name@),
    ensures
        r@ == renamed_kind(name@, c),
{
    let cs = chars_of(name);
    let n = cs.len();
    let k: usize = if len_utf8(cs[n - 1]) == 2 { 1 } else { 2 };
    let mut r = String::new();
    let mut i: usize = 0;
    while i < n - k
        invariant
            cs@ == name@,
            n == cs@.len(),
            k <= n,
            k == (if char_width(cs@.last()) == 2 { 1int } else { 2int }),
            i <= n - k,
            r@ == cs@.subrange(0, i as int),
        decreases n - k - i,
    {
        push_char(&mut r, cs[i]);
        proof {
            assert(cs@.subrange(0, i + 1) =~= cs@.subrange(0, i as int).push(cs@[i as int]));
        }
        i = i + 1;
    }
    push_char(&mut r, '-');
    push_char(&mut r, c);
    proof {
        assert(r@ =~= renamed_kind(name@, c));
    }
    r
}

/// The name of the proposition of the constructor `cons_name`: its last
/// two bytes replaced by `-t`.
pub fn name_to_prop_name(cons_name: &str) -> (r: String)
    requires
        cut_ok(cons_name@),
    ensures
        r@ == prop_name_of_cons(cons_name@),
{
    rename_kind(cons_name, 't')
}

/// The name of the constructor of `name`: its last two bytes replaced by
/// `-c`.
pub fn name_to_cons_name(name: &str) -> (r: String)
    requires
        cut_ok(name@),
    ensures
        r@ == renamed_kind(name@, 'c'),
{
    rename_kind(name, 'c')
}

/// Unifying `u` and `v` in the bindings `bs`, within `fuel` steps of
/// walking and levels of nesting: `None` where the fuel runs out or the
/// name of data met cannot be cut; else `Some(None)` where the values
/// cannot be made equal and `Some(Some(bs2))` with the bindings that make
/// them equal.  Both values are walked first; then a variable is bound to
/// the other value where it does not occur in it; a typed variable is
/// bound where it does not occur in the other value and its type takes
/// that value; data, disjunctions and conjunctions of one name unify
/// field by field; a conjunction named among a disjunction's names unifies
/// with its fields.
pub open spec fn unify_fuel(bs: Seq<BindView>, u: ValueView, v: ValueView, fuel: nat) -> Option<Option<Seq<BindView>>>
    decreases fuel, 0nat,
{
    if fuel == 0 {
        None
    } else {
        let wu = walk_fuel(bs, u, fuel);
        let wv = walk_fuel(bs, v, fuel);
        let f = (fuel - 1) as nat;
        if bound(bs, wu) || bound(bs, wv) {
            None
        } else if wu is Var && wv is Var && wu == wv {
            Some(Some(bs))
        } else if wu is TypedVar && wv is TypedVar && wu == wv {
            Some(Some(bs))
        } else if wu is Var {
            match occurs_fuel(bs, wu, wv, f) {
                None => None,
                Some(true) => Some(None),
                Some(false) => Some(Some(seq![BindView::Var(wu->Var_0, wv)] + bs)),
            }
        } else if wv is Var {
            match occurs_fuel(bs, wv, wu, f) {
                None => None,
                Some(true) => Some(None),
                Some(false) => Some(Some(seq![BindView::Var(wv->Var_0, wu)] + bs)),
            }
        } else if wu is TypedVar || wv is TypedVar {
            let tv = if wu is TypedVar { wu->TypedVar_0 } else { wv->TypedVar_0 };
            let w = if wu is TypedVar { wv } else { wu };
            match occurs_fuel(bs, ValueView::TypedVar(tv), w, f) {
                None => None,
                Some(true) => Some(None),
                Some(false) => match unify_type_fuel(bs, *tv.ty, w, f) {
                    None => None,
                    Some(None) => Some(None),
                    Some(Some(bs2)) => Some(Some(seq![BindView::Tv(tv, w)] + bs2)),
                },
            }
        } else {
            match (wu, wv) {
                (ValueView::Data(n1, e1), ValueView::Data(n2, e2)) => if n1 != n2 {
                    Some(None)
                } else {
                    unify_dic_fuel(bs, e1, e2, 0, f)
                },
                (ValueView::Disj(n1, ns1, e1), ValueView::Disj(n2, ns2, e2)) => if n1 != n2 || ns1 != ns2 {
                    Some(None)
                } else {
                    unify_dic_fuel(bs, e1, e2, 0, f)
                },
                (ValueView::Conj(n1, e1), ValueView::Conj(n2, e2)) => if n1 != n2 {
                    Some(None)
                } else {
                    unify_dic_fuel(bs, e1, e2, 0, f)
                },
                (ValueView::Disj(_, ns, ed), ValueView::Conj(cn, ec)) => if ns.contains(cn) {
                    cover_fuel(bs, ec, ed, 0, f)
                } else {
                    Some(None)
                },
                (ValueView::Conj(cn, ec), ValueView::Disj(_, ns, ed)) => if ns.contains(cn) {
                    cover_fuel(bs, ec, ed, 0, f)
                } else {
                    Some(None)
                },
                (ValueView::TypeOfType, ValueView::TypeOfType) => Some(Some(bs)),
                _ => Some(None),
            }
        }
    }
}

/// Whether a value `v` fits the type `t`, as unifying within `fuel`: data
/// fits a conjunction that is its constructor's proposition, or a
/// disjunction that names it, where the fields of the proposition unify
/// with the data's; disjunctions and conjunctions fit the type of types;
/// a typed variable fits where its type unifies with `t`.
pub open spec fn unify_type_fuel(bs: Seq<BindView>, t: ValueView, v: ValueView, fuel: nat)
    -> Option<Option<Seq<BindView>>>
    decreases fuel, 0nat,
{
    if fuel == 0 {
        None
    } else {
        let wt = walk_fuel(bs, t, fuel);
        let wv = walk_fuel(bs, v, fuel);
        let f = (fuel - 1) as nat;
        if bound(bs, wt) || bound(bs, wv) {
            None
        } else {
            match (wt, wv) {
                (ValueView::Conj(cn, ce), ValueView::Data(dn, de)) => if !cut_ok(dn) {
                    None
                } else if cn != prop_name_of_cons(dn) {
                    Some(None)
                } else {
                    cover_fuel(bs, de, ce, 0, f)
                },
                (ValueView::Disj(_, ns, je), ValueView::Data(dn, de)) => if !cut_ok(dn) {
                    None
                } else if ns.contains(prop_name_of_cons(dn)) {
                    cover_fuel(bs, de, je, 0, f)
                } else {
                    Some(None)
                },
                (ValueView::TypeOfType, ValueView::Disj(..)) => Some(Some(bs)),
                (ValueView::TypeOfType, ValueView::Conj(..)) => Some(Some(bs)),
                (t2, ValueView::TypedVar(tv)) => unify_fuel(bs, t2, *tv.ty, f),
                _ => Some(None),
            }
        }
    }
}

/// Unifying each valued entry of `small` from index `i` on with the value
/// of the entry of `large` of its name, one after another: no such entry
/// in `large` cannot be made equal.
pub open spec fn cover_fuel(
    bs: Seq<BindView>,
    large: Seq<(Seq<char>, Option<ValueView>)>,
    small: Seq<(Seq<char>, Option<ValueView>)>,
    i: int,
    fuel: nat,
) -> Option<Option<Seq<BindView>>>
    decreases fuel, 1nat + (if i < small.len() { (small.len() - i) as nat } else { 0nat }),
{
    if i < 0 || i >= small.len() {
        Some(Some(bs))
    } else {
        match small[i].1 {
            None => cover_fuel(bs, large, small, i + 1, fuel),
            Some(v) => match entry_get(large, small[i].0) {
                None => Some(None),
                Some(v1) => match unify_fuel(bs, v1, v, fuel) {
                    None => None,
                    Some(None) => Some(None),
                    Some(Some(bs2)) => cover_fuel(bs2, large, small, i + 1, fuel),
                },
            },
        }
    }
}

/// Unifying two lists of entries pair by pair from index `i` on, as far as
/// the shorter goes: pairs must have one name and both a value.
pub open spec fn unify_dic_fuel(
    bs: Seq<BindView>,
    us: Seq<(Seq<char>, Option<ValueView>)>,
    vs: Seq<(Seq<char>, Option<ValueView>)>,
    i: int,
    fuel: nat,
) -> Option<Option<Seq<BindView>>>
    decreases fuel, 1nat + (if i < us.len() { (us.len() - i) as nat } else { 0nat }),
{
    if i < 0 || i >= us.len() || i >= vs.len() {
        Some(Some(bs))
    } else if us[i].0 != vs[i].0 {
        Some(None)
    } else {
        match (us[i].1, vs[i].1) {
            (Some(a), Some(b)) => match unify_fuel(bs, a, b, fuel) {
                None => None,
                Some(None) => Some(None),
                Some(Some(bs2)) => unify_dic_fuel(bs2, us, vs, i + 1, fuel),
            },
            _ => Some(None),
        }
    }
}

/// Whether unifying `u` and `v` in `bs` comes to an end without meeting a
/// data name that cannot be cut.
pub open spec fn unify_ends(bs: Seq<BindView>, u: ValueView, v: ValueView) -> bool {
    exists|fuel: nat| #[trigger] unify_fuel(bs, u, v, fuel) is Some
}

/// Whether covering the fields `small` by `large` in `bs` comes to an end.
pub open spec fn cover_ends(bs: Seq<BindView>, large: Seq<(Seq<char>, Option<ValueView>)>, small: Seq<(Seq<char>, Option<ValueView>)>) -> bool {
    exists|fuel: nat| #[trigger] cover_fuel(bs, large, small, 0, fuel) is Some
}

/// What covering the fields `small` by `large` in `bs` gives, where it
/// ends.
pub open spec fn cover_spec(bs: Seq<BindView>, large: Seq<(Seq<char>, Option<ValueView>)>, small: Seq<(Seq<char>, Option<ValueView>)>)
    -> Option<Seq<BindView>> {
    cover_fuel(bs, large, small, 0, choose|fuel: nat| #[trigger] cover_fuel(bs, large, small, 0, fuel) is Some)->Some_0
}

/// Whether unifying the fields `us` and `vs` pairwise in `bs` comes to an
/// end.
pub open spec fn unify_dic_ends(bs: Seq<BindView>, us: Seq<(Seq<char>, Option<ValueView>)>, vs: Seq<(Seq<char>, Option<ValueView>)>) -> bool {
    exists|fuel: nat| #[trigger] unify_dic_fuel(bs, us, vs, 0, fuel) is Some
}

/// What unifying the fields `us` and `vs` pairwise in `bs` gives, where
/// it ends.
pub open spec fn unify_dic_spec(bs: Seq<BindView>, us: Seq<(Seq<char>, Option<ValueView>)>, vs: Seq<(Seq<char>, Option<ValueView>)>)
    -> Option<Seq<BindView>> {
    unify_dic_fuel(bs, us, vs, 0, choose|fuel: nat| #[trigger] unify_dic_fuel(bs, us, vs, 0, fuel) is Some)->Some_0
}

/// What unifying `u` and `v` in `bs` gives, where it ends.
pub open spec fn unify_spec(bs: Seq<BindView>, u: ValueView, v: ValueView) -> Option<Seq<BindView>> {
    unify_fuel(bs, u, v, choose|fuel: nat| #[trigger] unify_fuel(bs, u, v, fuel) is Some)->Some_0
}

/// Whether fitting `v` to the type `t` in `bs` comes to an end.
pub open spec fn unify_type_ends(bs: Seq<BindView>, t: ValueView, v: ValueView) -> bool {
    exists|fuel: nat| #[trigger] unify_type_fuel(bs, t, v, fuel) is Some
}

/// What fitting `v` to the type `t` in `bs` gives, where it ends.
pub open spec fn unify_type_spec(bs: Seq<BindView>, t: ValueView, v: ValueView) -> Option<Seq<BindView>> {
    unify_type_fuel(bs, t, v, choose|fuel: nat| #[trigger] unify_type_fuel(bs, t, v, fuel) is Some)->Some_0
}

/// The result of a unification as the exec code gives it.
pub open spec fn matches_outcome(r: Option<Subst>, o: Option<Seq<BindView>>) -> bool {
    match o {
        Some(bs) => r matches Some(s) && s@ == bs,
        None => r is None,
    }
}

impl Subst {
    fn unify_in(&self, u: &Value, v: &Value, Ghost(fuel): Ghost<nat>) -> (r: Option<Subst>)
        requires
            unify_fuel(self@, u@, v@, fuel) is Some,
        ensures
            matches_outcome(r, unify_fuel(self@, u@, v@, fuel)->Some_0),
        decreases fuel, 0nat,
    {
        let wu = self.walk_in(u, Ghost(fuel));
        let wv = self.walk_in(v, Ghost(fuel));
        let ghost f = (fuel - 1) as nat;
        match (&wu, &wv) {
            (Value::Var(a), Value::Var(b)) => {
                if var_eq(a, b) {
                    return Some(self.clone());
                }
            },
            (Value::TypedVar(a), Value::TypedVar(b)) => {
                if tv_eq(a, b) {
                    return Some(self.clone());
                }
            },
            _ => {},
        }
        if let Value::Var(a) = &wu {
            if self.occurs_at(&wu, &wv, Ghost(f)) {
                return None;
            }
            return Some(self.bind_var(copy_var(a), copy_value(&wv)));
        }
        if let Value::Var(b) = &wv {
            if self.occurs_at(&wv, &wu, Ghost(f)) {
                return None;
            }
            return Some(self.bind_var(copy_var(b), copy_value(&wu)));
        }
        let pair: Option<(&TypedVar, &Value)> = match (&wu, &wv) {
            (Value::TypedVar(t), w) => Some((t, w)),
            (w, Value::TypedVar(t)) => Some((t, w)),
            _ => None,
        };
        if let Some((tv, w)) = pair {
            let target = Value::TypedVar(copy_tv(tv));
            if self.occurs_at(&target, w, Ghost(f)) {
                return None;
            }
            return match self.unify_type_in(&tv.ty, w, Ghost(f)) {
                Some(subst) => Some(subst.bind_tv(copy_tv(tv), copy_value(w))),
                None => None,
            };
        }
        match (&wu, &wv) {
            (Value::Data(a), Value::Data(b)) => {
                if !str_eq(a.name.as_str(), b.name.as_str()) {
                    return None;
                }
                self.unify_dic_in(&a.body, &b.body, Ghost(f))
            },
            (Value::Disj(a), Value::Disj(b)) => {
                if !str_eq(a.name.as_str(), b.name.as_str()) {
                    return None;
                }
                if !names_eq(&a.name_vec, &b.name_vec) {
                    return None;
                }
                self.unify_dic_in(&a.body, &b.body, Ghost(f))
            },
            (Value::Conj(a), Value::Conj(b)) => {
                if !str_eq(a.name.as_str(), b.name.as_str()) {
                    return None;
                }
                self.unify_dic_in(&a.body, &b.body, Ghost(f))
            },
            (Value::Disj(disj), Value::Conj(conj)) => {
                if !names_contain(&disj.name_vec, &conj.name) {
                    return None;
                }
                self.cover_in(&conj.body, &disj.body, Ghost(f))
            },
            (Value::Conj(conj), Value::Disj(disj)) => {
                if !names_contain(&disj.name_vec, &conj.name) {
                    return None;
                }
                self.cover_in(&conj.body, &disj.body, Ghost(f))
            },
            (Value::TypeOfType, Value::TypeOfType) => Some(self.clone()),
            _ => None,
        }
    }

    fn unify_type_in(&self, t: &Value, v: &Value, Ghost(fuel): Ghost<nat>) -> (r: Option<Subst>)
        requires
            unify_type_fuel(self@, t@, v@, fuel) is Some,
        ensures
            matches_outcome(r, unify_type_fuel(self@, t@, v@, fuel)->Some_0),
        decreases fuel, 0nat,
    {
        let wt = self.walk_in(t, Ghost(fuel));
        let wv = self.walk_in(v, Ghost(fuel));
        let ghost f = (fuel - 1) as nat;
        match (&wt, &wv) {
            (Value::Conj(conj), Value::Data(data)) => {
                let prop_name = name_to_prop_name(data.name.as_str());
                if !str_eq(conj.name.as_str(), prop_name.as_str()) {
                    None
                } else {
                    self.cover_in(&data.body, &conj.body, Ghost(f))
                }
            },
            (Value::Disj(disj), Value::Data(data)) => {
                let prop_name = name_to_prop_name(data.name.as_str());
                if names_contain(&disj.name_vec, &prop_name) {
                    self.cover_in(&data.body, &disj.body, Ghost(f))
                } else {
                    None
                }
            },
            (Value::TypeOfType, Value::Disj(..)) => Some(self.clone()),
            (Value::TypeOfType, Value::Conj(..)) => Some(self.clone()),
            (_, Value::TypedVar(tv)) => self.unify_in(&wt, &tv.ty, Ghost(f)),
            _ => None,
        }
    }

    fn cover_in(&self, large: &Dic<Value>, small: &Dic<Value>, Ghost(fuel): Ghost<nat>) -> (r: Option<Subst>)
        requires
            cover_fuel(self@, entries_view(large.entries@), entries_view(small.entries@), 0, fuel) is Some,
        ensures
            matches_outcome(r, cover_fuel(self@, entries_view(large.entries@), entries_view(small.entries@), 0, fuel)->Some_0),
        decreases fuel, 1nat + small.entries@.len(),
    {
        let ghost le = entries_view(large.entries@);
        let ghost se = entries_view(small.entries@);
        proof {
            lemma_entries_view(small.entries@);
        }
        let mut subst = self.clone();
        let mut i: usize = 0;
        while i < small.entries.len()
            invariant
                i <= small.entries@.len(),
                le == entries_view(large.entries@),
                se == entries_view(small.entries@),
                se.len() == small.entries@.len(),
                forall|j: int| 0 <= j < small.entries@.len() ==> #[trigger] se[j] == (small.entries@[j].0@, opt_value_view(small.entries@[j].1)),
                cover_fuel(subst@, le, se, i as int, fuel) == cover_fuel(self@, le, se, 0, fuel),
                cover_fuel(self@, le, se, 0, fuel) is Some,
            decreases small.entries@.len() - i,
        {
            match &small.entries[i].1 {
                Some(v) => {
                    match get_value(large, small.entries[i].0.as_str()) {
                        Some(v1) => {
                            match subst.unify_in(v1, v, Ghost(fuel)) {
                                Some(s) => {
                                    subst = s;
                                },
                                None => {
                                    return None;
                                },
                            }
                        },
                        None => {
                            return None;
                        },
                    }
                },
                None => {},
            }
            i = i + 1;
        }
        Some(subst)
    }

    fn unify_dic_in(&self, ud: &Dic<Value>, vd: &Dic<Value>, Ghost(fuel): Ghost<nat>) -> (r: Option<Subst>)
        requires
            unify_dic_fuel(self@, entries_view(ud.entries@), entries_view(vd.entries@), 0, fuel) is Some,
        ensures
            matches_outcome(r, unify_dic_fuel(self@, entries_view(ud.entries@), entries_view(vd.entries@), 0, fuel)->Some_0),
        decreases fuel, 1nat + ud.entries@.len(),
    {
        let ghost ue = entries_view(ud.entries@);
        let ghost ve = entries_view(vd.entries@);
        proof {
            lemma_entries_view(ud.entries@);
            lemma_entries_view(vd.entries@);
        }
        let mut subst = self.clone();
        let mut i: usize = 0;
        while i < ud.entries.len() && i < vd.entries.len()
            invariant
                i <= ud.entries@.len(),
                i <= vd.entries@.len(),
                ue == entries_view(ud.entries@),
                ve == entries_view(vd.entries@),
                ue.len() == ud.entries@.len(),
                ve.len() == vd.entries@.len(),
                forall|j: int| 0 <= j < ud.entries@.len() ==> #[trigger] ue[j] == (ud.entries@[j].0@, opt_value_view(ud.entries@[j].1)),
                forall|j: int| 0 <= j < vd.entries@.len() ==> #[trigger] ve[j] == (vd.entries@[j].0@, opt_value_view(vd.entries@[j].1)),
                unify_dic_fuel(subst@, ue, ve, i as int, fuel) == unify_dic_fuel(self@, ue, ve, 0, fuel),
                unify_dic_fuel(self@, ue, ve, 0, fuel) is Some,
            decreases ud.entries@.len() - i,
        {
            if !str_eq(ud.entries[i].0.as_str(), vd.entries[i].0.as_str()) {
                return None;
            }
            match (&ud.entries[i].1, &vd.entries[i].1) {
                (Some(a), Some(b)) => {
                    match subst.unify_in(a, b, Ghost(fuel)) {
                        Some(s) => {
                            subst = s;
                        },
                        None => {
                            return None;
                        },
                    }
                },
                _ => {
                    return None;
                },
            }
            i = i + 1;
        }
        Some(subst)
    }

    /// Unifies `u` and `v`: the bindings, before those of this
    /// substitution, that make the two values equal, or `None` where
    /// there are none.
    /// Unifies each field of `small` with the field of the same name in
    /// `large`, in order: `None` where one is missing or does not unify.
    pub fn cover_dic(&self, large_dic: &Dic<Value>, small_dic: &Dic<Value>) -> (r: Option<Subst>)
        requires
            cover_ends(self@, entries_view(large_dic.entries@), entries_view(small_dic.entries@)),
        ensures
            matches_outcome(r, cover_spec(self@, entries_view(large_dic.entries@), entries_view(small_dic.entries@))),
    {
        let ghost le = entries_view(large_dic.entries@);
        let ghost se = entries_view(small_dic.entries@);
        let ghost fuel = choose|fuel: nat| #[trigger] cover_fuel(self@, le, se, 0, fuel) is Some;
        self.cover_in(large_dic, small_dic, Ghost(fuel))
    }

    /// Unifies the fields of two dictionaries pairwise, in order: `None`
    /// where their names differ or a pair does not unify.
    pub fn unify_dic(&self, u_dic: &Dic<Value>, v_dic: &Dic<Value>) -> (r: Option<Subst>)
        requires
            unify_dic_ends(self@, entries_view(u_dic.entries@), entries_view(v_dic.entries@)),
        ensures
            matches_outcome(r, unify_dic_spec(self@, entries_view(u_dic.entries@), entries_view(v_dic.entries@))),
    {
        let ghost ue = entries_view(u_dic.entries@);
        let ghost ve = entries_view(v_dic.entries@);
        let ghost fuel = choose|fuel: nat| #[trigger] unify_dic_fuel(self@, ue, ve, 0, fuel) is Some;
        self.unify_dic_in(u_dic, v_dic, Ghost(fuel))
    }

    pub fn unify(&self, u: &Value, v: &Value) -> (r: Option<Subst>)
        requires
            unify_ends(self@, u@, v@),
        ensures
            matches_outcome(r, unify_spec(self@, u@, v@)),
    {
        let ghost fuel = choose|fuel: nat| #[trigger] unify_fuel(self@, u@, v@, fuel) is Some;
        self.unify_in(u, v, Ghost(fuel))
    }

    /// Fits the value `v` to the type `t`: the bindings that make it fit,
    /// or `None` where there are none.
    pub fn unify_type_to_value(&self, t: &Value, v: &Value) -> (r: Option<Subst>)
        requires
            unify_type_ends(self@, t@, v@),
        ensures
            matches_outcome(r, unify_type_spec(self@, t@, v@)),
    {
        let ghost fuel = choose|fuel: nat| #[trigger] unify_type_fuel(self@, t@, v@, fuel) is Some;
        self.unify_type_in(t, v, Ghost(fuel))
    }
}

/// Whether an exec result of unifying within a budget is what `o`, the
/// result within that fuel, says: `None` where the fuel runs out.
pub open spec fn fuel_outcome(r: Option<Option<Subst>>, o: Option<Option<Seq<BindView>>>) -> bool {
    match o {
        None => r is None,
        Some(x) => r matches Some(y) && matches_outcome(y, x),
    }
}

pub(crate) fn cut_ok_p(name: &str) -> (r: bool)
    ensures
        r == cut_ok(name@),
{
    let cs = chars_of(name);
    let n = cs.len();
    if n == 0 {
        return false;
    }
    let w = len_utf8(cs[n - 1]);
    if w == 2 {
        true
    } else if w == 1 && n >= 2 {
        len_utf8(cs[n - 2]) == 1
    } else {
        false
    }
}

impl Subst {
    fn bound_p(&self, v: &Value) -> (r: bool)
        ensures
            r == bound(self@, v@),
    {
        match v {
            Value::Var(x) => self.find_var(x).is_some(),
            Value::TypedVar(t) => self.find_tv(t).is_some(),
            _ => false,
        }
    }

    /// Where `value` leads through the bindings within `fuel` steps.
    pub fn walk_within(&self, value: &Value, fuel: usize) -> (r: Value)
        ensures
            r@ == walk_fuel(self@, value@, fuel as nat),
        decreases fuel,
    {
        if fuel == 0 {
            return copy_value(value);
        }
        match value {
            Value::Var(var) => match self.find_var(var) {
                Some(new_value) => self.walk_within(new_value, fuel - 1),
                None => copy_value(value),
            },
            Value::TypedVar(tv) => match self.find_tv(tv) {
                Some(new_value) => self.walk_within(new_value, fuel - 1),
                None => copy_value(value),
            },
            _ => copy_value(value),
        }
    }

    fn occurs_within(&self, target: &Value, value: &Value, fuel: usize) -> (r: Option<bool>)
        ensures
            r == occurs_fuel(self@, target@, value@, fuel as nat),
        decreases fuel, 0nat,
    {
        if fuel == 0 {
            return None;
        }
        let w = self.walk_within(value, fuel);
        if self.bound_p(&w) {
            return None;
        }
        match &w {
            Value::Data(data) => self.occurs_in_dic_within(target, &data.body, fuel - 1),
            _ => Some(value_eq(&w, target)),
        }
    }

    fn occurs_in_dic_within(&self, target: &Value, d: &Dic<Value>, fuel: usize) -> (r: Option<bool>)
        ensures
            r == occurs_in(self@, target@, entries_view(d.entries@), 0, fuel as nat),
        decreases fuel, 1nat + d.entries@.len(),
    {
        let ghost es = entries_view(d.entries@);
        proof {
            lemma_entries_view(d.entries@);
        }
        let mut i: usize = 0;
        while i < d.entries.len()
            invariant
                i <= d.entries@.len(),
                es == entries_view(d.entries@),
                es.len() == d.entries@.len(),
                forall|j: int| 0 <= j < d.entries@.len() ==> #[trigger] es[j] == (d.entries@[j].0@, opt_value_view(d.entries@[j].1)),
                occurs_in(self@, target@, es, i as int, fuel as nat) == occurs_in(self@, target@, es, 0, fuel as nat),
            decreases d.entries@.len() - i,
        {
            match &d.entries[i].1 {
                Some(x) => {
                    match self.occurs_within(target, x, fuel) {
                        None => {
                            return None;
                        },
                        Some(true) => {
                            return Some(true);
                        },
                        Some(false) => {},
                    }
                },
                None => {},
            }
            i = i + 1;
        }
        Some(false)
    }

    /// Unifies `u` and `v` within `fuel` steps of walking and levels of
    /// nesting: `None` where the fuel runs out or a data name met cannot
    /// be cut, else what `unify` gives.
    pub fn unify_within(&self, u: &Value, v: &Value, fuel: usize) -> (r: Option<Option<Subst>>)
        ensures
            fuel_outcome(r, unify_fuel(self@, u@, v@, fuel as nat)),
        decreases fuel, 0nat,
    {
        if fuel == 0 {
            return None;
        }
        let wu = self.walk_within(u, fuel);
        let wv = self.walk_within(v, fuel);
        if self.bound_p(&wu) || self.bound_p(&wv) {
            return None;
        }
        let f = fuel - 1;
        match (&wu, &wv) {
            (Value::Var(a), Value::Var(b)) => {
                if var_eq(a, b) {
                    return Some(Some(self.clone()));
                }
            },
            (Value::TypedVar(a), Value::TypedVar(b)) => {
                if tv_eq(a, b) {
                    return Some(Some(self.clone()));
                }
            },
            _ => {},
        }
        if let Value::Var(a) = &wu {
            return match self.occurs_within(&wu, &wv, f) {
                None => None,
                Some(true) => Some(None),
                Some(false) => Some(Some(self.bind_var(copy_var(a), copy_value(&wv)))),
            };
        }
        if let Value::Var(b) = &wv {
            return match self.occurs_within(&wv, &wu, f) {
                None => None,
                Some(true) => Some(None),
                Some(false) => Some(Some(self.bind_var(copy_var(b), copy_value(&wu)))),
            };
        }
        let pair: Option<(&TypedVar, &Value)> = match (&wu, &wv) {
            (Value::TypedVar(t), w) => Some((t, w)),
            (w, Value::TypedVar(t)) => Some((t, w)),
            _ => None,
        };
        if let Some((tv, w)) = pair {
            let target = Value::TypedVar(copy_tv(tv));
            return match self.occurs_within(&target, w, f) {
                None => None,
                Some(true) => Some(None),
                Some(false) => match self.unify_type_within(&tv.ty, w, f) {
                    None => None,
                    Some(None) => Some(None),
                    Some(Some(subst)) => Some(Some(subst.bind_tv(copy_tv(tv), copy_value(w)))),
                },
            };
        }
        match (&wu, &wv) {
            (Value::Data(a), Value::Data(b)) => {
                if !str_eq(a.name.as_str(), b.name.as_str()) {
                    return Some(None);
                }
                self.unify_dic_within(&a.body, &b.body, f)
            },
            (Value::Disj(a), Value::Disj(b)) => {
                if !str_eq(a.name.as_str(), b.name.as_str()) {
                    return Some(None);
                }
                if !names_eq(&a.name_vec, &b.name_vec) {
                    return Some(None);
                }
                self.unify_dic_within(&a.body, &b.body, f)
            },
            (Value::Conj(a), Value::Conj(b)) => {
                if !str_eq(a.name.as_str(), b.name.as_str()) {
                    return Some(None);
                }
                self.unify_dic_within(&a.body, &b.body, f)
            },
            (Value::Disj(disj), Value::Conj(conj)) => {
                if !names_contain(&disj.name_vec, &conj.name) {
                    return Some(None);
                }
                self.cover_within(&conj.body, &disj.body, f)
            },
            (Value::Conj(conj), Value::Disj(disj)) => {
                if !names_contain(&disj.name_vec, &conj.name) {
                    return Some(None);
                }
                self.cover_within(&conj.body, &disj.body, f)
            },
            (Value::TypeOfType, Value::TypeOfType) => Some(Some(self.clone())),
            _ => Some(None),
        }
    }

    /// Fits the value `v` to the type `t` within `fuel`: `None` where the
    /// fuel runs out or a data name met cannot be cut.
    pub fn unify_type_within(&self, t: &Value, v: &Value, fuel: usize) -> (r: Option<Option<Subst>>)
        ensures
            fuel_outcome(r, unify_type_fuel(self@, t@, v@, fuel as nat)),
        decreases fuel, 0nat,
    {
        if fuel == 0 {
            return None;
        }
        let wt = self.walk_within(t, fuel);
        let wv = self.walk_within(v, fuel);
        if self.bound_p(&wt) || self.bound_p(&wv) {
            return None;
        }
        let f = fuel - 1;
        match (&wt, &wv) {
            (Value::Conj(conj), Value::Data(data)) => {
                if !cut_ok_p(data.name.as_str()) {
                    return None;
                }
                let prop_name = name_to_prop_name(data.name.as_str());
                if !str_eq(conj.name.as_str(), prop_name.as_str()) {
                    Some(None)
                } else {
                    self.cover_within(&data.body, &conj.body, f)
                }
            },
            (Value::Disj(disj), Value::Data(data)) => {
                if !cut_ok_p(data.name.as_str()) {
                    return None;
                }
                let prop_name = name_to_prop_name(data.name.as_str());
                if names_contain(&disj.name_vec, &prop_name) {
                    self.cover_within(&data.body, &disj.body, f)
                } else {
                    Some(None)
                }
            },
            (Value::TypeOfType, Value::Disj(..)) => Some(Some(self.clone())),
            (Value::TypeOfType, Value::Conj(..)) => Some(Some(self.clone())),
            (_, Value::TypedVar(tv)) => self.unify_within(&wt, &tv.ty, f),
            _ => Some(None),
        }
    }

    fn cover_within(&self, large: &Dic<Value>, small: &Dic<Value>, fuel: usize) -> (r: Option<Option<Subst>>)
        ensures
            fuel_outcome(r, cover_fuel(self@, entries_view(large.entries@), entries_view(small.entries@), 0, fuel as nat)),
        decreases fuel, 1nat + small.entries@.len(),
    {
        let ghost le = entries_view(large.entries@);
        let ghost se = entries_view(small.entries@);
        proof {
            lemma_entries_view(small.entries@);
        }
        let mut subst = self.clone();
        let mut i: usize = 0;
        while i < small.entries.len()
            invariant
                i <= small.entries@.len(),
                le == entries_view(large.entries@),
                se == entries_view(small.entries@),
                se.len() == small.entries@.len(),
                forall|j: int| 0 <= j < small.entries@.len() ==> #[trigger] se[j] == (small.entries@[j].0@, opt_value_view(small.entries@[j].1)),
                cover_fuel(subst@, le, se, i as int, fuel as nat) == cover_fuel(self@, le, se, 0, fuel as nat),
            decreases small.entries@.len() - i,
        {
            match &small.entries[i].1 {
                Some(v) => {
                    match get_value(large, small.entries[i].0.as_str()) {
                        Some(v1) => {
                            match subst.unify_within(v1, v, fuel) {
                                Some(Some(s)) => {
                                    subst = s;
                                },
                                Some(None) => {
                                    return Some(None);
                                },
                                None => {
                                    return None;
                                },
                            }
                        },
                        None => {
                            return Some(None);
                        },
                    }
                },
                None => {},
            }
            i = i + 1;
        }
        Some(Some(subst))
    }

    fn unify_dic_within(&self, ud: &Dic<Value>, vd: &Dic<Value>, fuel: usize) -> (r: Option<Option<Subst>>)
        ensures
            fuel_outcome(r, unify_dic_fuel(self@, entries_view(ud.entries@), entries_view(vd.entries@), 0, fuel as nat)),
        decreases fuel, 1nat + ud.entries@.len(),
    {
        let ghost ue = entries_view(ud.entries@);
        let ghost ve = entries_view(vd.entries@);
        proof {
            lemma_entries_view(ud.entries@);
            lemma_entries_view(vd.entries@);
        }
        let mut subst = self.clone();
        let mut i: usize = 0;
        while i < ud.entries.len() && i < vd.entries.len()
            invariant
                i <= ud.entries@.len(),
                i <= vd.entries@.len(),
                ue == entries_view(ud.entries@),
                ve == entries_view(vd.entries@),
                ue.len() == ud.entries@.len(),
                ve.len() == vd.entries@.len(),
                forall|j: int| 0 <= j < ud.entries@.len() ==> #[trigger] ue[j] == (ud.entries@[j].0@, opt_value_view(ud.entries@[j].1)),
                forall|j: int| 0 <= j < vd.entries@.len() ==> #[trigger] ve[j] == (vd.entries@[j].0@, opt_value_view(vd.entries@[j].1)),
                unify_dic_fuel(subst@, ue, ve, i as int, fuel as nat) == unify_dic_fuel(self@, ue, ve, 0, fuel as nat),
            decreases ud.entries@.len() - i,
        {
            if !str_eq(ud.entries[i].0.as_str(), vd.entries[i].0.as_str()) {
                return Some(None);
            }
            match (&ud.entries[i].1, &vd.entries[i].1) {
                (Some(a), Some(b)) => {
                    match subst.unify_within(a, b, fuel) {
                        Some(Some(s)) => {
                            subst = s;
                        },
                        Some(None) => {
                            return Some(None);
                        },
                        None => {
                            return None;
                        },
                    }
                },
                _ => {
                    return Some(None);
                },
            }
            i = i + 1;
        }
        Some(Some(subst))
    }
}

impl Id {
    /// A fresh id drawn at random.
    pub fn uuid() -> (id: Id)
        ensures
            id is Uuid,
    {
        Id::Uuid(new_v4_id())
    }

    /// The id numbered `counter`.
    pub fn local(counter: usize) -> (id: Id)
        ensures
            id == Id::Local(counter),
    {
        Id::Local(counter)
    }
}

impl Var {
    /// A fresh variable named `s`.
    pub fn new(s: &str) -> (x: Var)
        ensures
            x.name@ == s@,
            x.id is Uuid,
    {
        Var { id: Id::uuid(), name: string_from(s) }
    }

    /// The variable named `s` numbered `counter`.
    pub fn local(s: &str, counter: usize) -> (x: Var)
        ensures
            x.name@ == s@,
            x.id == Id::Local(counter),
    {
        Var { id: Id::local(counter), name: string_from(s) }
    }
}

/// A fresh typed variable named `name` of the type `value`.
pub fn new_tv(name: &str, value: &Value) -> (t: TypedVar)
    ensures
        t.name@ == name@,
        t.ty@ == value@,
        t.id is Uuid,
{
    TypedVar { id: Id::uuid(), name: string_from(name), ty: Box::new(copy_value(value)) }
}

/// The index of the first entry named `name`.
pub open spec fn entry_find(vs: Seq<(Seq<char>, Option<ValueView>)>, name: Seq<char>) -> Option<int>
    decreases vs.len(),
{
    if vs.len() == 0 {
        None
    } else if vs[0].0 == name {
        Some(0)
    } else {
        match entry_find(vs.drop_first(), name) {
            Some(i) => Some(i + 1),
            None => None,
        }
    }
}

proof fn lemma_entry_find(vs: Seq<(Seq<char>, Option<ValueView>)>, name: Seq<char>)
    ensures
        match entry_find(vs, name) {
            Some(i) => 0 <= i < vs.len() && vs[i].0 == name && forall|j: int| 0 <= j < i ==> vs[j].0 != name,
            None => forall|j: int| 0 <= j < vs.len() ==> vs[j].0 != name,
        },
    decreases vs.len(),
{
    if vs.len() > 0 {
        lemma_entry_find(vs.drop_first(), name);
        if vs[0].0 != name {
            assert forall|j: int| 0 < j < vs.len() implies vs[j] == vs.drop_first()[j - 1] by {}
        }
    }
}

/// The entries with the first entry named `name` set to `v`; where there
/// is none, with such an entry added after the others.
pub open spec fn entries_ins(vs: Seq<(Seq<char>, Option<ValueView>)>, name: Seq<char>, v: Option<ValueView>)
    -> Seq<(Seq<char>, Option<ValueView>)>
{
    match entry_find(vs, name) {
        Some(i) => vs.update(i, (name, v)),
        None => vs.push((name, v)),
    }
}

/// Sets the entry of `d` named `name` to `value`, or adds one.
pub fn ins_value(d: &mut Dic<Value>, name: &str, value: Option<Value>)
    ensures
        entries_view(final(d).entries@) == entries_ins(entries_view(old(d).entries@), name@, opt_value_view(value)),
{
    let ghost old_es = d.entries@;
    let ghost ov = opt_value_view(value);
    proof {
        lemma_entries_view(old_es);
        lemma_dic_find(old_es, name@);
        lemma_entry_find(entries_view(old_es), name@);
        let vs = entries_view(old_es);
        match (dic_find(old_es, name@), entry_find(vs, name@)) {
            (Some(i), Some(k)) => {
                assert(vs[i].0 == name@);
                assert(old_es[k].0@ == name@);
                assert(!(i < k) && !(k < i));
            },
            (Some(i), None) => {
                assert(vs[i].0 == name@);
            },
            (None, Some(k)) => {
                assert(old_es[k].0@ == name@);
            },
            (None, None) => {},
        }
    }
    d.ins(name, value);
    proof {
        lemma_entries_view(d.entries@);
        let vs = entries_view(old_es);
        assert(entries_view(d.entries@) =~= entries_ins(vs, name@, ov));
    }
}

/// A value with every variable bound in `bs` replaced, all the way down,
/// by what it walks to, within `fuel` steps and levels: `None` where the
/// fuel runs out.  The entries of dictionaries without a value are left
/// out.
pub open spec fn deep_walk_fuel(bs: Seq<BindView>, v: ValueView, fuel: nat) -> Option<ValueView>
    decreases fuel, 0nat,
{
    if fuel == 0 {
        None
    } else {
        let w = walk_fuel(bs, v, fuel);
        let f = (fuel - 1) as nat;
        if bound(bs, w) {
            None
        } else {
            match w {
                ValueView::TypedVar(tv) => match deep_walk_fuel(bs, *tv.ty, f) {
                    Some(t) => Some(ValueView::TypedVar(TvView { id: tv.id, name: tv.name, ty: Box::new(t) })),
                    None => None,
                },
                ValueView::Disj(n, ns, es) => match deep_walk_entries(bs, es, es.len() as int, f) {
                    Some(es2) => Some(ValueView::Disj(n, ns, es2)),
                    None => None,
                },
                ValueView::Conj(n, es) => match deep_walk_entries(bs, es, es.len() as int, f) {
                    Some(es2) => Some(ValueView::Conj(n, es2)),
                    None => None,
                },
                ValueView::Data(n, es) => match deep_walk_entries(bs, es, es.len() as int, f) {
                    Some(es2) => Some(ValueView::Data(n, es2)),
                    None => None,
                },
                _ => Some(w),
            }
        }
    }
}

/// The first `k` entries with values, deeply walked, inserted one by one
/// into an empty list of entries.
pub open spec fn deep_walk_entries(bs: Seq<BindView>, es: Seq<(Seq<char>, Option<ValueView>)>, k: int, fuel: nat)
    -> Option<Seq<(Seq<char>, Option<ValueView>)>>
    decreases fuel, 1nat + (if k > 0 { k as nat } else { 0nat }),
{
    if k <= 0 || k > es.len() {
        Some(Seq::empty())
    } else {
        match deep_walk_entries(bs, es, k - 1, fuel) {
            None => None,
            Some(prev) => match es[k - 1].1 {
                None => Some(prev),
                Some(x) => match deep_walk_fuel(bs, x, fuel) {
                    None => None,
                    Some(w) => Some(entries_ins(prev, es[k - 1].0, Some(w))),
                },
            },
        }
    }
}

/// Whether walking `v` all the way down in `bs` comes to an end.
pub open spec fn deep_walk_ends(bs: Seq<BindView>, v: ValueView) -> bool {
    exists|fuel: nat| #[trigger] deep_walk_fuel(bs, v, fuel) is Some
}

/// `v` walked all the way down in `bs`, where that ends.
pub open spec fn deep_walk_spec(bs: Seq<BindView>, v: ValueView) -> ValueView {
    deep_walk_fuel(bs, v, choose|fuel: nat| #[trigger] deep_walk_fuel(bs, v, fuel) is Some)->Some_0
}

impl Subst {
    fn deep_walk_in(&self, value: &Value, Ghost(fuel): Ghost<nat>) -> (r: Value)
        requires
            deep_walk_fuel(self@, value@, fuel) is Some,
        ensures
            r@ == deep_walk_fuel(self@, value@, fuel)->Some_0,
        decreases fuel, 0nat,
    {
        let w = self.walk_in(value, Ghost(fuel));
        let ghost f = (fuel - 1) as nat;
        match w {
            Value::TypedVar(tv) => {
                let ty = self.deep_walk_in(&tv.ty, Ghost(f));
                Value::TypedVar(TypedVar { id: tv.id, name: tv.name, ty: Box::new(ty) })
            },
            Value::Disj(disj) => {
                proof {
                    lemma_entries_view(disj.body.entries@);
                }
                let body = self.deep_walk_dic_in(&disj.body, Ghost(f));
                Value::Disj(Disj { name: disj.name, name_vec: disj.name_vec, body })
            },
            Value::Conj(conj) => {
                proof {
                    lemma_entries_view(conj.body.entries@);
                }
                let body = self.deep_walk_dic_in(&conj.body, Ghost(f));
                Value::Conj(Conj { name: conj.name, body })
            },
            Value::Data(data) => {
                proof {
                    lemma_entries_view(data.body.entries@);
                }
                let body = self.deep_walk_dic_in(&data.body, Ghost(f));
                Value::Data(Data { name: data.name, body })
            },
            _ => w,
        }
    }

    fn deep_walk_dic_in(&self, old_dic: &Dic<Value>, Ghost(fuel): Ghost<nat>) -> (r: Dic<Value>)
        requires
            deep_walk_entries(self@, entries_view(old_dic.entries@), old_dic.entries@.len() as int, fuel) is Some,
        ensures
            entries_view(r.entries@) == deep_walk_entries(self@, entries_view(old_dic.entries@), old_dic.entries@.len() as int, fuel)->Some_0,
        decreases fuel, 1nat + old_dic.entries@.len(),
    {
        let ghost es = entries_view(old_dic.entries@);
        proof {
            lemma_entries_view(old_dic.entries@);
            lemma_deep_walk_entries_prefix(self@, es, old_dic.entries@.len() as int, fuel);
            assert(entries_view(Seq::<(String, Option<Value>)>::empty()) =~= Seq::<(Seq<char>, Option<ValueView>)>::empty());
        }
        let mut new_dic: Dic<Value> = Dic::new();
        let mut i: usize = 0;
        while i < old_dic.entries.len()
            invariant
                i <= old_dic.entries@.len(),
                es == entries_view(old_dic.entries@),
                es.len() == old_dic.entries@.len(),
                forall|j: int| 0 <= j < old_dic.entries@.len() ==> #[trigger] es[j] == (old_dic.entries@[j].0@, opt_value_view(old_dic.entries@[j].1)),
                forall|k: int| 0 <= k <= old_dic.entries@.len() ==> #[trigger] deep_walk_entries(self@, es, k, fuel) is Some,
                deep_walk_entries(self@, es, i as int, fuel) == Some(entries_view(new_dic.entries@)),
            decreases old_dic.entries@.len() - i,
        {
            assert(deep_walk_entries(self@, es, i + 1, fuel) is Some);
            match &old_dic.entries[i].1 {
                Some(x) => {
                    let w = self.deep_walk_in(x, Ghost(fuel));
                    ins_value(&mut new_dic, old_dic.entries[i].0.as_str(), Some(w));
                },
                None => {},
            }
            i = i + 1;
        }
        new_dic
    }

    /// `value` with every bound variable replaced, all the way down, by
    /// what it walks to.
    pub fn deep_walk(&self, value: &Value) -> (r: Value)
        requires
            deep_walk_ends(self@, value@),
        ensures
            r@ == deep_walk_spec(self@, value@),
    {
        let ghost fuel = choose|fuel: nat| #[trigger] deep_walk_fuel(self@, value@, fuel) is Some;
        self.deep_walk_in(value, Ghost(fuel))
    }
}

proof fn lemma_deep_walk_entries_prefix(bs: Seq<BindView>, es: Seq<(Seq<char>, Option<ValueView>)>, n: int, fuel: nat)
    requires
        0 <= n <= es.len(),
        deep_walk_entries(bs, es, n, fuel) is Some,
    ensures
        forall|k: int| 0 <= k <= n ==> #[trigger] deep_walk_entries(bs, es, k, fuel) is Some,
    decreases n,
{
    if n > 0 {
        lemma_deep_walk_entries_prefix(bs, es, n - 1, fuel);
    }
}

/// The bindings that rename each variable and typed variable of `v`, as
/// walked in `bs`, to one numbered by the count of bindings before it,
/// within `fuel` steps and levels: `None` where the fuel runs out or the
/// count reaches `usize::MAX`.  The variables are met in the order of the
/// fields; one met twice is renamed twice.
pub open spec fn localize_fuel(bs: Seq<BindView>, v: ValueView, fuel: nat) -> Option<Seq<BindView>>
    decreases fuel, 0nat,
{
    if fuel == 0 {
        None
    } else {
        let w = walk_fuel(bs, v, fuel);
        let f = (fuel - 1) as nat;
        if bound(bs, w) {
            None
        } else {
            match w {
                ValueView::Var(x) => if bs.len() < usize::MAX {
                    Some(seq![BindView::Var(x, ValueView::Var(VarView { id: Id::Local(bs.len() as usize), name: x.name }))] + bs)
                } else {
                    None
                },
                ValueView::TypedVar(tv) => if bs.len() < usize::MAX {
                    Some(seq![BindView::Tv(tv, ValueView::TypedVar(TvView { id: Id::Local(bs.len() as usize), name: tv.name, ty: tv.ty }))] + bs)
                } else {
                    None
                },
                ValueView::Disj(_, _, es) => localize_entries(bs, es, 0, f),
                ValueView::Conj(_, es) => localize_entries(bs, es, 0, f),
                ValueView::Data(_, es) => localize_entries(bs, es, 0, f),
                ValueView::TypeOfType => Some(bs),
            }
        }
    }
}

/// The renaming bindings of the values of the entries from index `i` on,
/// one after another.
pub open spec fn localize_entries(bs: Seq<BindView>, es: Seq<(Seq<char>, Option<ValueView>)>, i: int, fuel: nat)
    -> Option<Seq<BindView>>
    decreases fuel, 1nat + (if i < es.len() { (es.len() - i) as nat } else { 0nat }),
{
    if i < 0 || i >= es.len() {
        Some(bs)
    } else {
        match es[i].1 {
            None => localize_entries(bs, es, i + 1, fuel),
            Some(x) => match localize_fuel(bs, x, fuel) {
                None => None,
                Some(bs2) => localize_entries(bs2, es, i + 1, fuel),
            },
        }
    }
}

/// Whether renaming the variables of `v` in `bs` comes to an end.
pub open spec fn localize_ends(bs: Seq<BindView>, v: ValueView) -> bool {
    exists|fuel: nat| #[trigger] localize_fuel(bs, v, fuel) is Some
}

/// The bindings that rename the variables of `v` in `bs`, where that ends.
pub open spec fn localize_spec(bs: Seq<BindView>, v: ValueView) -> Seq<BindView> {
    localize_fuel(bs, v, choose|fuel: nat| #[trigger] localize_fuel(bs, v, fuel) is Some)->Some_0
}

impl Subst {
    fn localize_in(&self, value: &Value, Ghost(fuel): Ghost<nat>) -> (r: Subst)
        requires
            localize_fuel(self@, value@, fuel) is Some,
        ensures
            r@ == localize_fuel(self@, value@, fuel)->Some_0,
        decreases fuel, 0nat,
    {
        let w = self.walk_in(value, Ghost(fuel));
        let ghost f = (fuel - 1) as nat;
        match &w {
            Value::Var(var) => {
                let n = self.len();
                self.bind_var(copy_var(var), Value::Var(Var { id: Id::local(n), name: copy_string(&var.name) }))
            },
            Value::TypedVar(tv) => {
                let n = self.len();
                self.bind_tv(copy_tv(tv), Value::TypedVar(TypedVar {
                    id: Id::local(n),
                    name: copy_string(&tv.name),
                    ty: Box::new(copy_value(&tv.ty)),
                }))
            },
            Value::Disj(disj) => self.localize_dic_in(&disj.body, Ghost(f)),
            Value::Conj(conj) => self.localize_dic_in(&conj.body, Ghost(f)),
            Value::Data(data) => self.localize_dic_in(&data.body, Ghost(f)),
            Value::TypeOfType => self.clone(),
        }
    }

    fn localize_dic_in(&self, d: &Dic<Value>, Ghost(fuel): Ghost<nat>) -> (r: Subst)
        requires
            localize_entries(self@, entries_view(d.entries@), 0, fuel) is Some,
        ensures
            r@ == localize_entries(self@, entries_view(d.entries@), 0, fuel)->Some_0,
        decreases fuel, 1nat + d.entries@.len(),
    {
        let ghost es = entries_view(d.entries@);
        proof {
            lemma_entries_view(d.entries@);
        }
        let mut subst = self.clone();
        let mut i: usize = 0;
        while i < d.entries.len()
            invariant
                i <= d.entries@.len(),
                es == entries_view(d.entries@),
                es.len() == d.entries@.len(),
                forall|j: int| 0 <= j < d.entries@.len() ==> #[trigger] es[j] == (d.entries@[j].0@, opt_value_view(d.entries@[j].1)),
                localize_entries(subst@, es, i as int, fuel) == localize_entries(self@, es, 0, fuel),
                localize_entries(self@, es, 0, fuel) is Some,
            decreases d.entries@.len() - i,
        {
            match &d.entries[i].1 {
                Some(x) => {
                    subst = subst.localize_in(x, Ghost(fuel));
                },
                None => {},
            }
            i = i + 1;
        }
        subst
    }

    /// These bindings with bindings before them that rename each variable
    /// of `value`, as walked here, to one numbered by the count of
    /// bindings at that point.
    pub fn localize_by_value(&self, value: &Value) -> (r: Subst)
        requires
            localize_ends(self@, value@),
        ensures
            r@ == localize_spec(self@, value@),
    {
        let ghost fuel = choose|fuel: nat| #[trigger] localize_fuel(self@, value@, fuel) is Some;
        self.localize_in(value, Ghost(fuel))
    }
}

proof fn lemma_deep_walk_entries_none(bs: Seq<BindView>, es: Seq<(Seq<char>, Option<ValueView>)>, k: int, n: int, fuel: nat)
    requires
        0 <= k <= n <= es.len(),
        deep_walk_entries(bs, es, k, fuel) is None,
    ensures
        deep_walk_entries(bs, es, n, fuel) is None,
    decreases n - k,
{
    if k < n {
        lemma_deep_walk_entries_none(bs, es, k, n - 1, fuel);
    }
}

/// The view of the entries of an optional dictionary.
pub open spec fn opt_entries_view(o: Option<Dic<Value>>) -> Option<Seq<(Seq<char>, Option<ValueView>)>> {
    match o {
        Some(d) => Some(entries_view(d.entries@)),
        None => None,
    }
}

/// The occurs check refuses a cycle: unifying a free variable with a
/// value that walks, within the fuel, to something other than the
/// variable in which the variable occurs finds that they cannot be made
/// equal.
pub proof fn law_unify_occurs_fails(bs: Seq<BindView>, x: VarView, t: ValueView, fuel: nat)
    requires
        fuel > 0,
        find_var_spec(bs, x) is None,
        !bound(bs, walk_fuel(bs, t, fuel)),
        walk_fuel(bs, t, fuel) != ValueView::Var(x),
        occurs_fuel(bs, ValueView::Var(x), walk_fuel(bs, t, fuel), (fuel - 1) as nat) == Some(true),
    ensures
        unify_fuel(bs, ValueView::Var(x), t, fuel) == Some(None::<Seq<BindView>>),
{
    assert(walk_fuel(bs, ValueView::Var(x), fuel) == ValueView::Var(x));
}

/// The view of an optional substitution.
pub open spec fn opt_subst_view(o: Option<Subst>) -> Option<Seq<BindView>> {
    match o {
        Some(s) => Some(s@),
        None => None,
    }
}

/// `v` read back from `bs` within `fuel` at each stage: walked all the
/// way down, its variables renamed from nothing, and walked down again
/// through the renaming.
pub open spec fn reify_fuel(bs: Seq<BindView>, v: ValueView, fuel: nat) -> Option<ValueView> {
    match deep_walk_fuel(bs, v, fuel) {
        None => None,
        Some(w) => match localize_fuel(Seq::empty(), w, fuel) {
            None => None,
            Some(l) => deep_walk_fuel(l, w, fuel),
        },
    }
}

impl Subst {
    /// `value` walked all the way down within `fuel` steps and levels:
    /// `None` where the fuel runs out.
    pub fn deep_walk_within(&self, value: &Value, fuel: usize) -> (r: Option<Value>)
        ensures
            opt_value_view(r) == deep_walk_fuel(self@, value@, fuel as nat),
        decreases fuel, 0nat,
    {
        if fuel == 0 {
            return None;
        }
        let w = self.walk_within(value, fuel);
        if self.bound_p(&w) {
            return None;
        }
        let f = fuel - 1;
        match w {
            Value::TypedVar(tv) => match self.deep_walk_within(&tv.ty, f) {
                Some(ty) => Some(Value::TypedVar(TypedVar { id: tv.id, name: tv.name, ty: Box::new(ty) })),
                None => None,
            },
            Value::Disj(disj) => {
                proof {
                    lemma_entries_view(disj.body.entries@);
                }
                match self.deep_walk_dic_within(&disj.body, f) {
                    Some(body) => Some(Value::Disj(Disj { name: disj.name, name_vec: disj.name_vec, body })),
                    None => None,
                }
            },
            Value::Conj(conj) => {
                proof {
                    lemma_entries_view(conj.body.entries@);
                }
                match self.deep_walk_dic_within(&conj.body, f) {
                    Some(body) => Some(Value::Conj(Conj { name: conj.name, body })),
                    None => None,
                }
            },
            Value::Data(data) => {
                proof {
                    lemma_entries_view(data.body.entries@);
                }
                match self.deep_walk_dic_within(&data.body, f) {
                    Some(body) => Some(Value::Data(Data { name: data.name, body })),
                    None => None,
                }
            },
            _ => Some(w),
        }
    }

    fn deep_walk_dic_within(&self, old_dic: &Dic<Value>, fuel: usize) -> (r: Option<Dic<Value>>)
        ensures
            opt_entries_view(r)
                == deep_walk_entries(self@, entries_view(old_dic.entries@), old_dic.entries@.len() as int, fuel as nat),
        decreases fuel, 1nat + old_dic.entries@.len(),
    {
        let ghost es = entries_view(old_dic.entries@);
        proof {
            lemma_entries_view(old_dic.entries@);
            assert(entries_view(Seq::<(String, Option<Value>)>::empty()) =~= Seq::<(Seq<char>, Option<ValueView>)>::empty());
        }
        let mut new_dic: Dic<Value> = Dic::new();
        let mut i: usize = 0;
        while i < old_dic.entries.len()
            invariant
                i <= old_dic.entries@.len(),
                es == entries_view(old_dic.entries@),
                es.len() == old_dic.entries@.len(),
                forall|j: int| 0 <= j < old_dic.entries@.len() ==> #[trigger] es[j] == (old_dic.entries@[j].0@, opt_value_view(old_dic.entries@[j].1)),
                deep_walk_entries(self@, es, i as int, fuel as nat) == Some(entries_view(new_dic.entries@)),
            decreases old_dic.entries@.len() - i,
        {
            match &old_dic.entries[i].1 {
                Some(x) => {
                    match self.deep_walk_within(x, fuel) {
                        Some(w) => {
                            ins_value(&mut new_dic, old_dic.entries[i].0.as_str(), Some(w));
                        },
                        None => {
                            proof {
                                lemma_deep_walk_entries_none(self@, es, i + 1, es.len() as int, fuel as nat);
                            }
                            return None;
                        },
                    }
                },
                None => {},
            }
            i = i + 1;
        }
        Some(new_dic)
    }

    /// The renaming of the variables of `value` within `fuel` steps and
    /// levels (see `localize_by_value`): `None` where the fuel runs out or
    /// the count of bindings reaches `usize::MAX`.
    pub fn localize_within(&self, value: &Value, fuel: usize) -> (r: Option<Subst>)
        requires
            self@.len() <= usize::MAX,
        ensures
            opt_subst_view(r) == localize_fuel(self@, value@, fuel as nat),
            r matches Some(s) ==> s@.len() <= usize::MAX,
        decreases fuel, 0nat,
    {
        if fuel == 0 {
            return None;
        }
        let w = self.walk_within(value, fuel);
        if self.bound_p(&w) {
            return None;
        }
        let f = fuel - 1;
        match &w {
            Value::Var(var) => {
                let n = self.len();
                if n == usize::MAX {
                    return None;
                }
                Some(self.bind_var(copy_var(var), Value::Var(Var { id: Id::local(n), name: copy_string(&var.name) })))
            },
            Value::TypedVar(tv) => {
                let n = self.len();
                if n == usize::MAX {
                    return None;
                }
                Some(self.bind_tv(copy_tv(tv), Value::TypedVar(TypedVar {
                    id: Id::local(n),
                    name: copy_string(&tv.name),
                    ty: Box::new(copy_value(&tv.ty)),
                })))
            },
            Value::Disj(disj) => self.localize_dic_within(&disj.body, f),
            Value::Conj(conj) => self.localize_dic_within(&conj.body, f),
            Value::Data(data) => self.localize_dic_within(&data.body, f),
            Value::TypeOfType => Some(self.clone()),
        }
    }

    fn localize_dic_within(&self, d: &Dic<Value>, fuel: usize) -> (r: Option<Subst>)
        requires
            self@.len() <= usize::MAX,
        ensures
            opt_subst_view(r) == localize_entries(self@, entries_view(d.entries@), 0, fuel as nat),
            r matches Some(s) ==> s@.len() <= usize::MAX,
        decreases fuel, 1nat + d.entries@.len(),
    {
        let ghost es = entries_view(d.entries@);
        proof {
            lemma_entries_view(d.entries@);
        }
        let mut subst = self.clone();
        let mut i: usize = 0;
        while i < d.entries.len()
            invariant
                i <= d.entries@.len(),
                es == entries_view(d.entries@),
                es.len() == d.entries@.len(),
                forall|j: int| 0 <= j < d.entries@.len() ==> #[trigger] es[j] == (d.entries@[j].0@, opt_value_view(d.entries@[j].1)),
                localize_entries(subst@, es, i as int, fuel as nat) == localize_entries(self@, es, 0, fuel as nat),
                subst@.len() <= usize::MAX,
            decreases d.entries@.len() - i,
        {
            match &d.entries[i].1 {
                Some(x) => {
                    match subst.localize_within(x, fuel) {
                        Some(s) => {
                            subst = s;
                        },
                        None => {
                            return None;
                        },
                    }
                },
                None => {},
            }
            i = i + 1;
        }
        Some(subst)
    }

    /// `value` read back within `fuel` at each stage (see `reify`):
    /// `None` where a stage does not end within it.
    pub fn reify_within(&self, value: &Value, fuel: usize) -> (r: Option<Value>)
        ensures
            opt_value_view(r) == reify_fuel(self@, value@, fuel as nat),
    {
        let w = match self.deep_walk_within(value, fuel) {
            Some(w) => w,
            None => {
                return None;
            },
        };
        let empty = Subst::new();
        let local = match empty.localize_within(&w, fuel) {
            Some(s) => s,
            None => {
                return None;
            },
        };
        local.deep_walk_within(&w, fuel)
    }
}

/// Whether each step of reading back `v` in `bs` comes to an end: walking
/// it all the way down, renaming its variables from nothing, and walking
/// it down again through the renaming.
pub open spec fn reify_ends(bs: Seq<BindView>, v: ValueView) -> bool {
    &&& deep_walk_ends(bs, v)
    &&& localize_ends(Seq::empty(), deep_walk_spec(bs, v))
    &&& deep_walk_ends(localize_spec(Seq::empty(), deep_walk_spec(bs, v)), deep_walk_spec(bs, v))
}

/// `v` read back from `bs`: walked all the way down, with its variables
/// renamed to ones numbered in the order they are met.
pub open spec fn reify_spec(bs: Seq<BindView>, v: ValueView) -> ValueView {
    let w = deep_walk_spec(bs, v);
    deep_walk_spec(localize_spec(Seq::empty(), w), w)
}

impl Subst {
    /// `value` read back: walked all the way down, with its variables
    /// renamed to ones numbered in the order they are met.
    pub fn reify(&self, value: &Value) -> (r: Value)
        requires
            reify_ends(self@, value@),
        ensures
            r@ == reify_spec(self@, value@),
    {
        let value = self.deep_walk(value);
        let new_subst = Subst::new();
        let local_subst = new_subst.localize_by_value(&value);
        local_subst.deep_walk(&value)
    }
}

/// Whether `bs2` is `bs` with bindings put before them.
pub open spec fn extends(bs: Seq<BindView>, bs2: Seq<BindView>) -> bool {
    bs.len() <= bs2.len() && bs2.subrange(bs2.len() - bs.len(), bs2.len() as int) == bs
}

pub proof fn lemma_extends_refl(bs: Seq<BindView>)
    ensures
        extends(bs, bs),
{
    assert(bs.subrange(0, bs.len() as int) =~= bs);
}

proof fn lemma_extends_cons(bs: Seq<BindView>, b: BindView, bs2: Seq<BindView>)
    requires
        extends(bs, bs2),
    ensures
        extends(bs, seq![b] + bs2),
{
    let c = seq![b] + bs2;
    assert(c.subrange(c.len() - bs.len(), c.len() as int) =~= bs2.subrange(bs2.len() - bs.len(), bs2.len() as int));
}

pub proof fn lemma_extends_trans(a: Seq<BindView>, b: Seq<BindView>, c: Seq<BindView>)
    requires
        extends(a, b),
        extends(b, c),
    ensures
        extends(a, c),
{
    let sb = c.subrange(c.len() - b.len(), c.len() as int);
    let sa = b.subrange(b.len() - a.len(), b.len() as int);
    assert forall|k: int| 0 <= k < a.len() implies #[trigger] c.subrange(c.len() - a.len(), c.len() as int)[k] == a[k] by {
        assert(sb[b.len() - a.len() + k] == c[c.len() - a.len() + k]);
        assert(sa[k] == b[b.len() - a.len() + k]);
    }
    assert(c.subrange(c.len() - a.len(), c.len() as int) =~= a);
}

pub proof fn lemma_unify_extends(bs: Seq<BindView>, u: ValueView, v: ValueView, fuel: nat)
    requires
        unify_fuel(bs, u, v, fuel) matches Some(Some(_)),
    ensures
        extends(bs, unify_fuel(bs, u, v, fuel)->Some_0->Some_0),
    decreases fuel, 0nat,
{
    let wu = walk_fuel(bs, u, fuel);
    let wv = walk_fuel(bs, v, fuel);
    let f = (fuel - 1) as nat;
    lemma_extends_refl(bs);
    if wu is Var && wv is Var && wu == wv {
    } else if wu is TypedVar && wv is TypedVar && wu == wv {
    } else if wu is Var {
        lemma_extends_cons(bs, BindView::Var(wu->Var_0, wv), bs);
    } else if wv is Var {
        lemma_extends_cons(bs, BindView::Var(wv->Var_0, wu), bs);
    } else if wu is TypedVar || wv is TypedVar {
        let tv = if wu is TypedVar { wu->TypedVar_0 } else { wv->TypedVar_0 };
        let w = if wu is TypedVar { wv } else { wu };
        lemma_unify_type_extends(bs, *tv.ty, w, f);
        let bs2 = unify_type_fuel(bs, *tv.ty, w, f)->Some_0->Some_0;
        lemma_extends_cons(bs, BindView::Tv(tv, w), bs2);
    } else {
        match (wu, wv) {
            (ValueView::Data(_, e1), ValueView::Data(_, e2)) => lemma_unify_dic_extends(bs, e1, e2, 0, f),
            (ValueView::Disj(_, _, e1), ValueView::Disj(_, _, e2)) => lemma_unify_dic_extends(bs, e1, e2, 0, f),
            (ValueView::Conj(_, e1), ValueView::Conj(_, e2)) => lemma_unify_dic_extends(bs, e1, e2, 0, f),
            (ValueView::Disj(_, _, ed), ValueView::Conj(_, ec)) => lemma_cover_extends(bs, ec, ed, 0, f),
            (ValueView::Conj(_, ec), ValueView::Disj(_, _, ed)) => lemma_cover_extends(bs, ec, ed, 0, f),
            _ => {},
        }
    }
}

proof fn lemma_unify_type_extends(bs: Seq<BindView>, t: ValueView, v: ValueView, fuel: nat)
    requires
        unify_type_fuel(bs, t, v, fuel) matches Some(Some(_)),
    ensures
        extends(bs, unify_type_fuel(bs, t, v, fuel)->Some_0->Some_0),
    decreases fuel, 0nat,
{
    let wt = walk_fuel(bs, t, fuel);
    let wv = walk_fuel(bs, v, fuel);
    let f = (fuel - 1) as nat;
    lemma_extends_refl(bs);
    match (wt, wv) {
        (ValueView::Conj(_, ce), ValueView::Data(_, de)) => lemma_cover_extends(bs, de, ce, 0, f),
        (ValueView::Disj(_, _, je), ValueView::Data(_, de)) => lemma_cover_extends(bs, de, je, 0, f),
        (ValueView::TypeOfType, ValueView::Disj(..)) => {},
        (ValueView::TypeOfType, ValueView::Conj(..)) => {},
        (t2, ValueView::TypedVar(tv)) => lemma_unify_extends(bs, t2, *tv.ty, f),
        _ => {},
    }
}

proof fn lemma_cover_extends(
    bs: Seq<BindView>,
    large: Seq<(Seq<char>, Option<ValueView>)>,
    small: Seq<(Seq<char>, Option<ValueView>)>,
    i: int,
    fuel: nat,
)
    requires
        cover_fuel(bs, large, small, i, fuel) matches Some(Some(_)),
    ensures
        extends(bs, cover_fuel(bs, large, small, i, fuel)->Some_0->Some_0),
    decreases fuel, 1nat + (if i < small.len() { (small.len() - i) as nat } else { 0nat }),
{
    lemma_extends_refl(bs);
    if 0 <= i < small.len() {
        match small[i].1 {
            None => lemma_cover_extends(bs, large, small, i + 1, fuel),
            Some(v) => match entry_get(large, small[i].0) {
                None => {},
                Some(v1) => {
                    lemma_unify_extends(bs, v1, v, fuel);
                    let bs2 = unify_fuel(bs, v1, v, fuel)->Some_0->Some_0;
                    lemma_cover_extends(bs2, large, small, i + 1, fuel);
                    lemma_extends_trans(bs, bs2, cover_fuel(bs2, large, small, i + 1, fuel)->Some_0->Some_0);
                },
            },
        }
    }
}

proof fn lemma_unify_dic_extends(
    bs: Seq<BindView>,
    us: Seq<(Seq<char>, Option<ValueView>)>,
    vs: Seq<(Seq<char>, Option<ValueView>)>,
    i: int,
    fuel: nat,
)
    requires
        unify_dic_fuel(bs, us, vs, i, fuel) matches Some(Some(_)),
    ensures
        extends(bs, unify_dic_fuel(bs, us, vs, i, fuel)->Some_0->Some_0),
    decreases fuel, 1nat + (if i < us.len() { (us.len() - i) as nat } else { 0nat }),
{
    lemma_extends_refl(bs);
    if 0 <= i < us.len() && i < vs.len() && us[i].0 == vs[i].0 {
        match (us[i].1, vs[i].1) {
            (Some(a), Some(b)) => {
                lemma_unify_extends(bs, a, b, fuel);
                let bs2 = unify_fuel(bs, a, b, fuel)->Some_0->Some_0;
                lemma_unify_dic_extends(bs2, us, vs, i + 1, fuel);
                lemma_extends_trans(bs, bs2, unify_dic_fuel(bs2, us, vs, i + 1, fuel)->Some_0->Some_0);
            },
            _ => {},
        }
    }
}

/// Unifying, where it ends and succeeds, keeps every binding: what comes
/// back is the given bindings with new ones put before them.
pub proof fn law_unify_keeps(bs: Seq<BindView>, u: ValueView, v: ValueView)
    requires
        unify_ends(bs, u, v),
        unify_spec(bs, u, v) is Some,
    ensures
        extends(bs, unify_spec(bs, u, v)->Some_0),
{
    let fuel = choose|fuel: nat| #[trigger] unify_fuel(bs, u, v, fuel) is Some;
    lemma_unify_extends(bs, u, v, fuel);
}

/// The `k`-th hexadecimal digit of `n`, from the most significant of
/// its 32.
pub open spec fn nibble(n: u128, k: int) -> nat {
    ((n as int / vstd::arithmetic::power::pow(16, (31 - k) as nat)) % 16) as nat
}

/// The lowercase hexadecimal digit of `d`.
pub open spec fn hex_digit(d: nat) -> char {
    if d < 10 { (48 + d) as char } else { (87 + d) as char }
}

/// The number of hyphens before position `p` of a hyphenated UUID.
pub open spec fn dashes_before(p: int) -> int {
    if p < 8 { 0 } else if p < 13 { 1 } else if p < 18 { 2 } else if p < 23 { 3 } else { 4 }
}

/// The hyphenated text of the UUID that is the number `n`: its 32
/// lowercase hexadecimal digits, most significant first, in groups of 8,
/// 4, 4, 4 and 12 joined by `-`.
pub open spec fn hyphenated(n: u128) -> Seq<char> {
    Seq::new(36, |p: int| if p == 8 || p == 13 || p == 18 || p == 23 { '-' } else { hex_digit(nibble(n, p - dashes_before(p))) })
}

/// The hyphenated text of the UUID that is the number `id`:
/// `Uuid::from_u128`, then `Uuid::hyphenated` and `to_string`.  Claimed,
/// as the crate's source formats it: the 32 lowercase hexadecimal digits
/// of the number, most significant first, grouped 8-4-4-4-12 by hyphens.
#[verifier::external_body]
pub(crate) fn uuid_hyphenated(id: u128) -> (s: String)
    ensures
        s@ == hyphenated(id),
{
    Uuid::from_u128(id).hyphenated().to_string()
}

/// The text of an id: the first three hexadecimal digits of a random id,
/// the decimal numeral of a counter.
pub open spec fn id_text(id: Id) -> Seq<char> {
    match id {
        Id::Uuid(n) => seq![hex_digit(nibble(n, 0)), hex_digit(nibble(n, 1)), hex_digit(nibble(n, 2))],
        Id::Local(c) => decimal(c as nat),
    }
}

/// The text of a value.
pub open spec fn value_text(v: ValueView) -> Seq<char>
    decreases v, 3nat,
{
    match v {
        ValueView::Var(x) => x.name + seq!['#'] + id_text(x.id),
        ValueView::TypedVar(t) => tv_text(t),
        ValueView::Disj(n, ns, es) => n + seq![' ', '('] + joined(ns, seq![',', ' ']) + seq![')'] + body_text(es),
        ValueView::Conj(n, es) => n + body_text(es),
        ValueView::Data(n, es) => n + body_text(es),
        ValueView::TypeOfType => seq!['t', 'y', 'p', 'e'],
    }
}

/// The text of a typed variable: `name#id : type`.
pub open spec fn tv_text(t: TvView) -> Seq<char>
    decreases t, 2nat,
{
    t.name + seq!['#'] + id_text(t.id) + seq![' ', ':', ' '] + value_text(*t.ty)
}

/// The text that follows the name of a disjunction, conjunction or data:
/// ` {}` for no entries, else its valued entries in braces.
pub open spec fn body_text(es: Seq<(Seq<char>, Option<ValueView>)>) -> Seq<char>
    decreases es, 2nat,
{
    if es.len() == 0 {
        seq![' ', '{', '}']
    } else {
        seq![' ', '{', ' '] + joined(entry_texts(es), seq![',', ' ']) + seq![' ', '}']
    }
}

/// `name = value` for each entry with a value, in order.
pub open spec fn entry_texts(es: Seq<(Seq<char>, Option<ValueView>)>) -> Seq<Seq<char>>
    decreases es, 1nat,
{
    if es.len() == 0 {
        Seq::empty()
    } else {
        match es.last().1 {
            None => entry_texts(es.drop_last()),
            Some(v) => entry_texts(es.drop_last()).push(es.last().0 + seq![' ', '=', ' '] + value_text(v)),
        }
    }
}

fn write_id(id: Id, s: &mut String)
    ensures
        final(s)@ == old(s)@ + id_text(id),
{
    match id {
        Id::Uuid(n) => {
            let h = uuid_hyphenated(n);
            let cs = chars_of(h.as_str());
            push_char(s, cs[0]);
            push_char(s, cs[1]);
            push_char(s, cs[2]);
            proof {
                assert(h@[0] == hex_digit(nibble(n, 0)));
                assert(h@[1] == hex_digit(nibble(n, 1)));
                assert(h@[2] == hex_digit(nibble(n, 2)));
                assert(final(s)@ =~= old(s)@ + id_text(id));
            }
        },
        Id::Local(c) => {
            push_decimal(s, c as u64);
        },
    }
}

fn write_value(v: &Value, s: &mut String)
    ensures
        final(s)@ == old(s)@ + value_text(v@),
    decreases v, 3nat,
{
    match v {
        Value::Var(x) => {
            push_str(s, x.name.as_str());
            push_char(s, '#');
            write_id(x.id, s);
        },
        Value::TypedVar(t) => write_tv(t, s),
        Value::Disj(d) => {
            push_str(s, d.name.as_str());
            push_str(s, " (");
            crate::cicada::push_joined(s, &d.name_vec, ", ");
            push_char(s, ')');
            write_body(&d.body, s);
            proof {
                reveal_strlit(" (");
                reveal_strlit(", ");
                assert(" ("@ =~= seq![' ', '(']);
                assert(", "@ =~= seq![',', ' ']);
                assert(crate::cicada::names_view(d.name_vec@) =~= names_view(d.name_vec@));
            }
        },
        Value::Conj(c) => {
            push_str(s, c.name.as_str());
            write_body(&c.body, s);
        },
        Value::Data(d) => {
            push_str(s, d.name.as_str());
            write_body(&d.body, s);
        },
        Value::TypeOfType => {
            push_str(s, "type");
            proof {
                reveal_strlit("type");
                assert("type"@ =~= seq!['t', 'y', 'p', 'e']);
            }
        },
    }
    proof {
        assert(final(s)@ =~= old(s)@ + value_text(v@));
    }
}

fn write_tv(t: &TypedVar, s: &mut String)
    ensures
        final(s)@ == old(s)@ + tv_text(t@),
    decreases t, 2nat,
{
    push_str(s, t.name.as_str());
    push_char(s, '#');
    write_id(t.id, s);
    push_str(s, " : ");
    write_value(&t.ty, s);
    proof {
        reveal_strlit(" : ");
        assert(" : "@ =~= seq![' ', ':', ' ']);
        assert(final(s)@ =~= old(s)@ + tv_text(t@));
    }
}

fn write_body(d: &Dic<Value>, s: &mut String)
    ensures
        final(s)@ == old(s)@ + body_text(entries_view(d.entries@)),
    decreases d, 2nat,
{
    proof {
        lemma_entries_view(d.entries@);
    }
    if d.entries.len() == 0 {
        push_str(s, " {}");
        proof {
            reveal_strlit(" {}");
            assert(" {}"@ =~= seq![' ', '{', '}']);
        }
        return;
    }
    push_str(s, " { ");
    let ghost start = s@;
    let mut any = false;
    let mut i: usize = 0;
    proof {
        assert(entries_view(d.entries@.take(0)) =~= Seq::<(Seq<char>, Option<ValueView>)>::empty());
        assert(start + Seq::<char>::empty() =~= start);
    }
    while i < d.entries.len()
        invariant
            i <= d.entries@.len(),
            s@ == start + joined(entry_texts(entries_view(d.entries@.take(i as int))), seq![',', ' ']),
            any == (entry_texts(entries_view(d.entries@.take(i as int))).len() > 0),
        decreases d.entries@.len() - i,
    {
        assert(decreases_to!(d => d.entries@[i as int]));
        let ghost es = entries_view(d.entries@.take(i as int));
        proof {
            assert(d.entries@.take(i + 1).drop_last() =~= d.entries@.take(i as int));
            assert(entries_view(d.entries@.take(i + 1)) == es.push((d.entries@[i as int].0@, opt_value_view(d.entries@[i as int].1))));
            let es2 = es.push((d.entries@[i as int].0@, opt_value_view(d.entries@[i as int].1)));
            assert(es2.drop_last() =~= es);
        }
        match &d.entries[i].1 {
            Some(x) => {
                assert(decreases_to!(d => d.entries@[i as int].1->Some_0));
                let ghost parts = entry_texts(es);
                let ghost before = s@;
                if any {
                    push_str(s, ", ");
                }
                push_str(s, d.entries[i].0.as_str());
                push_str(s, " = ");
                write_value(x, s);
                any = true;
                proof {
                    reveal_strlit(", ");
                    reveal_strlit(" = ");
                    assert(", "@ =~= seq![',', ' ']);
                    assert(" = "@ =~= seq![' ', '=', ' ']);
                    let part = d.entries@[i as int].0@ + seq![' ', '=', ' '] + value_text(x@);
                    let parts2 = parts.push(part);
                    assert(parts2.drop_last() =~= parts);
                    if parts.len() == 0 {
                        assert(parts2[0] == part);
                    }
                    assert(s@ =~= start + joined(parts2, seq![',', ' ']));
                }
            },
            None => {},
        }
        i = i + 1;
    }
    push_str(s, " }");
    proof {
        assert(d.entries@.take(d.entries@.len() as int) =~= d.entries@);
        reveal_strlit(" { ");
        reveal_strlit(" }");
        assert(" { "@ =~= seq![' ', '{', ' ']);
        assert(" }"@ =~= seq![' ', '}']);
        assert(final(s)@ =~= old(s)@ + body_text(entries_view(d.entries@)));
    }
}

impl Id {
    /// The text of the id.
    pub fn to_string(&self) -> (s: String)
        ensures
            s@ == id_text(*self),
    {
        let mut s = String::new();
        write_id(*self, &mut s);
        s
    }
}

impl Var {
    /// The text of the variable: `name#id`.
    pub fn to_string(&self) -> (s: String)
        ensures
            s@ == value_text(ValueView::Var(self@)),
    {
        let mut s = String::new();
        push_str(&mut s, self.name.as_str());
        push_char(&mut s, '#');
        write_id(self.id, &mut s);
        s
    }
}

impl TypedVar {
    /// The text of the typed variable: `name#id : type`.
    pub fn to_string(&self) -> (s: String)
        ensures
            s@ == tv_text(self@),
    {
        let mut s = String::new();
        write_tv(self, &mut s);
        s
    }
}

impl Value {
    /// The text of the value.
    pub fn to_string(&self) -> (s: String)
        ensures
            s@ == value_text(self@),
    {
        let mut s = String::new();
        write_value(self, &mut s);
        s
    }
}

/// The text of the bindings of a substitution: `var = value` on a line of
/// its own for each binding, in braces after `$raw-subst-c`.
pub open spec fn subst_text(bs: Seq<BindView>) -> Seq<char> {
    let lines = subst_lines(bs);
    if lines.len() == 0 {
        "$raw-subst-c"@ + " {}"@
    } else {
        "$raw-subst-c"@ + " { "@ + lines + " }"@
    }
}

/// `var = value` and a line break for each binding, the latest first.
pub open spec fn subst_lines(bs: Seq<BindView>) -> Seq<char>
    decreases bs.len(),
{
    if bs.len() == 0 {
        Seq::empty()
    } else {
        let line = match bs[0] {
            BindView::Var(x, v) => value_text(ValueView::Var(x)) + seq![' ', '=', ' '] + value_text(v),
            BindView::Tv(t, v) => tv_text(t) + seq![' ', '=', ' '] + value_text(v),
        };
        line + seq!['\n'] + subst_lines(bs.drop_first())
    }
}

impl Subst {
    /// The text of the substitution.
    pub fn to_string(&self) -> (r: String)
        ensures
            r@ == subst_text(self@),
    {
        let mut s = String::new();
        let mut subst = self;
        let ghost k: int = 0;
        proof {
            assert(self@.skip(0) =~= self@);
        }
        loop
            invariant
                0 <= k <= self@.len(),
                subst@ == self@.skip(k),
                s@ + subst_lines(subst@) == subst_lines(self@),
            ensures
                s@ == subst_lines(self@),
            decreases subst@.len(),
        {
            match subst {
                Subst::Null => {
                    proof {
                        assert(s@ + Seq::<char>::empty() =~= s@);
                    }
                    break;
                },
                Subst::VarBinding(x, v, next) => {
                    let ghost before = s@;
                    write_value(&Value::Var(copy_var(x)), &mut s);
                    push_str(&mut s, " = ");
                    write_value(v, &mut s);
                    push_char(&mut s, '\n');
                    proof {
                        reveal_strlit(" = ");
                        assert(" = "@ =~= seq![' ', '=', ' ']);
                        assert(subst@.drop_first() =~= next@);
                        assert(self@.skip(k + 1) =~= self@.skip(k).drop_first());
                        k = k + 1;
                        assert(s@ + subst_lines(next@) =~= before + subst_lines(subst@));
                    }
                    subst = next;
                },
                Subst::TypedVarBinding(t, v, next) => {
                    let ghost before = s@;
                    write_tv(t, &mut s);
                    push_str(&mut s, " = ");
                    write_value(v, &mut s);
                    push_char(&mut s, '\n');
                    proof {
                        reveal_strlit(" = ");
                        assert(" = "@ =~= seq![' ', '=', ' ']);
                        assert(subst@.drop_first() =~= next@);
                        assert(self@.skip(k + 1) =~= self@.skip(k).drop_first());
                        k = k + 1;
                        assert(s@ + subst_lines(next@) =~= before + subst_lines(subst@));
                    }
                    subst = next;
                },
            }
        }
        format_mexp_block("$raw-subst-c", s)
    }
}

/// `head {}` for an empty body, else `head { body }`.
pub fn format_mexp_block(head: &str, input: String) -> (r: String)
    ensures
        r@ == (if input@.len() == 0 { head@ + " {}"@ } else { head@ + " { "@ + input@ + " }"@ }),
{
    let mut r = string_from(head);
    if input.as_str().unicode_len() == 0 {
        push_str(&mut r, " {}");
    } else {
        push_str(&mut r, " { ");
        push_str(&mut r, input.as_str());
        push_str(&mut r, " }");
    }
    r
}

/// Whether walking each valued entry, and the type of each typed
/// variable that one walks to, ends.
pub open spec fn tvs_walks_end(bs: Seq<BindView>, es: Seq<(Seq<char>, Option<ValueView>)>) -> bool {
    forall|i: int| 0 <= i < es.len() && #[trigger] es[i].1 is Some ==> {
        &&& walk_ends(bs, es[i].1->Some_0)
        &&& (walk_spec(bs, es[i].1->Some_0) is TypedVar ==> walk_ends(bs, *walk_spec(bs, es[i].1->Some_0)->TypedVar_0.ty))
    }
}

/// The typed variables that the first `k` valued entries walk to, in
/// order, whose types walk to a disjunction or a conjunction: those that
/// a proof is still to fill.
pub open spec fn open_tvs(bs: Seq<BindView>, es: Seq<(Seq<char>, Option<ValueView>)>, k: int) -> Seq<TvView>
    decreases k,
{
    if k <= 0 || k > es.len() {
        Seq::empty()
    } else {
        let prev = open_tvs(bs, es, k - 1);
        match es[k - 1].1 {
            Some(v) => match walk_spec(bs, v) {
                ValueView::TypedVar(tv) => match walk_spec(bs, *tv.ty) {
                    ValueView::Disj(..) | ValueView::Conj(..) => prev.push(tv),
                    _ => prev,
                },
                _ => prev,
            },
            None => prev,
        }
    }
}

/// The typed variables of the entries of `value_dic`, as walked in
/// `subst`, whose types walk to a disjunction or a conjunction.
pub fn value_dic_to_tv_vec(subst: &Subst, value_dic: &Dic<Value>) -> (r: Vec<TypedVar>)
    requires
        tvs_walks_end(subst@, entries_view(value_dic.entries@)),
    ensures
        r@.map_values(|t: TypedVar| t@) == open_tvs(subst@, entries_view(value_dic.entries@), value_dic.entries@.len() as int),
{
    let ghost es = entries_view(value_dic.entries@);
    proof {
        lemma_entries_view(value_dic.entries@);
    }
    let mut vec: Vec<TypedVar> = Vec::new();
    let mut i: usize = 0;
    proof {
        assert(vec@.map_values(|t: TypedVar| t@) =~= Seq::<TvView>::empty());
    }
    while i < value_dic.entries.len()
        invariant
            i <= value_dic.entries@.len(),
            es == entries_view(value_dic.entries@),
            es.len() == value_dic.entries@.len(),
            forall|j: int| 0 <= j < value_dic.entries@.len() ==> #[trigger] es[j] == (value_dic.entries@[j].0@, opt_value_view(value_dic.entries@[j].1)),
            tvs_walks_end(subst@, es),
            vec@.map_values(|t: TypedVar| t@) == open_tvs(subst@, es, i as int),
        decreases value_dic.entries@.len() - i,
    {
        let ghost before = vec@;
        match &value_dic.entries[i].1 {
            Some(value) => {
                assert(es[i as int].1 is Some);
                let value = subst.walk(value);
                match value {
                    Value::TypedVar(tv) => {
                        let ty = subst.walk(&tv.ty);
                        match ty {
                            Value::Disj(_) | Value::Conj(_) => {
                                vec.push(tv);
                                proof {
                                    assert(vec@.map_values(|t: TypedVar| t@) =~= before.map_values(|t: TypedVar| t@).push(tv@));
                                }
                            },
                            _ => {},
                        }
                    },
                    _ => {},
                }
            },
            None => {},
        }
        i = i + 1;
    }
    vec
}

/// `name = value` and a line break for each variable of `xs`, its value
/// read back from `bs`.
pub open spec fn report_lines(xs: Seq<VarView>, bs: Seq<BindView>) -> Seq<char>
    decreases xs.len(),
{
    if xs.len() == 0 {
        Seq::empty()
    } else {
        report_lines(xs.drop_last(), bs) + xs.last().name + seq![' ', '=', ' ']
            + value_text(reify_spec(bs, ValueView::Var(xs.last()))) + seq!['\n']
    }
}

/// The values of the variables `var_vec` read back from `subst`, each on
/// a line `name = value`, in braces after `$subst-c`.
pub fn report_subst(var_vec: &Vec<Var>, subst: &Subst) -> (r: String)
    requires
        forall|i: int| 0 <= i < var_vec@.len() ==> reify_ends(subst@, ValueView::Var(#[trigger] var_vec@[i]@)),
    ensures
        r@ == (if report_lines(var_vec@.map_values(|x: Var| x@), subst@).len() == 0 {
            "$subst-c"@ + " {}"@
        } else {
            "$subst-c"@ + " { "@ + report_lines(var_vec@.map_values(|x: Var| x@), subst@) + " }"@
        }),
{
    let ghost xs = var_vec@.map_values(|x: Var| x@);
    let mut s = String::new();
    let mut i: usize = 0;
    proof {
        assert(xs.take(0) =~= Seq::<VarView>::empty());
    }
    while i < var_vec.len()
        invariant
            i <= var_vec@.len(),
            xs == var_vec@.map_values(|x: Var| x@),
            forall|j: int| 0 <= j < var_vec@.len() ==> reify_ends(subst@, ValueView::Var(#[trigger] var_vec@[j]@)),
            s@ == report_lines(xs.take(i as int), subst@),
        decreases var_vec@.len() - i,
    {
        let value = Value::Var(copy_var(&var_vec[i]));
        assert(reify_ends(subst@, ValueView::Var(var_vec@[i as int]@)));
        let reified = subst.reify(&value);
        push_str(&mut s, var_vec[i].name.as_str());
        push_str(&mut s, " = ");
        write_value(&reified, &mut s);
        push_char(&mut s, '\n');
        proof {
            reveal_strlit(" = ");
            assert(" = "@ =~= seq![' ', '=', ' ']);
            assert(xs.take(i + 1).drop_last() =~= xs.take(i as int));
            assert(xs.take(i + 1).last() == var_vec@[i as int]@);
        }
        i = i + 1;
    }
    proof {
        assert(xs.take(xs.len() as int) =~= xs);
    }
    format_mexp_block("$subst-c", s)
}

} // verus!
