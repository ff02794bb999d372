use vstd::prelude::*;
use crate::error_report::Span;
use crate::text::{push_str, push_char, string_from};

verus! {

/// An M-expression, pointing into its source text.
#[derive(Debug, PartialEq)]
pub enum Mexp<'a> {
    Str { span: Span, string: &'a str },
    Char { span: Span, ch: &'a str },
    Sym { span: Span, symbol: &'a str },
    Dot { span: Span, head: Box<Mexp<'a>>, tail: Box<Mexp<'a>> },
    Apply { span: Span, head: Box<Mexp<'a>>, arg: MexpArg<'a> },
    Array { span: Span, body: Vec<Mexp<'a>> },
    Arrow { span: Span, ante: Vec<Mexp<'a>>, ret: Box<Mexp<'a>> },
    /// infix are all left-associative
    Infix { span: Span, op: &'a str, lhs: Box<Mexp<'a>>, rhs: Box<Mexp<'a>> },
    InfixApply { span: Span, op: &'a str, lhs: Box<Mexp<'a>>, arg: MexpArg<'a> },
}

/// The argument of an application: `( ... )` or `{ ... }`.
#[derive(Debug, PartialEq)]
pub enum MexpArg<'a> {
    Tuple { span: Span, body: Vec<Mexp<'a>> },
    Block { span: Span, body: Vec<Mexp<'a>> },
}

impl<'a> Mexp<'a> {
    /// Where the expression stands in its source text.
    pub open spec fn spec_span(&self) -> Span {
        match *self {
            Mexp::Str { span, .. } => span,
            Mexp::Char { span, .. } => span,
            Mexp::Sym { span, .. } => span,
            Mexp::Dot { span, .. } => span,
            Mexp::Apply { span, .. } => span,
            Mexp::Array { span, .. } => span,
            Mexp::Arrow { span, .. } => span,
            Mexp::Infix { span, .. } => span,
            Mexp::InfixApply { span, .. } => span,
        }
    }

    /// Where the expression stands in its source text.
    pub fn span(&self) -> (s: Span)
        ensures
            s == self.spec_span(),
            s == mexp_view_span(self@),
    {
        match self {
            Mexp::Str { span, .. } => *span,
            Mexp::Char { span, .. } => *span,
            Mexp::Sym { span, .. } => *span,
            Mexp::Dot { span, .. } => *span,
            Mexp::Apply { span, .. } => *span,
            Mexp::Array { span, .. } => *span,
            Mexp::Arrow { span, .. } => *span,
            Mexp::Infix { span, .. } => *span,
            Mexp::InfixApply { span, .. } => *span,
        }
    }
}

impl<'a> MexpArg<'a> {
    /// Where the argument stands in its source text.
    pub open spec fn spec_span(&self) -> Span {
        match *self {
            MexpArg::Tuple { span, .. } => span,
            MexpArg::Block { span, .. } => span,
        }
    }

    /// Where the argument stands in its source text.
    pub fn span(&self) -> (s: Span)
        ensures
            s == self.spec_span(),
            s == arg_view_span(self@),
    {
        match self {
            MexpArg::Tuple { span, .. } => *span,
            MexpArg::Block { span, .. } => *span,
        }
    }
}

/// What an M-expression says, its texts as characters.
pub enum MexpView {
    Str { span: Span, string: Seq<char> },
    Char { span: Span, ch: Seq<char> },
    Sym { span: Span, symbol: Seq<char> },
    Dot { span: Span, head: Box<MexpView>, tail: Box<MexpView> },
    Apply { span: Span, head: Box<MexpView>, arg: ArgView },
    Array { span: Span, body: Seq<MexpView> },
    Arrow { span: Span, ante: Seq<MexpView>, ret: Box<MexpView> },
    Infix { span: Span, op: Seq<char>, lhs: Box<MexpView>, rhs: Box<MexpView> },
    InfixApply { span: Span, op: Seq<char>, lhs: Box<MexpView>, arg: ArgView },
}

/// What an argument says.
pub enum ArgView {
    Tuple { span: Span, body: Seq<MexpView> },
    Block { span: Span, body: Seq<MexpView> },
}

/// The view of an expression.
pub open spec fn mexp_view<'a>(m: Mexp<'a>) -> MexpView
    decreases m, 2nat,
{
    match m {
        Mexp::Str { span, string } => MexpView::Str { span, string: string@ },
        Mexp::Char { span, ch } => MexpView::Char { span, ch: ch@ },
        Mexp::Sym { span, symbol } => MexpView::Sym { span, symbol: symbol@ },
        Mexp::Dot { span, head, tail } => MexpView::Dot { span, head: Box::new(mexp_view(*head)), tail: Box::new(mexp_view(*tail)) },
        Mexp::Apply { span, head, arg } => MexpView::Apply { span, head: Box::new(mexp_view(*head)), arg: arg_view(arg) },
        Mexp::Array { span, body } => MexpView::Array { span, body: mexps_view(body@) },
        Mexp::Arrow { span, ante, ret } => MexpView::Arrow { span, ante: mexps_view(ante@), ret: Box::new(mexp_view(*ret)) },
        Mexp::Infix { span, op, lhs, rhs } => MexpView::Infix { span, op: op@, lhs: Box::new(mexp_view(*lhs)), rhs: Box::new(mexp_view(*rhs)) },
        Mexp::InfixApply { span, op, lhs, arg } => MexpView::InfixApply { span, op: op@, lhs: Box::new(mexp_view(*lhs)), arg: arg_view(arg) },
    }
}

/// The view of an argument.
pub open spec fn arg_view<'a>(a: MexpArg<'a>) -> ArgView
    decreases a, 2nat,
{
    match a {
        MexpArg::Tuple { span, body } => ArgView::Tuple { span, body: mexps_view(body@) },
        MexpArg::Block { span, body } => ArgView::Block { span, body: mexps_view(body@) },
    }
}

/// The views of expressions.
pub open spec fn mexps_view<'a>(ms: Seq<Mexp<'a>>) -> Seq<MexpView>
    decreases ms, 1nat,
{
    if ms.len() == 0 {
        Seq::empty()
    } else {
        mexps_view(ms.drop_last()).push(mexp_view(ms.last()))
    }
}

/// Where the expression of a view stands in its source text.
pub open spec fn mexp_view_span(m: MexpView) -> Span {
    match m {
        MexpView::Str { span, .. } => span,
        MexpView::Char { span, .. } => span,
        MexpView::Sym { span, .. } => span,
        MexpView::Dot { span, .. } => span,
        MexpView::Apply { span, .. } => span,
        MexpView::Array { span, .. } => span,
        MexpView::Arrow { span, .. } => span,
        MexpView::Infix { span, .. } => span,
        MexpView::InfixApply { span, .. } => span,
    }
}

/// Where the argument of a view stands in its source text.
pub open spec fn arg_view_span(a: ArgView) -> Span {
    match a {
        ArgView::Tuple { span, .. } => span,
        ArgView::Block { span, .. } => span,
    }
}

/// The views of expressions, element by element.
pub proof fn lemma_mexps_view_map<'a>(s: Seq<Mexp<'a>>)
    ensures
        mexps_view(s) == s.map_values(|m: Mexp<'a>| mexp_view(m)),
    decreases s.len(),
{
    if s.len() > 0 {
        lemma_mexps_view_map(s.drop_last());
        assert(s.map_values(|m: Mexp<'a>| mexp_view(m)) =~= s.drop_last().map_values(|m: Mexp<'a>| mexp_view(m)).push(mexp_view(s.last())));
    } else {
        assert(s.map_values(|m: Mexp<'a>| mexp_view(m)) =~= Seq::<MexpView>::empty());
    }
}

impl<'a> View for Mexp<'a> {
    type V = MexpView;

    open spec fn view(&self) -> MexpView {
        mexp_view(*self)
    }
}

impl<'a> View for MexpArg<'a> {
    type V = ArgView;

    open spec fn view(&self) -> ArgView {
        arg_view(*self)
    }
}

/// The views of expressions with one more expression at the end.
pub proof fn lemma_mexps_view_push<'a>(s: Seq<Mexp<'a>>, x: Mexp<'a>)
    ensures
        mexps_view(s.push(x)) == mexps_view(s).push(mexp_view(x)),
{
    assert(s.push(x).drop_last() =~= s);
}

/// The length of the views is the length of the expressions.
pub proof fn lemma_mexps_view_len<'a>(s: Seq<Mexp<'a>>)
    ensures
        mexps_view(s).len() == s.len(),
    decreases s.len(),
{
    if s.len() > 0 {
        lemma_mexps_view_len(s.drop_last());
    }
}

/// The view of each expression is the element of the views.
pub proof fn lemma_mexps_view_index<'a>(s: Seq<Mexp<'a>>, i: int)
    requires
        0 <= i < s.len(),
    ensures
        mexps_view(s)[i] == mexp_view(s[i]),
    decreases s.len(),
{
    lemma_mexps_view_len(s.drop_last());
    if i < s.len() - 1 {
        lemma_mexps_view_index(s.drop_last(), i);
    }
}

fn clone_mexps<'a>(v: &Vec<Mexp<'a>>) -> (r: Vec<Mexp<'a>>)
    ensures
        mexps_view(r@) == mexps_view(v@),
        r@.len() == v@.len(),
    decreases v, 0nat,
{
    let mut r: Vec<Mexp<'a>> = Vec::new();
    let mut i: usize = 0;
    proof {
        assert(v@.take(0) =~= Seq::<Mexp<'a>>::empty());
    }
    while i < v.len()
        invariant
            i <= v@.len(),
            r@.len() == i,
            mexps_view(r@) == mexps_view(v@.take(i as int)),
        decreases v@.len() - i,
    {
        assert(decreases_to!(v => v@[i as int]));
        let ghost before = r@;
        let x = v[i].clone();
        r.push(x);
        proof {
            lemma_mexps_view_push(before, x);
            assert(v@.take(i + 1) =~= v@.take(i as int).push(v@[i as int]));
            lemma_mexps_view_push(v@.take(i as int), v@[i as int]);
        }
        i = i + 1;
    }
    proof {
        assert(v@.take(v@.len() as int) =~= v@);
    }
    r
}

impl<'a> Clone for MexpArg<'a> {
    fn clone(&self) -> (r: Self)
        ensures
            r@ == self@,
        decreases self, 1nat,
    {
        match self {
            MexpArg::Tuple { span, body } => MexpArg::Tuple { span: *span, body: clone_mexps(body) },
            MexpArg::Block { span, body } => MexpArg::Block { span: *span, body: clone_mexps(body) },
        }
    }
}

impl<'a> Clone for Mexp<'a> {
    fn clone(&self) -> (r: Self)
        ensures
            r@ == self@,
        decreases self, 1nat,
    {
        match self {
            Mexp::Str { span, string } => Mexp::Str { span: *span, string: *string },
            Mexp::Char { span, ch } => Mexp::Char { span: *span, ch: *ch },
            Mexp::Sym { span, symbol } => Mexp::Sym { span: *span, symbol: *symbol },
            Mexp::Dot { span, head, tail } => Mexp::Dot {
                span: *span,
                head: Box::new((**head).clone()),
                tail: Box::new((**tail).clone()),
            },
            Mexp::Apply { span, head, arg } => Mexp::Apply { span: *span, head: Box::new((**head).clone()), arg: arg.clone() },
            Mexp::Array { span, body } => Mexp::Array { span: *span, body: clone_mexps(body) },
            Mexp::Arrow { span, ante, ret } => Mexp::Arrow { span: *span, ante: clone_mexps(ante), ret: Box::new((**ret).clone()) },
            Mexp::Infix { span, op, lhs, rhs } => Mexp::Infix {
                span: *span,
                op: *op,
                lhs: Box::new((**lhs).clone()),
                rhs: Box::new((**rhs).clone()),
            },
            Mexp::InfixApply { span, op, lhs, arg } => Mexp::InfixApply {
                span: *span,
                op: *op,
                lhs: Box::new((**lhs).clone()),
                arg: arg.clone(),
            },
        }
    }
}

impl<'a> MexpArg<'a> {
    /// A copy of the expressions the argument holds.
    pub fn body(&self) -> (v: Vec<Mexp<'a>>)
        ensures
            mexps_view(v@) == match self@ {
                ArgView::Tuple { body, .. } => body,
                ArgView::Block { body, .. } => body,
            },
    {
        match self {
            MexpArg::Tuple { body, .. } => clone_mexps(body),
            MexpArg::Block { body, .. } => clone_mexps(body),
        }
    }
}

/// The text of an expression, on one line.
pub open spec fn mexp_text(m: MexpView) -> Seq<char>
    decreases m, 1nat,
{
    match m {
        MexpView::Str { string, .. } => seq!['"'] + string + seq!['"'],
        MexpView::Char { ch, .. } => seq!['\''] + ch + seq!['\''],
        MexpView::Sym { symbol, .. } => symbol,
        MexpView::Dot { head, tail, .. } => mexp_text(*head) + seq!['.'] + mexp_text(*tail),
        MexpView::Apply { head, arg, .. } => mexp_text(*head) + seq![' '] + arg_text(arg),
        MexpView::Array { body, .. } => seq!['['] + mexps_text(body) + seq![']'],
        MexpView::Arrow { ante, ret, .. } => "-- "@ + mexps_text(ante) + " -> "@ + mexp_text(*ret),
        MexpView::Infix { op, lhs, rhs, .. } => mexp_text(*lhs) + seq![' '] + op + seq![' '] + mexp_text(*rhs),
        MexpView::InfixApply { op, lhs, arg, .. } => mexp_text(*lhs) + seq![' '] + op + seq![' '] + arg_text(arg),
    }
}

/// The text of an argument, on one line.
pub open spec fn arg_text(a: ArgView) -> Seq<char>
    decreases a, 1nat,
{
    match a {
        ArgView::Tuple { body, .. } => seq!['('] + mexps_text(body) + seq![')'],
        ArgView::Block { body, .. } => if body.len() == 0 { "{}"@ } else { "{ "@ + mexps_text(body) + " }"@ },
    }
}

/// The texts of expressions, separated by single spaces.
pub open spec fn mexps_text(ms: Seq<MexpView>) -> Seq<char>
    decreases ms, 0nat,
{
    if ms.len() == 0 {
        Seq::empty()
    } else if ms.len() == 1 {
        mexp_text(ms[0])
    } else {
        mexps_text(ms.drop_last()) + seq![' '] + mexp_text(ms.last())
    }
}

proof fn lemma_mexps_text_push(ms: Seq<MexpView>, m: MexpView)
    ensures
        mexps_text(ms.push(m)) == if ms.len() == 0 { mexp_text(m) } else { mexps_text(ms) + seq![' '] + mexp_text(m) },
{
    assert(ms.push(m).drop_last() =~= ms);
    if ms.len() == 0 {
        assert(ms.push(m)[0] == m);
    }
}

impl<'a> Mexp<'a> {
    /// The text of the expression, on one line.
    pub fn to_string(&self) -> (s: String)
        ensures
            s@ == mexp_text(self@),
        decreases self, 1nat,
    {
        let mut s = String::new();
        self.write_text(&mut s);
        s
    }

    fn write_text(&self, s: &mut String)
        ensures
            final(s)@ == old(s)@ + mexp_text(self@),
        decreases self, 0nat,
    {
        match self {
            Mexp::Str { string, .. } => {
                push_char(s, '"');
                push_str(s, string);
                push_char(s, '"');
            },
            Mexp::Char { ch, .. } => {
                push_char(s, '\'');
                push_str(s, ch);
                push_char(s, '\'');
            },
            Mexp::Sym { symbol, .. } => {
                push_str(s, symbol);
            },
            Mexp::Dot { head, tail, .. } => {
                head.write_text(s);
                push_char(s, '.');
                tail.write_text(s);
            },
            Mexp::Apply { head, arg, .. } => {
                head.write_text(s);
                push_char(s, ' ');
                arg.write_text(s);
            },
            Mexp::Array { body, .. } => {
                push_char(s, '[');
                write_mexps_text(body, s);
                push_char(s, ']');
            },
            Mexp::Arrow { ante, ret, .. } => {
                push_str(s, "-- ");
                write_mexps_text(ante, s);
                push_str(s, " -> ");
                ret.write_text(s);
            },
            Mexp::Infix { op, lhs, rhs, .. } => {
                lhs.write_text(s);
                push_char(s, ' ');
                push_str(s, op);
                push_char(s, ' ');
                rhs.write_text(s);
            },
            Mexp::InfixApply { op, lhs, arg, .. } => {
                lhs.write_text(s);
                push_char(s, ' ');
                push_str(s, op);
                push_char(s, ' ');
                arg.write_text(s);
            },
        }
    }
}

impl<'a> MexpArg<'a> {
    /// The text of the argument, on one line.
    pub fn to_string(&self) -> (s: String)
        ensures
            s@ == arg_text(self@),
        decreases self, 1nat,
    {
        let mut s = String::new();
        self.write_text(&mut s);
        s
    }

    fn write_text(&self, s: &mut String)
        ensures
            final(s)@ == old(s)@ + arg_text(self@),
        decreases self, 0nat,
    {
        match self {
            MexpArg::Tuple { body, .. } => {
                push_char(s, '(');
                write_mexps_text(body, s);
                push_char(s, ')');
            },
            MexpArg::Block { body, .. } => {
                proof {
                    lemma_mexps_view_len(body@);
                }
                if body.len() == 0 {
                    push_str(s, "{}");
                } else {
                    push_str(s, "{ ");
                    write_mexps_text(body, s);
                    push_str(s, " }");
                }
            },
        }
    }
}

fn write_mexps_text<'a>(v: &Vec<Mexp<'a>>, s: &mut String)
    ensures
        final(s)@ == old(s)@ + mexps_text(mexps_view(v@)),
    decreases v, 0nat,
{
    let mut i: usize = 0;
    proof {
        assert(v@.take(0) =~= Seq::<Mexp<'a>>::empty());
        assert(old(s)@ + Seq::<char>::empty() =~= old(s)@);
    }
    while i < v.len()
        invariant
            i <= v@.len(),
            s@ == old(s)@ + mexps_text(mexps_view(v@.take(i as int))),
        decreases v@.len() - i,
    {
        assert(decreases_to!(v => v@[i as int]));
        let ghost before = s@;
        if i > 0 {
            push_char(s, ' ');
        }
        v[i].write_text(s);
        proof {
            assert(v@.take(i + 1) =~= v@.take(i as int).push(v@[i as int]));
            lemma_mexps_view_push(v@.take(i as int), v@[i as int]);
            lemma_mexps_view_len(v@.take(i as int));
            lemma_mexps_text_push(mexps_view(v@.take(i as int)), mexp_view(v@[i as int]));
        }
        i = i + 1;
    }
    proof {
        assert(v@.take(v@.len() as int) =~= v@);
    }
}

/// The text of expressions, separated by single spaces.
pub fn mexp_vec_to_string<'a>(mexp_vec: &Vec<Mexp<'a>>) -> (s: String)
    ensures
        s@ == mexps_text(mexps_view(mexp_vec@)),
{
    let mut s = String::new();
    write_mexps_text(mexp_vec, &mut s);
    s
}

/// The tree format of an expression: its syntax tree written as an
/// expression of the same language.
pub open spec fn mexp_tree(m: MexpView) -> Seq<char>
    decreases m, 1nat,
{
    match m {
        MexpView::Str { string, .. } => "mexp:str { quotation ('\"') { \""@ + string + "\" } }"@,
        MexpView::Char { ch, .. } => "mexp:char { quotation ('\\'') { '"@ + ch + "'  } }"@,
        MexpView::Sym { symbol, .. } => "mexp:sym { \""@ + symbol + "\" }"@,
        MexpView::Dot { head, tail, .. } => "mexp:dot { "@ + mexp_tree(*head) + " '.' "@ + mexp_tree(*tail) + " }"@,
        MexpView::Apply { head, arg, .. } => "mexp:apply { "@ + mexp_tree(*head) + " "@ + arg_tree(arg) + " }"@,
        MexpView::Array { body, .. } => "mexp:array { '[' "@ + list_tree(body) + " ']' }"@,
        MexpView::Arrow { ante, ret, .. } => "mexp:arrow { \"--\" "@ + list_tree(ante) + " \"->\" "@ + mexp_tree(*ret) + " }"@,
        MexpView::Infix { op, lhs, rhs, .. } => "mexp:infix { "@ + mexp_tree(*lhs) + " \""@ + op + "\" "@ + mexp_tree(*rhs) + " }"@,
        MexpView::InfixApply { op, lhs, arg, .. } => "mexp:infix-apply { "@ + mexp_tree(*lhs) + " \""@ + op + "\" "@ + arg_tree(arg) + " }"@,
    }
}

/// The tree format of an argument.
pub open spec fn arg_tree(a: ArgView) -> Seq<char>
    decreases a, 1nat,
{
    match a {
        ArgView::Tuple { body, .. } => "arg:tuple { '(' "@ + list_tree(body) + " ')' }"@,
        ArgView::Block { body, .. } => "arg:block { '{' "@ + list_tree(body) + " '}' }"@,
    }
}

/// The tree format of a list of expressions, as nested `list:cons` nodes
/// ending in `list:null`.
pub open spec fn list_tree(ms: Seq<MexpView>) -> Seq<char>
    decreases ms, 0nat,
{
    if ms.len() == 0 {
        "list:null (mexp) {}"@
    } else {
        "list:cons (mexp) { "@ + mexp_tree(ms[0]) + " "@ + list_tree(ms.drop_first()) + " }"@
    }
}

impl<'a> Mexp<'a> {
    /// The tree format of the expression.
    pub fn to_tree_format(&self) -> (s: String)
        ensures
            s@ == mexp_tree(self@),
        decreases self, 1nat,
    {
        let mut s = String::new();
        self.write_tree(&mut s);
        s
    }

    fn write_tree(&self, s: &mut String)
        ensures
            final(s)@ == old(s)@ + mexp_tree(self@),
        decreases self, 0nat,
    {
        let ghost s0 = s@;
        match self {
            Mexp::Str { string, .. } => {
                push_str(s, "mexp:str { quotation ('\"') { \"");
                push_str(s, string);
                push_str(s, "\" } }");
            },
            Mexp::Char { ch, .. } => {
                push_str(s, "mexp:char { quotation ('\\'') { '");
                push_str(s, ch);
                push_str(s, "'  } }");
            },
            Mexp::Sym { symbol, .. } => {
                push_str(s, "mexp:sym { \"");
                push_str(s, symbol);
                push_str(s, "\" }");
            },
            Mexp::Dot { head, tail, .. } => {
                push_str(s, "mexp:dot { ");
                head.write_tree(s);
                push_str(s, " '.' ");
                tail.write_tree(s);
                push_str(s, " }");
            },
            Mexp::Apply { head, arg, .. } => {
                push_str(s, "mexp:apply { ");
                head.write_tree(s);
                push_str(s, " ");
                arg.write_tree(s);
                push_str(s, " }");
            },
            Mexp::Array { body, .. } => {
                push_str(s, "mexp:array { '[' ");
                write_list_tree(body, s);
                push_str(s, " ']' }");
            },
            Mexp::Arrow { ante, ret, .. } => {
                push_str(s, "mexp:arrow { \"--\" ");
                write_list_tree(ante, s);
                push_str(s, " \"->\" ");
                ret.write_tree(s);
                push_str(s, " }");
            },
            Mexp::Infix { op, lhs, rhs, .. } => {
                push_str(s, "mexp:infix { ");
                lhs.write_tree(s);
                push_str(s, " \"");
                push_str(s, op);
                push_str(s, "\" ");
                rhs.write_tree(s);
                push_str(s, " }");
            },
            Mexp::InfixApply { op, lhs, arg, .. } => {
                push_str(s, "mexp:infix-apply { ");
                lhs.write_tree(s);
                push_str(s, " \"");
                push_str(s, op);
                push_str(s, "\" ");
                arg.write_tree(s);
                push_str(s, " }");
            },
        }
        proof {
            assert(s@ =~= s0 + mexp_tree(self@));
        }
    }
}

impl<'a> MexpArg<'a> {
    /// The tree format of the argument.
    pub fn to_tree_format(&self) -> (s: String)
        ensures
            s@ == arg_tree(self@),
        decreases self, 1nat,
    {
        let mut s = String::new();
        self.write_tree(&mut s);
        s
    }

    fn write_tree(&self, s: &mut String)
        ensures
            final(s)@ == old(s)@ + arg_tree(self@),
        decreases self, 0nat,
    {
        let ghost s0 = s@;
        match self {
            MexpArg::Tuple { body, .. } => {
                push_str(s, "arg:tuple { '(' ");
                write_list_tree(body, s);
                push_str(s, " ')' }");
            },
            MexpArg::Block { body, .. } => {
                push_str(s, "arg:block { '{' ");
                write_list_tree(body, s);
                push_str(s, " '}' }");
            },
        }
        proof {
            assert(s@ =~= s0 + arg_tree(self@));
        }
    }
}

/// Appends the tree format of a list, built from its last element back to
/// its first.
fn write_list_tree<'a>(v: &Vec<Mexp<'a>>, out: &mut String)
    ensures
        final(out)@ == old(out)@ + list_tree(mexps_view(v@)),
    decreases v, 0nat,
{
    let ghost views = mexps_view(v@);
    proof {
        lemma_mexps_view_len(v@);
        assert(views.skip(v@.len() as int) =~= Seq::<MexpView>::empty());
    }
    let mut string = string_from("list:null (mexp) {}");
    let mut k: usize = v.len();
    while k > 0
        invariant
            k <= v@.len(),
            views == mexps_view(v@),
            views.len() == v@.len(),
            string@ == list_tree(views.skip(k as int)),
        decreases k,
    {
        assert(decreases_to!(v => v@[k - 1]));
        let mut s = String::new();
        push_str(&mut s, "list:cons (mexp) { ");
        v[k - 1].write_tree(&mut s);
        push_str(&mut s, " ");
        push_str(&mut s, string.as_str());
        push_str(&mut s, " }");
        proof {
            lemma_mexps_view_index(v@, k - 1);
            let rest = views.skip(k - 1);
            assert(rest.drop_first() =~= views.skip(k as int));
            assert(rest[0] == views[k - 1]);
            assert(s@ =~= list_tree(rest));
        }
        string = s;
        k = k - 1;
    }
    proof {
        assert(views.skip(0) =~= views);
    }
    push_str(out, string.as_str());
}

/// The indentation of a nesting level: two spaces a level.
pub open spec fn indent_text(level: nat) -> Seq<char> {
    Seq::new(2 * level, |i: int| ' ')
}

/// The text of an expression laid out on lines: the blocks that end it
/// open onto lines of their own, indented one level deeper.
pub open spec fn mexp_pretty(m: MexpView, level: nat) -> Seq<char>
    decreases m, 1nat,
{
    match m {
        MexpView::Apply { head, arg, .. } => mexp_text(*head) + seq![' '] + arg_pretty(arg, level),
        MexpView::Infix { op, lhs, rhs, .. } => mexp_text(*lhs) + seq![' '] + op + seq![' '] + mexp_pretty(*rhs, level),
        MexpView::InfixApply { op, lhs, arg, .. } => mexp_text(*lhs) + seq![' '] + op + seq![' '] + arg_pretty(arg, level),
        _ => mexp_text(m),
    }
}

/// The text of an argument laid out on lines.
pub open spec fn arg_pretty(a: ArgView, level: nat) -> Seq<char>
    decreases a, 1nat,
{
    match a {
        ArgView::Tuple { .. } => arg_text(a),
        ArgView::Block { body, .. } => if body.len() == 0 {
            "{}"@
        } else {
            "{\n"@ + lines_pretty(body, level + 1) + seq!['\n'] + indent_text(level) + seq!['}']
        },
    }
}

/// Expressions laid out one a line, each indented to its level.
pub open spec fn lines_pretty(ms: Seq<MexpView>, level: nat) -> Seq<char>
    decreases ms, 0nat,
{
    if ms.len() == 0 {
        Seq::empty()
    } else if ms.len() == 1 {
        indent_text(level) + mexp_pretty(ms[0], level)
    } else {
        lines_pretty(ms.drop_last(), level) + seq!['\n'] + indent_text(level) + mexp_pretty(ms.last(), level)
    }
}

/// The indentation of a nesting level.
fn indent(level: usize) -> (s: String)
    ensures
        s@ == indent_text(level as nat),
{
    let mut s = String::new();
    let mut i: usize = 0;
    while i < level
        invariant
            i <= level,
            s@ == indent_text(i as nat),
        decreases level - i,
    {
        push_char(&mut s, ' ');
        push_char(&mut s, ' ');
        proof {
            assert(s@ =~= indent_text((i + 1) as nat));
        }
        i = i + 1;
    }
    s
}

impl<'a> Mexp<'a> {
    /// The text of the expression laid out on lines, from the first column.
    pub fn to_pretty_string(&self) -> (s: String)
        ensures
            s@ == mexp_pretty(self@, 0),
    {
        let pad = indent(0);
        let mut s = String::new();
        self.write_pretty(&pad, Ghost(0), &mut s);
        s
    }

    fn write_pretty(&self, pad: &String, Ghost(level): Ghost<nat>, s: &mut String)
        requires
            pad@ == indent_text(level),
        ensures
            final(s)@ == old(s)@ + mexp_pretty(self@, level),
        decreases self, 0nat,
    {
        let ghost s0 = s@;
        match self {
            Mexp::Apply { head, arg, .. } => {
                head.write_text(s);
                push_char(s, ' ');
                arg.write_pretty(pad, Ghost(level), s);
            },
            Mexp::Infix { op, lhs, rhs, .. } => {
                lhs.write_text(s);
                push_char(s, ' ');
                push_str(s, op);
                push_char(s, ' ');
                rhs.write_pretty(pad, Ghost(level), s);
            },
            Mexp::InfixApply { op, lhs, arg, .. } => {
                lhs.write_text(s);
                push_char(s, ' ');
                push_str(s, op);
                push_char(s, ' ');
                arg.write_pretty(pad, Ghost(level), s);
            },
            _ => {
                self.write_text(s);
            },
        }
        proof {
            assert(s@ =~= s0 + mexp_pretty(self@, level));
        }
    }
}

impl<'a> MexpArg<'a> {
    fn write_pretty(&self, pad: &String, Ghost(level): Ghost<nat>, s: &mut String)
        requires
            pad@ == indent_text(level),
        ensures
            final(s)@ == old(s)@ + arg_pretty(self@, level),
        decreases self, 0nat,
    {
        let ghost s0 = s@;
        match self {
            MexpArg::Tuple { .. } => {
                self.write_text(s);
            },
            MexpArg::Block { body, .. } => {
                proof {
                    lemma_mexps_view_len(body@);
                }
                if body.len() == 0 {
                    push_str(s, "{}");
                } else {
                    let mut inner = pad.clone();
                    push_char(&mut inner, ' ');
                    push_char(&mut inner, ' ');
                    proof {
                        assert(inner@ =~= indent_text(level + 1));
                    }
                    push_str(s, "{\n");
                    write_lines_pretty(body, &inner, Ghost(level + 1), s);
                    push_char(s, '\n');
                    push_str(s, pad.as_str());
                    push_char(s, '}');
                }
            },
        }
        proof {
            assert(s@ =~= s0 + arg_pretty(self@, level));
        }
    }
}

fn write_lines_pretty<'a>(v: &Vec<Mexp<'a>>, pad: &String, Ghost(level): Ghost<nat>, s: &mut String)
    requires
        pad@ == indent_text(level),
    ensures
        final(s)@ == old(s)@ + lines_pretty(mexps_view(v@), level),
    decreases v, 0nat,
{
    let mut i: usize = 0;
    proof {
        assert(v@.take(0) =~= Seq::<Mexp<'a>>::empty());
        assert(old(s)@ + Seq::<char>::empty() =~= old(s)@);
    }
    while i < v.len()
        invariant
            i <= v@.len(),
            pad@ == indent_text(level),
            s@ == old(s)@ + lines_pretty(mexps_view(v@.take(i as int)), level),
        decreases v@.len() - i,
    {
        assert(decreases_to!(v => v@[i as int]));
        let ghost before = s@;
        if i > 0 {
            push_char(s, '\n');
        }
        push_str(s, pad.as_str());
        v[i].write_pretty(pad, Ghost(level), s);
        proof {
            let prev = mexps_view(v@.take(i as int));
            assert(v@.take(i + 1) =~= v@.take(i as int).push(v@[i as int]));
            lemma_mexps_view_push(v@.take(i as int), v@[i as int]);
            lemma_mexps_view_len(v@.take(i as int));
            let next = prev.push(mexp_view(v@[i as int]));
            assert(next.drop_last() =~= prev);
            if i == 0 {
                assert(next[0] == mexp_view(v@[i as int]));
            }
            assert(s@ =~= old(s)@ + lines_pretty(next, level));
        }
        i = i + 1;
    }
    proof {
        assert(v@.take(v@.len() as int) =~= v@);
    }
}

} // verus!
