use vstd::prelude::*;
use std::rc::Rc;
use crate::compiler::{Ast, ast_value, asts_value};
use crate::vm::{CodeOp, Position};

verus! {

/// A built-in procedure.
pub enum Prim {
    Print,
    Undefined,
    Cons,
    Car,
    Cdr,
    EqP,
    PairP,
    Not,
    NullP,
    List,
    Add,
    Sub,
    Mul,
    NumEq,
    Gt,
    Ge,
    Lt,
    Le,
}

/// An environment: frames from the innermost outwards. Each frame holds the
/// arguments of one call as a proper list.
pub enum Env {
    Empty,
    Frame(Rc<(Value, Env)>),
}

/// A run-time value. Cells are shared by reference and never mutated.
pub enum Value {
    Nil,
    Boolean(bool),
    Integer(i32),
    Symbol(String),
    Cell(Rc<(Value, Value)>),
    Primitive(Prim),
    Closure(Rc<Vec<CodeOp>>, Env),
    Macro(Rc<Vec<CodeOp>>, Env),
    Undefined,
}

/// The pair of `car` and `cdr`.
pub open spec fn cell(car: Value, cdr: Value) -> Value {
    Value::Cell(Rc::new((car, cdr)))
}

/// The list of `xs`, ending in `tail`.
pub open spec fn list_of(xs: Seq<Value>, tail: Value) -> Value
    decreases xs.len(),
{
    if xs.len() == 0 {
        tail
    } else {
        cell(xs[0], list_of(xs.subrange(1, xs.len() as int), tail))
    }
}

/// The elements of a proper list, or `None` where `v` is not one.
pub open spec fn list_elems(v: Value) -> Option<Seq<Value>>
    decreases v,
{
    match v {
        Value::Nil => Some(Seq::empty()),
        Value::Cell(c) => match list_elems(c.1) {
            Some(rest) => Some(seq![c.0].add(rest)),
            None => None,
        },
        _ => None,
    }
}

/// The text of one decimal digit.
pub open spec fn digit_text(d: nat) -> Seq<char> {
    if d == 0 { "0"@ } else if d == 1 { "1"@ } else if d == 2 { "2"@ } else if d == 3 { "3"@ }
    else if d == 4 { "4"@ } else if d == 5 { "5"@ } else if d == 6 { "6"@ } else if d == 7 { "7"@ }
    else if d == 8 { "8"@ } else { "9"@ }
}

/// The decimal digits of `n`, without leading zeros.
pub open spec fn nat_text(n: nat) -> Seq<char>
    decreases n,
{
    if n < 10 {
        digit_text(n)
    } else {
        nat_text(n / 10) + digit_text(n % 10)
    }
}

/// The decimal text of an integer, with `-` before a negative one.
pub open spec fn int_text(i: int) -> Seq<char> {
    if i < 0 { "-"@ + nat_text((-i) as nat) } else { nat_text(i as nat) }
}

/// The printed form of a value.
pub open spec fn text(v: Value) -> Seq<char>
    decreases v,
{
    match v {
        Value::Nil => "()"@,
        Value::Boolean(b) => if b { "#t"@ } else { "#f"@ },
        Value::Integer(i) => int_text(i as int),
        Value::Symbol(s) => s@,
        Value::Cell(c) => "("@ + cell_text(*c) + ")"@,
        Value::Primitive(_) => "#<subr>"@,
        Value::Closure(_, _) => "#<closure>"@,
        Value::Macro(_, _) => "#<macro>"@,
        Value::Undefined => "#<undefined>"@,
    }
}

/// The printed elements of a list that starts with the cell `c`, without the parentheses.
pub open spec fn cell_text(c: (Value, Value)) -> Seq<char>
    decreases c,
{
    text(c.0) + match c.1 {
        Value::Nil => Seq::empty(),
        Value::Cell(d) => " "@ + cell_text(*d),
        other => " . "@ + text(other),
    }
}

impl Value {
    /// A new pair.
    pub fn cons(car: Value, cdr: Value) -> (r: Value)
        ensures
            r == cell(car, cdr),
    {
        Value::Cell(Rc::new((car, cdr)))
    }

    /// The first part of a pair; `None` for anything else.
    pub fn car(&self) -> (r: Option<Value>)
        ensures
            r == (match *self {
                Value::Cell(c) => Some(c.0),
                _ => None,
            }),
    {
        match self {
            Value::Cell(c) => Some(c.0.dup()),
            _ => None,
        }
    }

    /// The second part of a pair; `None` for anything else.
    pub fn cdr(&self) -> (r: Option<Value>)
        ensures
            r == (match *self {
                Value::Cell(c) => Some(c.1),
                _ => None,
            }),
    {
        match self {
            Value::Cell(c) => Some(c.1.dup()),
            _ => None,
        }
    }

    /// A copy that shares the cells, code and environments of `self`.
    pub fn dup(&self) -> (r: Value)
        ensures
            r == *self,
    {
        match self {
            Value::Nil => Value::Nil,
            Value::Boolean(b) => Value::Boolean(*b),
            Value::Integer(i) => Value::Integer(*i),
            Value::Symbol(s) => Value::Symbol(s.clone()),
            Value::Cell(c) => Value::Cell(Rc::clone(c)),
            Value::Primitive(p) => Value::Primitive(p.dup()),
            Value::Closure(c, e) => Value::Closure(Rc::clone(c), e.dup()),
            Value::Macro(c, e) => Value::Macro(Rc::clone(c), e.dup()),
            Value::Undefined => Value::Undefined,
        }
    }
}

impl Prim {
    /// A copy.
    pub fn dup(&self) -> (r: Prim)
        ensures
            r == *self,
    {
        match self {
            Prim::Print => Prim::Print,
            Prim::Undefined => Prim::Undefined,
            Prim::Cons => Prim::Cons,
            Prim::Car => Prim::Car,
            Prim::Cdr => Prim::Cdr,
            Prim::EqP => Prim::EqP,
            Prim::PairP => Prim::PairP,
            Prim::Not => Prim::Not,
            Prim::NullP => Prim::NullP,
            Prim::List => Prim::List,
            Prim::Add => Prim::Add,
            Prim::Sub => Prim::Sub,
            Prim::Mul => Prim::Mul,
            Prim::NumEq => Prim::NumEq,
            Prim::Gt => Prim::Gt,
            Prim::Ge => Prim::Ge,
            Prim::Lt => Prim::Lt,
            Prim::Le => Prim::Le,
        }
    }
}

impl Env {
    /// A copy that shares the frames.
    pub fn dup(&self) -> (r: Env)
        ensures
            r == *self,
    {
        match self {
            Env::Empty => Env::Empty,
            Env::Frame(f) => Env::Frame(Rc::clone(f)),
        }
    }
}

/// The list of `former`, ending in `last`.
pub fn vec2cons(former: &[Value], last: Value) -> (r: Value)
    ensures
        r == list_of(former@, last),
{
    let mut acc = last;
    let mut i: usize = former.len();
    assert(former@.subrange(0, i as int) =~= former@);
    while i > 0
        invariant
            i <= former@.len(),
            list_of(former@, last) == list_of(former@.subrange(0, i as int), acc),
        decreases i,
    {
        proof {
            lemma_list_of_snoc(former@.subrange(0, i as int), acc);
            assert(former@.subrange(0, i as int).subrange(0, i - 1) =~= former@.subrange(0, i - 1));
        }
        acc = Value::cons(former[i - 1].dup(), acc);
        i = i - 1;
    }
    assert(former@.subrange(0, 0) =~= Seq::<Value>::empty());
    acc
}

/// Splitting off the last element of a list.
pub proof fn lemma_list_of_snoc(xs: Seq<Value>, tail: Value)
    requires
        xs.len() > 0,
    ensures
        list_of(xs, tail) == list_of(xs.subrange(0, xs.len() - 1), cell(xs[xs.len() - 1], tail)),
    decreases xs.len(),
{
    if xs.len() > 1 {
        let ys = xs.subrange(1, xs.len() as int);
        lemma_list_of_snoc(ys, tail);
        let zs = xs.subrange(0, xs.len() - 1);
        assert(ys.subrange(0, ys.len() - 1) =~= zs.subrange(1, zs.len() as int));
        assert(ys[ys.len() - 1] == xs[xs.len() - 1]);
        assert(zs[0] == xs[0]);
        let c = cell(xs[xs.len() - 1], tail);
        assert(list_of(xs, tail) == cell(xs[0], list_of(ys, tail)));
        assert(list_of(zs, c) == cell(zs[0], list_of(zs.subrange(1, zs.len() as int), c)));
    } else {
        assert(xs.subrange(0, 0) =~= Seq::<Value>::empty());
        assert(xs.subrange(1, 1) =~= Seq::<Value>::empty());
        assert(list_of(xs, tail) == cell(xs[0], list_of(xs.subrange(1, 1), tail)));
    }
}

/// Appends the decimal digit `d` to `out`.
fn write_digit(d: u64, out: &mut String)
    requires
        d < 10,
    ensures
        final(out)@ == old(out)@ + digit_text(d as nat),
{
    if d == 0 { out.append("0"); } else if d == 1 { out.append("1"); }
    else if d == 2 { out.append("2"); } else if d == 3 { out.append("3"); }
    else if d == 4 { out.append("4"); } else if d == 5 { out.append("5"); }
    else if d == 6 { out.append("6"); } else if d == 7 { out.append("7"); }
    else if d == 8 { out.append("8"); } else { out.append("9"); }
}

/// Appends the decimal digits of `n` to `out`.
fn write_nat(n: u64, out: &mut String)
    ensures
        final(out)@ == old(out)@ + nat_text(n as nat),
    decreases n,
{
    if n < 10 {
        write_digit(n, out);
    } else {
        write_nat(n / 10, out);
        write_digit(n % 10, out);
        assert(final(out)@ =~= old(out)@ + nat_text(n as nat));
    }
}

/// Appends the printed form of `v` to `out`.
pub fn write_value(v: &Value, out: &mut String)
    ensures
        final(out)@ == old(out)@ + text(*v),
    decreases v,
{
    match v {
        Value::Nil => out.append("()"),
        Value::Boolean(b) => if *b { out.append("#t") } else { out.append("#f") },
        Value::Integer(i) => {
            if *i < 0 {
                out.append("-");
                write_nat((0 - (*i as i64)) as u64, out);
            } else {
                write_nat(*i as u64, out);
            }
            assert(final(out)@ =~= old(out)@ + text(*v));
        },
        Value::Symbol(s) => out.append(s.as_str()),
        Value::Cell(c) => {
            out.append("(");
            write_cell(&**c, out);
            out.append(")");
            assert(final(out)@ =~= old(out)@ + text(*v));
        },
        Value::Primitive(_) => out.append("#<subr>"),
        Value::Closure(_, _) => out.append("#<closure>"),
        Value::Macro(_, _) => out.append("#<macro>"),
        Value::Undefined => out.append("#<undefined>"),
    }
}

/// Appends the printed elements of the list that starts with the cell `c`.
fn write_cell(c: &(Value, Value), out: &mut String)
    ensures
        final(out)@ == old(out)@ + cell_text(*c),
    decreases c,
{
    write_value(&c.0, out);
    match &c.1 {
        Value::Nil => {},
        Value::Cell(d) => {
            out.append(" ");
            write_cell(&**d, out);
        },
        other => {
            out.append(" . ");
            write_value(other, out);
        },
    }
    assert(final(out)@ =~= old(out)@ + cell_text(*c));
}

impl Value {
    /// The printed form of the value.
    pub fn to_text(&self) -> (r: String)
        ensures
            r@ == text(*self),
    {
        let mut out = String::new();
        write_value(self, &mut out);
        assert(out@ =~= text(*self));
        out
    }
}

/// Structural equality: symbols by name, cells by their contents, closures
/// and macros by their code and captured environment.
pub open spec fn same(a: Value, b: Value) -> bool
    decreases a,
{
    match (a, b) {
        (Value::Nil, Value::Nil) => true,
        (Value::Boolean(x), Value::Boolean(y)) => x == y,
        (Value::Integer(x), Value::Integer(y)) => x == y,
        (Value::Symbol(x), Value::Symbol(y)) => x@ == y@,
        (Value::Cell(x), Value::Cell(y)) => same(x.0, y.0) && same(x.1, y.1),
        (Value::Primitive(x), Value::Primitive(y)) => x == y,
        (Value::Closure(c, e), Value::Closure(d, f)) => same_code(c@, d@) && same_env(e, f),
        (Value::Macro(c, e), Value::Macro(d, f)) => same_code(c@, d@) && same_env(e, f),
        (Value::Undefined, Value::Undefined) => true,
        _ => false,
    }
}

/// Equal code: the same instructions, one for one.
pub open spec fn same_code(x: Seq<CodeOp>, y: Seq<CodeOp>) -> bool
    decreases x,
{
    x.len() == y.len() && forall|k: int| 0 <= k < x.len() ==> same_op(#[trigger] x[k], y[k])
}

pub open spec fn same_op(o: CodeOp, p: CodeOp) -> bool
    decreases o,
{
    match (o, p) {
        (CodeOp::Ld(i, a), CodeOp::Ld(j, b)) => i == j && a == b,
        (CodeOp::Ldc(a), CodeOp::Ldc(b)) => same_tree(a, b),
        (CodeOp::Ldg(n), CodeOp::Ldg(m)) => n@ == m@,
        (CodeOp::Ldf(c), CodeOp::Ldf(d)) => same_code(c@, d@),
        (CodeOp::App(n), CodeOp::App(m)) => n == m,
        (CodeOp::Rtn, CodeOp::Rtn) => true,
        (CodeOp::Sel(c, a), CodeOp::Sel(d, b)) => same_code(c@, d@) && same_code(a@, b@),
        (CodeOp::Join, CodeOp::Join) => true,
        (CodeOp::Def(n), CodeOp::Def(m)) => n@ == m@,
        (CodeOp::Defm(n), CodeOp::Defm(m)) => n@ == m@,
        (CodeOp::Pop, CodeOp::Pop) => true,
        _ => false,
    }
}

pub open spec fn same_env(e: Env, f: Env) -> bool
    decreases e,
{
    match (e, f) {
        (Env::Empty, Env::Empty) => true,
        (Env::Frame(x), Env::Frame(y)) => same(x.0, y.0) && same_env(x.1, y.1),
        _ => false,
    }
}

/// Decides `same`.
pub fn values_equal(a: &Value, b: &Value) -> (r: bool)
    ensures
        r == same(*a, *b),
    decreases a,
{
    match (a, b) {
        (Value::Nil, Value::Nil) => true,
        (Value::Boolean(x), Value::Boolean(y)) => *x == *y,
        (Value::Integer(x), Value::Integer(y)) => *x == *y,
        (Value::Symbol(x), Value::Symbol(y)) => *x == *y,
        (Value::Cell(x), Value::Cell(y)) => values_equal(&x.0, &y.0) && values_equal(&x.1, &y.1),
        (Value::Primitive(x), Value::Primitive(y)) => x.same_as(y),
        (Value::Closure(c, e), Value::Closure(d, f)) => code_equal(&**c, &**d) && envs_equal(e, f),
        (Value::Macro(c, e), Value::Macro(d, f)) => code_equal(&**c, &**d) && envs_equal(e, f),
        (Value::Undefined, Value::Undefined) => true,
        _ => false,
    }
}

/// Decides `same_code`.
fn code_equal(x: &Vec<CodeOp>, y: &Vec<CodeOp>) -> (r: bool)
    ensures
        r == same_code(x@, y@),
    decreases x,
{
    if x.len() != y.len() {
        return false;
    }
    let mut i: usize = 0;
    while i < x.len()
        invariant
            i <= x@.len(),
            x@.len() == y@.len(),
            forall|k: int| 0 <= k < i ==> same_op(#[trigger] x@[k], y@[k]),
        decreases x@.len() - i,
    {
        proof {
            vstd::std_specs::vec::axiom_vec_index_decreases(*x, i as int);
        }
        if !ops_equal(&x[i], &y[i]) {
            return false;
        }
        i = i + 1;
    }
    true
}

/// Decides `same_op`.
fn ops_equal(o: &CodeOp, p: &CodeOp) -> (r: bool)
    ensures
        r == same_op(*o, *p),
    decreases o,
{
    match (o, p) {
        (CodeOp::Ld(i, a), CodeOp::Ld(j, b)) => *i == *j && positions_equal(a, b),
        (CodeOp::Ldc(a), CodeOp::Ldc(b)) => trees_equal(a, b),
        (CodeOp::Ldg(n), CodeOp::Ldg(m)) => *n == *m,
        (CodeOp::Ldf(c), CodeOp::Ldf(d)) => code_equal(&**c, &**d),
        (CodeOp::App(n), CodeOp::App(m)) => *n == *m,
        (CodeOp::Rtn, CodeOp::Rtn) => true,
        (CodeOp::Sel(c, a), CodeOp::Sel(d, b)) => code_equal(&**c, &**d) && code_equal(&**a, &**b),
        (CodeOp::Join, CodeOp::Join) => true,
        (CodeOp::Def(n), CodeOp::Def(m)) => *n == *m,
        (CodeOp::Defm(n), CodeOp::Defm(m)) => *n == *m,
        (CodeOp::Pop, CodeOp::Pop) => true,
        _ => false,
    }
}

fn positions_equal(a: &Position, b: &Position) -> (r: bool)
    ensures
        r == (*a == *b),
{
    match (a, b) {
        (Position::Index(i), Position::Index(j)) => *i == *j,
        (Position::Rest(i), Position::Rest(j)) => *i == *j,
        _ => false,
    }
}

/// Decides `same_env`.
fn envs_equal(e: &Env, f: &Env) -> (r: bool)
    ensures
        r == same_env(*e, *f),
    decreases e,
{
    match (e, f) {
        (Env::Empty, Env::Empty) => true,
        (Env::Frame(x), Env::Frame(y)) => values_equal(&x.0, &y.0) && envs_equal(&x.1, &y.1),
        _ => false,
    }
}

/// Decides `same_tree`.
pub fn trees_equal(a: &Ast, b: &Ast) -> (r: bool)
    ensures
        r == same_tree(*a, *b),
    decreases a,
{
    match (a, b) {
        (Ast::Nil, Ast::Nil) => true,
        (Ast::Boolean(x), Ast::Boolean(y)) => *x == *y,
        (Ast::Integer(x), Ast::Integer(y)) => *x == *y,
        (Ast::Symbol(x), Ast::Symbol(y)) => *x == *y,
        (Ast::List(xs, l), Ast::List(ys, m)) => {
            if xs.len() != ys.len() {
                proof {
                    lemma_same_trees_len(xs@, ys@);
                }
                return false;
            }
            let mut i: usize = 0;
            while i < xs.len()
                invariant
                    i <= xs@.len(),
                    xs@.len() == ys@.len(),
                    *a == Ast::List(*xs, *l),
                    *b == Ast::List(*ys, *m),
                    forall|k: int| 0 <= k < i ==> same_tree(#[trigger] xs@[k], ys@[k]),
                decreases xs@.len() - i,
            {
                proof {
                    let ghost me = *a;
                    let ghost v: Vec<Ast> = *me->List_0;
                    vstd::std_specs::vec::axiom_vec_index_decreases(v, i as int);
                    assert(decreases_to!(me => me->List_0));
                }
                if !trees_equal(&xs[i], &ys[i]) {
                    proof {
                        lemma_same_trees_pointwise(xs@, ys@);
                    }
                    return false;
                }
                i = i + 1;
            }
            proof {
                lemma_same_trees_pointwise(xs@, ys@);
            }
            trees_equal(&**l, &**m)
        },
        (Ast::Undefined, Ast::Undefined) => true,
        _ => false,
    }
}

proof fn lemma_same_trees_len(xs: Seq<Ast>, ys: Seq<Ast>)
    ensures
        same_trees(xs, ys) ==> xs.len() == ys.len(),
    decreases xs.len(),
{
    if xs.len() > 0 && ys.len() > 0 {
        lemma_same_trees_len(xs.subrange(1, xs.len() as int), ys.subrange(1, ys.len() as int));
    }
}

/// `same_trees` compares one element with the element at the same place.
proof fn lemma_same_trees_pointwise(xs: Seq<Ast>, ys: Seq<Ast>)
    requires
        xs.len() == ys.len(),
    ensures
        same_trees(xs, ys) == forall|k: int| 0 <= k < xs.len() ==> same_tree(#[trigger] xs[k], ys[k]),
    decreases xs.len(),
{
    if xs.len() > 0 {
        let xr = xs.subrange(1, xs.len() as int);
        let yr = ys.subrange(1, ys.len() as int);
        lemma_same_trees_pointwise(xr, yr);
        if forall|k: int| 0 <= k < xs.len() ==> same_tree(#[trigger] xs[k], ys[k]) {
            assert forall|k: int| 0 <= k < xr.len() implies same_tree(#[trigger] xr[k], yr[k]) by {
                assert(xr[k] == xs[k + 1] && yr[k] == ys[k + 1]);
            }
        }
        if same_trees(xs, ys) {
            assert forall|k: int| 0 <= k < xs.len() implies same_tree(#[trigger] xs[k], ys[k]) by {
                if k > 0 {
                    assert(xr[k - 1] == xs[k] && yr[k - 1] == ys[k]);
                }
            }
        }
    }
}

impl Prim {
    /// Whether two primitives are the same one.
    pub fn same_as(&self, o: &Prim) -> (r: bool)
        ensures
            r == (*self == *o),
    {
        match (self, o) {
            (Prim::Print, Prim::Print) | (Prim::Undefined, Prim::Undefined) | (Prim::Cons, Prim::Cons)
            | (Prim::Car, Prim::Car) | (Prim::Cdr, Prim::Cdr) | (Prim::EqP, Prim::EqP)
            | (Prim::PairP, Prim::PairP) | (Prim::Not, Prim::Not) | (Prim::NullP, Prim::NullP)
            | (Prim::List, Prim::List) | (Prim::Add, Prim::Add) | (Prim::Sub, Prim::Sub)
            | (Prim::Mul, Prim::Mul) | (Prim::NumEq, Prim::NumEq) | (Prim::Gt, Prim::Gt)
            | (Prim::Ge, Prim::Ge) | (Prim::Lt, Prim::Lt) | (Prim::Le, Prim::Le) => true,
            _ => false,
        }
    }
}

/// A value whose printed text reads back as the same value: no procedure,
/// macro or `Undefined` inside it.
pub open spec fn printable(v: Value) -> bool
    decreases v,
{
    match v {
        Value::Nil | Value::Boolean(_) | Value::Integer(_) | Value::Symbol(_) => true,
        Value::Cell(c) => printable(c.0) && printable(c.1),
        _ => false,
    }
}

/// A list tail that the reader can give: `Nil` or an atom.
pub open spec fn atom_tail(a: Ast) -> bool {
    a is Nil || a is Boolean || a is Integer || a is Symbol
}

/// A tree as the reader gives it: `()` is the empty list, a list's tail is an
/// atom, and nothing is `Undefined`.
pub open spec fn canonical(a: Ast) -> bool
    decreases a,
{
    match a {
        Ast::Boolean(_) | Ast::Integer(_) | Ast::Symbol(_) => true,
        Ast::List(xs, last) => atom_tail(*last) && (xs@.len() > 0 || *last is Nil)
            && forall|k: int| 0 <= k < xs@.len() ==> canonical(#[trigger] xs@[k]),
        _ => false,
    }
}

impl Value {
    /// The syntax tree that reading the printed value gives, or `None` where
    /// the text does not read back (a procedure, a macro or `Undefined` in it).
    pub fn to_ast(&self) -> (r: Option<Ast>)
        ensures
            r is Some == printable(*self),
            r matches Some(a) ==> canonical(a) && ast_value(a) == *self,
        decreases self,
    {
        match self {
            Value::Nil => {
                let v: Vec<Ast> = Vec::new();
                let a = Ast::List(Rc::new(v), Box::new(Ast::Nil));
                assert(ast_value(Ast::Nil) == Value::Nil);
                assert(ast_value(a) == asts_value(v@, Value::Nil));
                Some(a)
            },
            Value::Boolean(b) => Some(Ast::Boolean(*b)),
            Value::Integer(i) => Some(Ast::Integer(*i)),
            Value::Symbol(s) => Some(Ast::Symbol(s.clone())),
            Value::Cell(c) => match cell_parts(&**c) {
                Some((xs, tail)) => {
                    let a = Ast::List(Rc::new(xs), Box::new(tail));
                    assert(ast_value(a) == asts_value(xs@, ast_value(tail)));
                    Some(a)
                },
                None => None,
            },
            _ => None,
        }
    }
}

/// The elements and the tail of the list that starts with the cell `c`.
fn cell_parts(c: &(Value, Value)) -> (r: Option<(Vec<Ast>, Ast)>)
    ensures
        r is Some == (printable(c.0) && printable(c.1)),
        r matches Some((xs, t)) ==> xs@.len() > 0 && atom_tail(t)
            && (forall|k: int| 0 <= k < xs@.len() ==> canonical(#[trigger] xs@[k]))
            && asts_value(xs@, ast_value(t)) == Value::Cell(Rc::new(*c)),
    decreases c,
{
    let first = match c.0.to_ast() {
        Some(a) => a,
        None => return None,
    };
    let (rest, tail): (Vec<Ast>, Ast) = match &c.1 {
        Value::Cell(d) => match cell_parts(&**d) {
            Some(p) => p,
            None => return None,
        },
        Value::Nil => {
            assert(asts_value(Seq::empty(), ast_value(Ast::Nil)) == c.1);
            (Vec::new(), Ast::Nil)
        },
        Value::Boolean(b) => (Vec::new(), Ast::Boolean(*b)),
        Value::Integer(i) => (Vec::new(), Ast::Integer(*i)),
        Value::Symbol(s) => (Vec::new(), Ast::Symbol(s.clone())),
        _ => return None,
    };
    let mut xs: Vec<Ast> = Vec::new();
    xs.push(first);
    let mut i: usize = 0;
    while i < rest.len()
        invariant
            i <= rest@.len(),
            xs@ =~= seq![first].add(rest@.subrange(0, i as int)),
        decreases rest@.len() - i,
    {
        let a = rest[i].dup();
        xs.push(a);
        i = i + 1;
    }
    proof {
        assert(xs@ =~= seq![first].add(rest@));
        assert(xs@.subrange(1, xs@.len() as int) =~= rest@);
        assert(asts_value(rest@, ast_value(tail)) == c.1);
        assert(asts_value(xs@, ast_value(tail)) == cell(ast_value(first), asts_value(rest@, ast_value(tail))));
    }
    Some((xs, tail))
}

/// Two trees are the same: symbols by name, lists element by element.
pub open spec fn same_tree(a: Ast, b: Ast) -> bool
    decreases a,
{
    match (a, b) {
        (Ast::Nil, Ast::Nil) => true,
        (Ast::Boolean(x), Ast::Boolean(y)) => x == y,
        (Ast::Integer(x), Ast::Integer(y)) => x == y,
        (Ast::Symbol(x), Ast::Symbol(y)) => x@ == y@,
        (Ast::List(xs, l), Ast::List(ys, m)) => same_trees(xs@, ys@) && same_tree(*l, *m),
        (Ast::Undefined, Ast::Undefined) => true,
        _ => false,
    }
}

pub open spec fn same_trees(xs: Seq<Ast>, ys: Seq<Ast>) -> bool
    decreases xs,
{
    if xs.len() == 0 {
        ys.len() == 0
    } else {
        ys.len() > 0 && same_tree(xs[0], ys[0])
            && same_trees(xs.subrange(1, xs.len() as int), ys.subrange(1, ys.len() as int))
    }
}

/// The value of a tree as the reader gives it prints and reads back.
pub proof fn lemma_canonical_printable(t: Ast)
    requires
        canonical(t),
    ensures
        printable(ast_value(t)),
    decreases t,
{
    if let Ast::List(xs, l) = t {
        lemma_canonical_list_printable(xs@, *l);
    }
}

proof fn lemma_canonical_list_printable(xs: Seq<Ast>, l: Ast)
    requires
        atom_tail(l),
        forall|k: int| 0 <= k < xs.len() ==> canonical(#[trigger] xs[k]),
    ensures
        printable(asts_value(xs, ast_value(l))),
    decreases xs,
{
    if xs.len() > 0 {
        lemma_canonical_printable(xs[0]);
        let rest = xs.subrange(1, xs.len() as int);
        assert forall|k: int| 0 <= k < rest.len() implies canonical(#[trigger] rest[k]) by {
            assert(rest[k] == xs[k + 1]);
        }
        lemma_canonical_list_printable(rest, l);
    }
}

/// Round trip: two trees as the reader gives them that have the same value
/// are the same tree. So printing the value of such a tree and reading the
/// text back (`to_ast`) yields that tree.
pub proof fn lemma_tree_round_trip(t: Ast, a: Ast)
    requires
        canonical(t),
        canonical(a),
        ast_value(a) == ast_value(t),
    ensures
        same_tree(a, t),
    decreases t,
{
    match (t, a) {
        (Ast::List(xs, l), Ast::List(ys, m)) => {
            lemma_list_round_trip(xs@, *l, ys@, *m);
        },
        (Ast::List(xs, l), _) => {
            assert(xs@.len() == 0 ==> ast_value(*l) == Value::Nil);
            assert(xs@.len() > 0 ==> asts_value(xs@, ast_value(*l)) is Cell);
        },
        (_, Ast::List(ys, m)) => {
            assert(ys@.len() == 0 ==> ast_value(*m) == Value::Nil);
            assert(ys@.len() > 0 ==> asts_value(ys@, ast_value(*m)) is Cell);
        },
        _ => {},
    }
}

proof fn lemma_list_round_trip(xs: Seq<Ast>, l: Ast, ys: Seq<Ast>, m: Ast)
    requires
        atom_tail(l),
        atom_tail(m),
        forall|k: int| 0 <= k < xs.len() ==> canonical(#[trigger] xs[k]),
        forall|k: int| 0 <= k < ys.len() ==> canonical(#[trigger] ys[k]),
        asts_value(ys, ast_value(m)) == asts_value(xs, ast_value(l)),
    ensures
        same_trees(ys, xs),
        same_tree(m, l),
    decreases xs,
{
    if xs.len() > 0 && ys.len() > 0 {
        lemma_tree_round_trip(xs[0], ys[0]);
        let xr = xs.subrange(1, xs.len() as int);
        let yr = ys.subrange(1, ys.len() as int);
        assert forall|k: int| 0 <= k < xr.len() implies canonical(#[trigger] xr[k]) by {
            assert(xr[k] == xs[k + 1]);
        }
        assert forall|k: int| 0 <= k < yr.len() implies canonical(#[trigger] yr[k]) by {
            assert(yr[k] == ys[k + 1]);
        }
        lemma_list_round_trip(xr, l, yr, m);
    } else if xs.len() > 0 {
        assert(ast_value(m) is Nil || ast_value(m) is Boolean || ast_value(m) is Integer || ast_value(m) is Symbol);
    } else if ys.len() > 0 {
        assert(ast_value(l) is Nil || ast_value(l) is Boolean || ast_value(l) is Integer || ast_value(l) is Symbol);
    } else {
        assert(same_trees(ys, xs));
    }
}

/// `eq?` holds of every value and itself.
pub proof fn lemma_same_refl(a: Value)
    ensures
        same(a, a),
    decreases a,
{
    match a {
        Value::Cell(c) => {
            let ghost pair: (Value, Value) = *c;
            lemma_same_refl(pair.0);
            lemma_same_refl(pair.1);
        },
        Value::Closure(c, e) => {
            lemma_same_code_refl(c@);
            lemma_same_env_refl(e);
        },
        Value::Macro(c, e) => {
            lemma_same_code_refl(c@);
            lemma_same_env_refl(e);
        },
        _ => {},
    }
}

proof fn lemma_same_code_refl(x: Seq<CodeOp>)
    ensures
        same_code(x, x),
    decreases x,
{
    assert forall|k: int| 0 <= k < x.len() implies same_op(#[trigger] x[k], x[k]) by {
        lemma_same_op_refl(x[k]);
    }
}

proof fn lemma_same_op_refl(o: CodeOp)
    ensures
        same_op(o, o),
    decreases o,
{
    match o {
        CodeOp::Ldc(a) => lemma_same_tree_refl(a),
        CodeOp::Ldf(c) => lemma_same_code_refl(c@),
        CodeOp::Sel(c, a) => {
            lemma_same_code_refl(c@);
            lemma_same_code_refl(a@);
        },
        _ => {},
    }
}

proof fn lemma_same_env_refl(e: Env)
    ensures
        same_env(e, e),
    decreases e,
{
    match e {
        Env::Frame(f) => {
            let ghost pair: (Value, Env) = *f;
            lemma_same_refl(pair.0);
            lemma_same_env_refl(pair.1);
        },
        _ => {},
    }
}

proof fn lemma_same_tree_refl(t: Ast)
    ensures
        same_tree(t, t),
    decreases t,
{
    match t {
        Ast::List(xs, l) => {
            assert forall|k: int| 0 <= k < xs@.len() implies same_tree(#[trigger] xs@[k], xs@[k]) by {
                lemma_same_tree_refl(xs@[k]);
            }
            lemma_same_trees_pointwise(xs@, xs@);
            lemma_same_tree_refl(*l);
        },
        _ => {},
    }
}

} // verus!
