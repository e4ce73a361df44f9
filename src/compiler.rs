use vstd::prelude::*;
use std::rc::Rc;
use crate::value::{Value, vec2cons, list_of};
use crate::vm::{CodeOp, Global, Machine, Position, State, STEP_LIMIT, lines, lookup, run_from, start, var_at};
use crate::value::{Env, atom_tail, canonical, printable};

verus! {

/// A syntax tree, as the reader produces it and the compiler consumes it.
/// `List(xs, tail)` is the list of `xs` ending in `tail`: `Nil` for a proper list.
pub enum Ast {
    Nil,
    Boolean(bool),
    Integer(i32),
    Symbol(String),
    List(Rc<Vec<Ast>>, Box<Ast>),
    Undefined,
}

/// The value that a syntax tree denotes.
pub open spec fn ast_value(a: Ast) -> Value
    decreases a,
{
    match a {
        Ast::Nil => Value::Nil,
        Ast::Boolean(b) => Value::Boolean(b),
        Ast::Integer(i) => Value::Integer(i),
        Ast::Symbol(s) => Value::Symbol(s),
        Ast::List(xs, last) => asts_value(xs@, ast_value(*last)),
        Ast::Undefined => Value::Undefined,
    }
}

/// The chain of cells holding the values of `xs`, ending in `tail`.
pub open spec fn asts_value(xs: Seq<Ast>, tail: Value) -> Value
    decreases xs,
{
    if xs.len() == 0 {
        tail
    } else {
        Value::Cell(Rc::new((ast_value(xs[0]), asts_value(xs.subrange(1, xs.len() as int), tail))))
    }
}

/// The chain of cells over values is the same as the one over their trees.
pub proof fn lemma_asts_value(xs: Seq<Ast>, vals: Seq<Value>, tail: Value)
    requires
        vals.len() == xs.len(),
        forall|k: int| 0 <= k < xs.len() ==> #[trigger] vals[k] == ast_value(xs[k]),
    ensures
        asts_value(xs, tail) == list_of(vals, tail),
    decreases xs.len(),
{
    if xs.len() > 0 {
        lemma_asts_value(xs.subrange(1, xs.len() as int), vals.subrange(1, vals.len() as int), tail);
    }
}

impl Ast {
    /// The value the tree denotes: a list becomes a chain of cells.
    pub fn to_value(&self) -> (r: Value)
        ensures
            r == ast_value(*self),
        decreases self,
    {
        match self {
            Ast::Nil => Value::Nil,
            Ast::Boolean(b) => Value::Boolean(*b),
            Ast::Integer(i) => Value::Integer(*i),
            Ast::Symbol(s) => Value::Symbol(s.clone()),
            Ast::List(xs, last) => {
                let mut vals: Vec<Value> = Vec::new();
                let mut i: usize = 0;
                while i < xs.len()
                    invariant
                        i <= xs@.len(),
                        *self == Ast::List(*xs, *last),
                        vals@.len() == i,
                        forall|k: int| 0 <= k < i ==> #[trigger] vals@[k] == ast_value(xs@[k]),
                    decreases xs@.len() - i,
                {
                    proof {
                        let ghost me = *self;
                        let ghost v: Vec<Ast> = *me->List_0;
                        vstd::std_specs::vec::axiom_vec_index_decreases(v, i as int);
                        assert(decreases_to!(me => me->List_0));
                    }
                    vals.push(xs[i].to_value());
                    i = i + 1;
                }
                let tail = last.to_value();
                proof {
                    lemma_asts_value(xs@, vals@, tail);
                }
                vec2cons(vals.as_slice(), tail)
            },
            Ast::Undefined => Value::Undefined,
        }
    }
}

/// A syntax tree as a mathematical value: lists as sequences.
pub enum Term {
    Nil,
    Boolean(bool),
    Integer(i32),
    Symbol(String),
    List(Seq<Term>, Box<Term>),
    Undefined,
}

/// The term of a tree.
pub open spec fn term_of(a: Ast) -> Term
    decreases a,
{
    match a {
        Ast::Nil => Term::Nil,
        Ast::Boolean(b) => Term::Boolean(b),
        Ast::Integer(i) => Term::Integer(i),
        Ast::Symbol(s) => Term::Symbol(s),
        Ast::List(xs, last) => Term::List(terms_of(xs@), Box::new(term_of(*last))),
        Ast::Undefined => Term::Undefined,
    }
}

/// The terms of a sequence of trees.
pub open spec fn terms_of(xs: Seq<Ast>) -> Seq<Term>
    decreases xs,
{
    if xs.len() == 0 {
        Seq::empty()
    } else {
        terms_of(xs.subrange(0, xs.len() - 1)).push(term_of(xs[xs.len() - 1]))
    }
}

/// The terms of a sequence of trees: one for one.
pub proof fn lemma_terms_of(xs: Seq<Ast>)
    ensures
        terms_of(xs).len() == xs.len(),
        forall|k: int| 0 <= k < xs.len() ==> #[trigger] terms_of(xs)[k] == term_of(xs[k]),
    decreases xs.len(),
{
    if xs.len() > 0 {
        lemma_terms_of(xs.subrange(0, xs.len() - 1));
    }
}

pub proof fn lemma_terms_of_subrange(xs: Seq<Ast>, a: int, b: int)
    requires
        0 <= a <= b <= xs.len(),
    ensures
        terms_of(xs.subrange(a, b)) == terms_of(xs).subrange(a, b),
{
    lemma_terms_of(xs);
    lemma_terms_of(xs.subrange(a, b));
    assert(terms_of(xs.subrange(a, b)) =~= terms_of(xs).subrange(a, b));
}

/// The value a term denotes.
pub open spec fn term_value(t: Term) -> Value
    decreases t,
{
    match t {
        Term::Nil => Value::Nil,
        Term::Boolean(b) => Value::Boolean(b),
        Term::Integer(i) => Value::Integer(i),
        Term::Symbol(s) => Value::Symbol(s),
        Term::List(xs, last) => terms_value(xs, term_value(*last)),
        Term::Undefined => Value::Undefined,
    }
}

/// The chain of cells holding the values of `xs`, ending in `tail`.
pub open spec fn terms_value(xs: Seq<Term>, tail: Value) -> Value
    decreases xs,
{
    if xs.len() == 0 {
        tail
    } else {
        Value::Cell(Rc::new((term_value(xs[0]), terms_value(xs.subrange(1, xs.len() as int), tail))))
    }
}

/// The value of a tree is the value of its term.
pub proof fn lemma_term_value(a: Ast)
    ensures
        term_value(term_of(a)) == ast_value(a),
    decreases a,
{
    if let Ast::List(xs, l) = a {
        lemma_term_value(*l);
        lemma_terms_value(xs@, ast_value(*l));
    }
}

proof fn lemma_terms_value(xs: Seq<Ast>, tail: Value)
    ensures
        terms_value(terms_of(xs), tail) == asts_value(xs, tail),
    decreases xs,
{
    lemma_terms_of(xs);
    if xs.len() > 0 {
        let rest = xs.subrange(1, xs.len() as int);
        lemma_term_value(xs[0]);
        lemma_terms_value(rest, tail);
        lemma_terms_of_subrange(xs, 1, xs.len() as int);
    }
}

/// The term that reading back a printed value gives.
pub open spec fn value_term(v: Value) -> Term
    decreases v,
{
    match v {
        Value::Nil => Term::List(Seq::empty(), Box::new(Term::Nil)),
        Value::Boolean(b) => Term::Boolean(b),
        Value::Integer(i) => Term::Integer(i),
        Value::Symbol(s) => Term::Symbol(s),
        Value::Cell(c) => Term::List(cell_terms(*c), Box::new(cell_tail(*c))),
        _ => Term::Undefined,
    }
}

/// The terms of the elements of the list that starts with the cell `c`.
pub open spec fn cell_terms(c: (Value, Value)) -> Seq<Term>
    decreases c,
{
    seq![value_term(c.0)] + match c.1 {
        Value::Cell(d) => cell_terms(*d),
        _ => Seq::empty(),
    }
}

/// The term of the tail of the list that starts with the cell `c`.
pub open spec fn cell_tail(c: (Value, Value)) -> Term
    decreases c,
{
    match c.1 {
        Value::Cell(d) => cell_tail(*d),
        Value::Nil => Term::Nil,
        other => value_term(other),
    }
}

/// A tree as the reader gives it is the term of its value.
pub proof fn lemma_value_term(a: Ast)
    requires
        canonical(a),
    ensures
        term_of(a) == value_term(ast_value(a)),
    decreases a,
{
    if let Ast::List(xs, l) = a {
        lemma_terms_of(xs@);
        assert(ast_value(a) == asts_value(xs@, ast_value(*l)));
        if xs@.len() == 0 {
            assert(terms_of(xs@) =~= Seq::<Term>::empty());
            assert(term_of(*l) == Term::Nil && ast_value(*l) == Value::Nil);
        } else {
            lemma_list_value_term(xs@, *l);
        }
    }
}

proof fn lemma_list_value_term(xs: Seq<Ast>, l: Ast)
    requires
        xs.len() > 0,
        atom_tail(l),
        forall|k: int| 0 <= k < xs.len() ==> canonical(#[trigger] xs[k]),
    ensures
        asts_value(xs, ast_value(l)) is Cell,
        cell_terms(*asts_value(xs, ast_value(l))->Cell_0) == terms_of(xs),
        cell_tail(*asts_value(xs, ast_value(l))->Cell_0) == term_of(l),
    decreases xs,
{
    let rest = xs.subrange(1, xs.len() as int);
    lemma_value_term(xs[0]);
    lemma_terms_of(xs);
    lemma_terms_of(rest);
    if rest.len() > 0 {
        assert forall|k: int| 0 <= k < rest.len() implies canonical(#[trigger] rest[k]) by {
            assert(rest[k] == xs[k + 1]);
        }
        lemma_list_value_term(rest, l);
        assert(seq![term_of(xs[0])] + terms_of(rest) =~= terms_of(xs));
    } else {
        assert(seq![term_of(xs[0])] + Seq::<Term>::empty() =~= terms_of(xs));
        assert(asts_value(rest, ast_value(l)) == ast_value(l));
        assert(l is Nil ==> term_of(l) == Term::Nil && ast_value(l) == Value::Nil);
        assert(!(l is Nil) ==> value_term(ast_value(l)) == term_of(l));
    }
}

/// An instruction as a mathematical value: nested code as sequences.
pub enum Op {
    Ld(nat, Position),
    Ldc(Term),
    Ldg(Seq<char>),
    Ldf(Seq<Op>),
    App(nat),
    Rtn,
    Sel(Seq<Op>, Seq<Op>),
    Join,
    Def(Seq<char>),
    Defm(Seq<char>),
    Pop,
}

/// An instruction as a mathematical value.
pub open spec fn op_view(o: CodeOp) -> Op
    decreases o,
{
    match o {
        CodeOp::Ld(i, p) => Op::Ld(i as nat, p),
        CodeOp::Ldc(a) => Op::Ldc(term_of(a)),
        CodeOp::Ldg(n) => Op::Ldg(n@),
        CodeOp::Ldf(c) => Op::Ldf(ops_view(c@)),
        CodeOp::App(n) => Op::App(n as nat),
        CodeOp::Rtn => Op::Rtn,
        CodeOp::Sel(c, a) => Op::Sel(ops_view(c@), ops_view(a@)),
        CodeOp::Join => Op::Join,
        CodeOp::Def(n) => Op::Def(n@),
        CodeOp::Defm(n) => Op::Defm(n@),
        CodeOp::Pop => Op::Pop,
    }
}

/// A code sequence as a mathematical value.
pub open spec fn ops_view(s: Seq<CodeOp>) -> Seq<Op>
    decreases s,
{
    if s.len() == 0 {
        Seq::empty()
    } else {
        ops_view(s.subrange(0, s.len() - 1)).push(op_view(s[s.len() - 1]))
    }
}

pub proof fn lemma_ops_view_push(s: Seq<CodeOp>, o: CodeOp)
    ensures
        ops_view(s.push(o)) == ops_view(s).push(op_view(o)),
{
    assert(s.push(o).subrange(0, s.len() as int) =~= s);
}

pub proof fn lemma_ops_view_concat(a: Seq<CodeOp>, b: Seq<CodeOp>)
    ensures
        ops_view(a + b) == ops_view(a) + ops_view(b),
    decreases b.len(),
{
    if b.len() == 0 {
        assert(a + b =~= a);
        assert(ops_view(a) + ops_view(b) =~= ops_view(a));
    } else {
        let b0 = b.subrange(0, b.len() - 1);
        lemma_ops_view_concat(a, b0);
        assert((a + b).subrange(0, (a + b).len() - 1) =~= a + b0);
        assert(ops_view(a) + ops_view(b) =~= (ops_view(a) + ops_view(b0)).push(op_view(b[b.len() - 1])));
    }
}

/// What compiling a form appends: its instructions, or an error. (`None`
/// stands for no outcome; the contracts show that compilation never gives it.)
pub type Emitted = Option<Result<Seq<Op>, Seq<char>>>;

pub open spec fn ok(c: Seq<Op>) -> Emitted {
    Some(Ok(c))
}

pub open spec fn fail(m: Seq<char>) -> Emitted {
    Some(Err(m))
}

/// `a`'s instructions, then `b`'s.
pub open spec fn then(a: Emitted, b: Emitted) -> Emitted {
    match a {
        Some(Ok(x)) => match b {
            Some(Ok(y)) => Some(Ok(x + y)),
            other => other,
        },
        other => other,
    }
}

/// A parameter list as its named slots and its rest tail: `(a b . r)` is
/// `([a, b], r)`; a bare symbol `r` is `([], r)`.
pub open spec fn frame_model(a: Term) -> (Seq<Term>, Term) {
    match a {
        Term::List(xs, last) => (xs, *last),
        other => (Seq::empty(), other),
    }
}

pub open spec fn is_sym(a: Term, name: Seq<char>) -> bool {
    match a {
        Term::Symbol(s) => s@ == name,
        _ => false,
    }
}

/// The first slot of `xs` that names `name`.
pub open spec fn index_of(xs: Seq<Term>, name: Seq<char>) -> Option<nat> {
    if exists|k: int| 0 <= k < xs.len() && is_sym(#[trigger] xs[k], name) {
        Some((choose|k: int| 0 <= k < xs.len() && is_sym(#[trigger] xs[k], name)
            && forall|m: int| 0 <= m < k ==> !is_sym(#[trigger] xs[m], name)) as nat)
    } else {
        None
    }
}

/// Where `name` stands in one parameter list.
pub open spec fn position_in(name: Seq<char>, frame: (Seq<Term>, Term)) -> Option<Position> {
    match index_of(frame.0, name) {
        Some(j) => Some(Position::Index(j as usize)),
        None => if is_sym(frame.1, name) { Some(Position::Rest(frame.0.len() as usize)) } else { None },
    }
}

/// The lexical address of `name`: the innermost frame that binds it, counted
/// outwards from the innermost frame (the last of `frames`).
pub open spec fn locate(name: Seq<char>, frames: Seq<(Seq<Term>, Term)>) -> Option<(nat, Position)>
    decreases frames.len(),
{
    if frames.len() == 0 {
        None
    } else {
        match position_in(name, frames.last()) {
            Some(p) => Some((0, p)),
            None => match locate(name, frames.drop_last()) {
                Some((i, p)) => Some((i + 1, p)),
                None => None,
            },
        }
    }
}

/// The global bound to `name` is a macro.
pub open spec fn names_macro(a: Term, g: Seq<(String, Value)>) -> bool {
    match a {
        Term::Symbol(name) => lookup(g, name@) is Some && lookup(g, name@)->0 is Macro,
        _ => false,
    }
}

pub open spec fn head_is(form: Seq<Term>, word: Seq<char>) -> bool {
    form.len() > 0 && is_sym(form[0], word)
}

/// The instructions that compiling `a` appends, in reverse order of execution.
pub open spec fn emit(a: Term, frames: Seq<(Seq<Term>, Term)>, g: Seq<(String, Value)>, depth: nat) -> Emitted
    decreases depth, a, 9nat,
{
    match a {
        Term::Symbol(name) => ok(match locate(name@, frames) {
            Some((i, p)) => seq![Op::Ld(i, p)],
            None => seq![Op::Ldg(name@)],
        }),
        Term::List(xs, last) => if !(*last is Nil) {
            fail("proper list required"@)
        } else {
            emit_form(xs, frames, g, depth)
        },
        _ => ok(seq![Op::Ldc(a)]),
    }
}

/// The instructions of a proper list `form`. A call whose head names a macro
/// runs the macro on the unevaluated argument forms and, where its result
/// prints and reads back, compiles the tree read back, `depth` bounding how
/// deep expansions nest.
pub open spec fn emit_form(form: Seq<Term>, frames: Seq<(Seq<Term>, Term)>, g: Seq<(String, Value)>, depth: nat) -> Emitted
    decreases depth, form, 8nat,
{
    let n = form.len();
    if n == 0 {
        fail("malformed application"@)
    } else if names_macro(form[0], g) {
        if depth == 0 {
            fail("macro expansion too deep"@)
        } else {
            match lookup(g, form[0]->Symbol_0@) {
                Some(Value::Macro(mc, _)) => match run_from(expansion_start(mc@, form, g), STEP_LIMIT as nat).0 {
                    Err(e) => fail(e),
                    Ok(v) => if printable(v) {
                        emit(value_term(v), frames, g, (depth - 1) as nat)
                    } else {
                        fail("unprintable macro expansion"@)
                    },
                },
                _ => None,
            }
        }
    } else if head_is(form, "quote"@) {
        if n != 2 { fail("malformed quote"@) } else { ok(seq![Op::Ldc(form[1])]) }
    } else if head_is(form, "define"@) {
        if n < 3 { fail("malformed define"@) } else { emit_define(form[1], form.subrange(2, n as int), false, frames, g, depth) }
    } else if head_is(form, "define-macro"@) {
        if n < 3 { fail("malformed define-macro"@) } else { emit_define(form[1], form.subrange(2, n as int), true, frames, g, depth) }
    } else if head_is(form, "lambda"@) {
        if n < 2 { fail("malformed lambda"@) } else { emit_lambda(frame_model(form[1]), form.subrange(2, n as int), frames, g, depth) }
    } else if head_is(form, "if"@) {
        if n < 3 || n > 4 {
            fail("malformed if"@)
        } else {
            let c = emit(form[2], frames, g, depth);
            let alt = if n == 4 { emit(form[3], frames, g, depth) } else { ok(seq![Op::Ldc(Term::Undefined)]) };
            match (c, alt) {
                (Some(Ok(cc)), Some(Ok(ac))) =>
                    then(ok(seq![Op::Sel(seq![Op::Join] + cc, seq![Op::Join] + ac)]), emit(form[1], frames, g, depth)),
                (Some(Ok(_)), other) => other,
                (other, _) => other,
            }
        }
    } else if head_is(form, "begin"@) {
        if n < 2 { ok(seq![Op::Ldc(Term::Integer(0))]) } else { emit_body(form.subrange(1, n as int), frames, g, depth) }
    } else {
        emit_apply(form, frames, g, depth)
    }
}

/// A call: `App`, the callee, then the arguments from the last to the first.
pub open spec fn emit_apply(form: Seq<Term>, frames: Seq<(Seq<Term>, Term)>, g: Seq<(String, Value)>, depth: nat) -> Emitted
    decreases depth, form, 7nat,
{
    if form.len() == 0 {
        fail("malformed application"@)
    } else {
        then(then(ok(seq![Op::App((form.len() - 1) as nat)]), emit(form[0], frames, g, depth)),
            emit_args(form.subrange(1, form.len() as int), frames, g, depth))
    }
}

/// The arguments from the last to the first.
pub open spec fn emit_args(args: Seq<Term>, frames: Seq<(Seq<Term>, Term)>, g: Seq<(String, Value)>, depth: nat) -> Emitted
    decreases depth, args, 6nat,
{
    if args.len() == 0 {
        ok(Seq::empty())
    } else {
        then(emit(args[args.len() - 1], frames, g, depth), emit_args(args.subrange(0, args.len() - 1), frames, g, depth))
    }
}

/// `define` or `define-macro` with the head `head` and the rest `tail`.
pub open spec fn emit_define(head: Term, tail: Seq<Term>, is_macro: bool, frames: Seq<(Seq<Term>, Term)>, g: Seq<(String, Value)>, depth: nat) -> Emitted
    decreases depth, tail, 5nat,
{
    let msg = if is_macro { "malformed define-macro"@ } else { "malformed define"@ };
    match head {
        Term::Symbol(name) => if tail.len() != 1 {
            fail(msg)
        } else {
            then(ok(seq![if is_macro { Op::Defm(name@) } else { Op::Def(name@) }]), emit(tail[0], frames, g, depth))
        },
        Term::List(former, last) => if former.len() > 0 && former[0] is Symbol {
            let name = former[0]->Symbol_0;
            then(ok(seq![if is_macro { Op::Defm(name@) } else { Op::Def(name@) }]),
                emit_lambda((former.subrange(1, former.len() as int), *last), tail, frames, g, depth))
        } else {
            fail(msg)
        },
        _ => fail(msg),
    }
}

/// A closure over `body` with the parameters `params`.
pub open spec fn emit_lambda(params: (Seq<Term>, Term), body: Seq<Term>, frames: Seq<(Seq<Term>, Term)>, g: Seq<(String, Value)>, depth: nat) -> Emitted
    decreases depth, body, 4nat,
{
    match emit_body(body, frames.push(params), g, depth) {
        Some(Ok(c)) => ok(seq![Op::Ldf(seq![Op::Rtn] + c)]),
        other => other,
    }
}

/// A body: each form from the last to the first, with a `Pop` between two;
/// an empty body loads `0`.
pub open spec fn emit_body(body: Seq<Term>, frames: Seq<(Seq<Term>, Term)>, g: Seq<(String, Value)>, depth: nat) -> Emitted
    decreases depth, body, 3nat,
{
    let n = body.len();
    if n == 0 {
        ok(seq![Op::Ldc(Term::Integer(0))])
    } else if n == 1 {
        emit(body[0], frames, g, depth)
    } else {
        then(then(emit(body[n - 1], frames, g, depth), ok(seq![Op::Pop])), emit_body(body.subrange(0, n - 1), frames, g, depth))
    }
}

impl Ast {
    /// A copy of the tree.
    pub fn dup(&self) -> (r: Ast)
        ensures
            r == *self,
        decreases self,
    {
        match self {
            Ast::Nil => Ast::Nil,
            Ast::Boolean(b) => Ast::Boolean(*b),
            Ast::Integer(i) => Ast::Integer(*i),
            Ast::Symbol(s) => Ast::Symbol(s.clone()),
            Ast::List(xs, last) => Ast::List(Rc::clone(xs), Box::new(last.dup())),
            Ast::Undefined => Ast::Undefined,
        }
    }
}

/// The parameter lists of the enclosing lambdas, the innermost last.
pub open spec fn frames_of(env: Seq<Ast>) -> Seq<(Seq<Term>, Term)> {
    env.map_values(|a: Ast| frame_model(term_of(a)))
}

/// A compilation step kept its promise: on `Some(Ok(c))` it appended the
/// instructions `c`; on `Some(Err(m))` it failed with `m`. Compilation always
/// comes to one of these.
pub open spec fn appended(e: Emitted, r: Result<(), String>, before: Seq<CodeOp>, after: Seq<CodeOp>) -> bool {
    match e {
        Some(Ok(c)) => r is Ok && ops_view(after) == ops_view(before) + c,
        Some(Err(m)) => r is Err && r->Err_0@ == m,
        None => false,
    }
}

pub proof fn lemma_then(e1: Emitted, e2: Emitted, r2: Result<(), String>, c0: Seq<CodeOp>, c1: Seq<CodeOp>, c2: Seq<CodeOp>)
    requires
        appended(e1, Ok(()), c0, c1),
        appended(e2, r2, c1, c2),
    ensures
        appended(then(e1, e2), r2, c0, c2),
{
    if let Some(Ok(x)) = e1 {
        if let Some(Ok(y)) = e2 {
            assert(ops_view(c0) + (x + y) =~= ops_view(c0) + x + y);
        }
    }
}

pub proof fn lemma_then_err(e1: Emitted, e2: Emitted, m: String, c0: Seq<CodeOp>, c1: Seq<CodeOp>)
    requires
        appended(e1, Err(m), c0, c1),
    ensures
        appended(then(e1, e2), Err(m), c0, c1),
{
}

/// The instruction that loads `name`, and where it stands.
fn location(name: &String, env: &Vec<Ast>) -> (r: Option<(usize, Position)>)
    ensures
        match locate(name@, frames_of(env@)) {
            Some((i, p)) => r == Some((i as usize, p)),
            None => r is None,
        },
{
    let ghost fr = frames_of(env@);
    let n = env.len();
    let mut i: usize = 0;
    assert(fr.subrange(0, n as int) =~= fr);
    proof {
        lemma_locate_bound(name@, fr);
    }
    while i < n
        invariant
            n == env@.len(),
            fr == frames_of(env@),
            i <= n,
            locate(name@, fr) == match locate(name@, fr.subrange(0, n - i)) {
                Some((d, p)) => Some(((d + i) as nat, p)),
                None => None,
            },
            forall|d: nat, p: Position| locate(name@, fr.subrange(0, n - i)) == Some((d, p)) ==> d + i < n,
        decreases n - i,
    {
        let ghost sub = fr.subrange(0, n - i);
        assert(sub.drop_last() =~= fr.subrange(0, n - i - 1));
        assert(sub.last() == frame_model(term_of(env@[n - 1 - i])));
        proof {
            lemma_locate_bound(name@, fr.subrange(0, n - i - 1));
        }
        match position(name, &env[n - 1 - i]) {
            Some(p) => {
                return Some((i, p));
            },
            None => {},
        }
        i = i + 1;
    }
    assert(fr.subrange(0, 0) =~= Seq::<(Seq<Term>, Term)>::empty());
    None
}

pub proof fn lemma_locate_bound(name: Seq<char>, frames: Seq<(Seq<Term>, Term)>)
    ensures
        forall|d: nat, p: Position| locate(name, frames) == Some((d, p)) ==> d < frames.len(),
    decreases frames.len(),
{
    if frames.len() > 0 {
        lemma_locate_bound(name, frames.drop_last());
    }
}

/// Where `name` stands in the parameter list `frame`.
fn position(name: &String, frame: &Ast) -> (r: Option<Position>)
    ensures
        r == position_in(name@, frame_model(term_of(*frame))),
{
    match frame {
        Ast::List(xs, last) => {
            proof {
                lemma_terms_of(xs@);
            }
            let mut j: usize = 0;
            while j < xs.len()
                invariant
                    j <= xs@.len(),
                    *frame == Ast::List(*xs, *last),
                    terms_of(xs@).len() == xs@.len(),
                    forall|k: int| 0 <= k < xs@.len() ==> #[trigger] terms_of(xs@)[k] == term_of(xs@[k]),
                    forall|m: int| 0 <= m < j ==> !is_sym(#[trigger] terms_of(xs@)[m], name@),
                decreases xs@.len() - j,
            {
                let hit = match &xs[j] {
                    Ast::Symbol(s) => *s == *name,
                    _ => false,
                };
                if hit {
                    proof {
                        let ts = terms_of(xs@);
                        assert(is_sym(ts[j as int], name@));
                        let k = choose|k: int| 0 <= k < ts.len() && is_sym(#[trigger] ts[k], name@)
                            && forall|m: int| 0 <= m < k ==> !is_sym(#[trigger] ts[m], name@);
                        if k < j {
                            assert(!is_sym(ts[k], name@));
                        }
                        if k > j {
                            assert(!is_sym(ts[j as int], name@));
                        }
                    }
                    return Some(Position::Index(j));
                }
                j = j + 1;
            }
            let tail_hit = match &**last {
                Ast::Symbol(s) => *s == *name,
                _ => false,
            };
            assert(term_of(*frame) == Term::List(terms_of(xs@), Box::new(term_of(**last))));
            assert(tail_hit == is_sym(term_of(**last), name@));
            if tail_hit { Some(Position::Rest(xs.len())) } else { None }
        },
        Ast::Symbol(s) => {
            assert(term_of(*frame) == Term::Symbol(*s));
            if *s == *name { Some(Position::Rest(0)) } else { None }
        },
        _ => {
            assert(!(term_of(*frame) is Symbol) && !(term_of(*frame) is List));
            None
        },
    }
}

/// How many macro expansions one compilation may nest.
pub const EXPANSION_LIMIT: u64 = 100000;

impl CodeOp {
    /// A copy that shares nested code.
    pub fn dup(&self) -> (r: CodeOp)
        ensures
            r == *self,
    {
        match self {
            CodeOp::Ld(i, p) => CodeOp::Ld(*i, *p),
            CodeOp::Ldc(a) => CodeOp::Ldc(a.dup()),
            CodeOp::Ldg(n) => CodeOp::Ldg(n.clone()),
            CodeOp::Ldf(c) => CodeOp::Ldf(Rc::clone(c)),
            CodeOp::App(n) => CodeOp::App(*n),
            CodeOp::Rtn => CodeOp::Rtn,
            CodeOp::Sel(c, a) => CodeOp::Sel(Rc::clone(c), Rc::clone(a)),
            CodeOp::Join => CodeOp::Join,
            CodeOp::Def(n) => CodeOp::Def(n.clone()),
            CodeOp::Defm(n) => CodeOp::Defm(n.clone()),
            CodeOp::Pop => CodeOp::Pop,
        }
    }
}

impl Ast {
    /// The symbol named `name`.
    pub fn new_symbol(name: &str) -> (r: Ast)
        ensures
            r matches Ast::Symbol(s) && s@ == name@,
    {
        Ast::Symbol(name.to_owned())
    }

    /// The list of `former`, ending in `last`.
    pub fn new_list(former: &[Ast], last: Ast) -> (r: Ast)
        ensures
            r matches Ast::List(xs, t) && xs@ == former@ && *t == last,
    {
        let mut xs: Vec<Ast> = Vec::new();
        let mut i: usize = 0;
        while i < former.len()
            invariant
                i <= former@.len(),
                xs@ =~= former@.subrange(0, i as int),
            decreases former@.len() - i,
        {
            xs.push(former[i].dup());
            i = i + 1;
        }
        assert(xs@ =~= former@);
        Ast::List(Rc::new(xs), Box::new(last))
    }

    /// The instructions for this form at top level, in reverse order of execution.
    pub fn compile(&self, global: &Global) -> (r: Result<Vec<CodeOp>, String>)
        ensures
            match emit(term_of(*self), Seq::empty(), global.entries@, EXPANSION_LIMIT as nat) {
                Some(Ok(c)) => r is Ok && ops_view(r->Ok_0@) == c,
                Some(Err(m)) => r is Err && r->Err_0@ == m,
                None => false,
            },
    {
        let mut env: Vec<Ast> = Vec::new();
        let mut code: Vec<CodeOp> = Vec::new();
        assert(frames_of(env@) =~= Seq::empty());
        assert(ops_view(code@) =~= Seq::empty());
        match self.compile_helper(&mut env, &mut code, global, EXPANSION_LIMIT) {
            Ok(()) => {
                assert(ops_view(Seq::<CodeOp>::empty()) + ops_view(code@) =~= ops_view(code@));
                Ok(code)
            },
            Err(e) => Err(e),
        }
    }

    fn compile_helper(&self, env: &mut Vec<Ast>, code: &mut Vec<CodeOp>, global: &Global, fuel: u64) -> (r: Result<(), String>)
        ensures
            final(env)@ == old(env)@,
            appended(emit(term_of(*self), frames_of(old(env)@), global.entries@, fuel as nat), r, old(code)@, final(code)@),
        decreases fuel, *self, 9nat,
    {
        match self {
            Ast::Symbol(name) => {
                proof {
                    lemma_locate_bound(name@, frames_of(env@));
                }
                let depth = env.len();
                match location(name, env) {
                    Some((i, p)) => {
                        push_op(code, CodeOp::Ld(i, p));
                        assert(frames_of(env@).len() == env@.len());
                    },
                    None => push_op(code, CodeOp::Ldg(name.clone())),
                }
                Ok(())
            },
            Ast::List(xs, last) => {
                assert(term_of(*self) == Term::List(terms_of(xs@), Box::new(term_of(**last))));
                assert((term_of(**last) is Nil) == (**last is Nil));
                if !matches!(**last, Ast::Nil) {
                    return Err("proper list required".to_owned());
                }
                proof {
                    let ghost me = *self;
                    assert(decreases_to!(me => me->List_0));
                    let ghost v: Vec<Ast> = *me->List_0;
                    vstd::std_specs::vec::axiom_vec_decreases_to_view(v);
                }
                compile_form(&**xs, env, code, global, fuel)
            },
            _ => {
                push_op(code, CodeOp::Ldc(self.dup()));
                Ok(())
            },
        }
    }
}

/// Pushes one instruction.
fn push_op(code: &mut Vec<CodeOp>, op: CodeOp)
    ensures
        final(code)@ == old(code)@.push(op),
        ops_view(final(code)@) == ops_view(old(code)@) + seq![op_view(op)],
{
    let ghost c0 = code@;
    code.push(op);
    proof {
        lemma_ops_view_push(c0, op);
        assert(ops_view(c0).push(op_view(op)) =~= ops_view(c0) + seq![op_view(op)]);
    }
}

/// Compiles the proper list `form`.
fn compile_form(form: &Vec<Ast>, env: &mut Vec<Ast>, code: &mut Vec<CodeOp>, global: &Global, fuel: u64) -> (r: Result<(), String>)
    ensures
        final(env)@ == old(env)@,
        appended(emit_form(terms_of(form@), frames_of(old(env)@), global.entries@, fuel as nat), r, old(code)@, final(code)@),
    decreases fuel, form@, 8nat,
{
    proof {
        lemma_terms_of(form@);
    }
    let n = form.len();
    if n == 0 {
        return Err("malformed application".to_owned());
    }
    if let Ast::Symbol(name) = &form[0] {
        if let Some(Value::Macro(mc, _)) = global.get(name) {
            if fuel == 0 {
                return Err("macro expansion too deep".to_owned());
            }
            let expansion = match expand(&mc, form, global) {
                Ok(a) => a,
                Err(e) => return Err(e),
            };
            proof {
                lemma_value_term(expansion);
            }
            return expansion.compile_helper(env, code, global, fuel - 1);
        }
        proof {
            reveal_strlit("quote");
            reveal_strlit("define");
            reveal_strlit("define-macro");
            reveal_strlit("lambda");
            reveal_strlit("if");
            reveal_strlit("begin");
        }
        if *name == "quote".to_owned() {
            if n != 2 {
                return Err("malformed quote".to_owned());
            }
            push_op(code, CodeOp::Ldc(form[1].dup()));
            return Ok(());
        }
        if *name == "define".to_owned() {
            if n < 3 {
                return Err("malformed define".to_owned());
            }
            return define(&form[1], form, false, env, code, global, fuel);
        }
        if *name == "define-macro".to_owned() {
            if n < 3 {
                return Err("malformed define-macro".to_owned());
            }
            return define(&form[1], form, true, env, code, global, fuel);
        }
        if *name == "lambda".to_owned() {
            if n < 2 {
                return Err("malformed lambda".to_owned());
            }
            return lambda(form[1].dup(), form, 2, env, code, global, fuel);
        }
        if *name == "if".to_owned() {
            if n < 3 || n > 4 {
                return Err("malformed if".to_owned());
            }
            return if_(form, env, code, global, fuel);
        }
        if *name == "begin".to_owned() {
            if n < 2 {
                push_op(code, CodeOp::Ldc(Ast::Integer(0)));
                return Ok(());
            }
            return begin(form, 1, n, env, code, global, fuel);
        }
    }
    apply(form, env, code, global, fuel)
}

/// A macro's code without its leading `Rtn`.
pub open spec fn macro_body(c: Seq<CodeOp>) -> Seq<CodeOp> {
    if c.len() == 0 { c } else { c.subrange(1, c.len() as int) }
}

/// The values of the argument forms of `form`: the unevaluated forms after its head.
pub open spec fn macro_args(form: Seq<Term>) -> Seq<Value> {
    form.subrange(1, form.len() as int).map_values(|a: Term| term_value(a))
}

/// The state in which a macro runs: its body, with one frame holding the
/// argument forms, over a copy of the global table.
pub open spec fn expansion_start(mc: Seq<CodeOp>, form: Seq<Term>, g: Seq<(String, Value)>) -> State {
    start(Env::Frame(Rc::new((list_of(macro_args(form), Value::Nil), Env::Empty))), macro_body(mc), g, Seq::empty())
}

/// What a macro's expansion must be: a tree whose value is what the macro
/// returned; or the error its run stopped with; or, for a result that does
/// not read back, the error `unprintable macro expansion`.
pub open spec fn expanded(res: Result<Value, Seq<char>>, r: Result<Ast, String>) -> bool {
    match res {
        Ok(v) => match r {
            Ok(a) => printable(v) && canonical(a) && ast_value(a) == v,
            Err(e) => !printable(v) && e@ == "unprintable macro expansion"@,
        },
        Err(m) => r is Err && r->Err_0@ == m,
    }
}

/// Runs a macro's code on the unevaluated argument forms of `form` and reads
/// back the form it returns. Definitions and output made by the macro's run are dropped.
pub fn expand(mc: &Rc<Vec<CodeOp>>, form: &Vec<Ast>, global: &Global) -> (r: Result<Ast, String>)
    requires
        form@.len() >= 1,
    ensures
        expanded(run_from(expansion_start(mc@, terms_of(form@), global.entries@), STEP_LIMIT as nat).0, r),
{
    proof {
        lemma_terms_of(form@);
    }
    let mut vals: Vec<Value> = Vec::new();
    let mut i: usize = 1;
    while i < form.len()
        invariant
            1 <= i <= form@.len(),
            vals@ =~= terms_of(form@).subrange(1, i as int).map_values(|a: Term| term_value(a)),
            terms_of(form@).len() == form@.len(),
            forall|k: int| 0 <= k < form@.len() ==> #[trigger] terms_of(form@)[k] == term_of(form@[k]),
        decreases form@.len() - i,
    {
        proof {
            lemma_term_value(form@[i as int]);
        }
        vals.push(form[i].to_value());
        i = i + 1;
    }
    let frame = vec2cons(vals.as_slice(), Value::Nil);
    let env = Env::Frame(Rc::new((frame, Env::Empty)));
    let mut body: Vec<CodeOp> = Vec::new();
    let mut k: usize = 1;
    while k < mc.len()
        invariant
            1 <= k,
            k <= mc@.len() || mc@.len() == 0,
            body@ =~= if mc@.len() == 0 { mc@ } else { mc@.subrange(1, k as int) },
        decreases mc@.len() - k,
    {
        body.push(mc[k].dup());
        k = k + 1;
    }
    let mut scratch = global.dup();
    let mut printed: Vec<String> = Vec::new();
    proof {
        assert(lines(printed@) =~= Seq::<Seq<char>>::empty());
    }
    match Machine::run(env, body, &mut scratch, &mut printed) {
        Ok(v) => match v.to_ast() {
            Some(a) => Ok(a),
            None => Err("unprintable macro expansion".to_owned()),
        },
        Err(e) => Err(e),
    }
}

/// A call: `App`, the callee, then the arguments from the last to the first.
fn apply(form: &Vec<Ast>, env: &mut Vec<Ast>, code: &mut Vec<CodeOp>, global: &Global, fuel: u64) -> (r: Result<(), String>)
    requires
        form@.len() > 0,
    ensures
        final(env)@ == old(env)@,
        appended(emit_apply(terms_of(form@), frames_of(old(env)@), global.entries@, fuel as nat), r, old(code)@, final(code)@),
    decreases fuel, form@, 7nat,
{
    proof {
        lemma_terms_of(form@);
    }
    let ghost fr = frames_of(env@);
    let ghost g = global.entries@;
    let ghost c0 = code@;
    push_op(code, CodeOp::App(form.len() - 1));
    let ghost c1 = code@;
    let r1 = form[0].compile_helper(env, code, global, fuel);
    let ghost c2 = code@;
    proof {
        lemma_then(ok(seq![Op::App((form@.len() - 1) as nat)]), emit(terms_of(form@)[0], fr, g, fuel as nat), r1, c0, c1, c2);
    }
    if let Err(e) = r1 {
        proof {
            lemma_then_err(then(ok(seq![Op::App((form@.len() - 1) as nat)]), emit(terms_of(form@)[0], fr, g, fuel as nat)),
                emit_args(terms_of(form@).subrange(1, form@.len() as int), fr, g, fuel as nat), e, c0, c2);
        }
        return Err(e);
    }
    let r2 = args(form, form.len(), env, code, global, fuel);
    proof {
        lemma_then(then(ok(seq![Op::App((form@.len() - 1) as nat)]), emit(terms_of(form@)[0], fr, g, fuel as nat)),
            emit_args(terms_of(form@).subrange(1, form@.len() as int), fr, g, fuel as nat), r2, c0, c2, code@);
    }
    r2
}

/// The arguments `form[1..hi]`, from the last to the first.
fn args(form: &Vec<Ast>, hi: usize, env: &mut Vec<Ast>, code: &mut Vec<CodeOp>, global: &Global, fuel: u64) -> (r: Result<(), String>)
    requires
        1 <= hi <= form@.len(),
    ensures
        final(env)@ == old(env)@,
        appended(emit_args(terms_of(form@).subrange(1, hi as int), frames_of(old(env)@), global.entries@, fuel as nat), r, old(code)@, final(code)@),
    decreases fuel, form@.subrange(1, hi as int), 6nat,
{
    proof {
        lemma_terms_of(form@);
    }
    let ghost fr = frames_of(env@);
    let ghost g = global.entries@;
    let ghost a = terms_of(form@).subrange(1, hi as int);
    if hi == 1 {
        assert(ops_view(code@) + Seq::<Op>::empty() =~= ops_view(code@));
        return Ok(());
    }
    let ghost c0 = code@;
    assert(a[a.len() - 1] == terms_of(form@)[hi - 1]);
    proof {
        let raw = form@.subrange(1, hi as int);
        assert(raw[raw.len() - 1] == form@[hi - 1]);
        assert(decreases_to!(raw => raw[raw.len() - 1]));
        assert(raw.subrange(0, raw.len() - 1) =~= form@.subrange(1, hi - 1));
    }
    let r1 = form[hi - 1].compile_helper(env, code, global, fuel);
    let ghost c1 = code@;
    assert(a.subrange(0, a.len() - 1) =~= terms_of(form@).subrange(1, hi - 1));
    if let Err(e) = r1 {
        proof {
            lemma_then_err(emit(a[a.len() - 1], fr, g, fuel as nat), emit_args(a.subrange(0, a.len() - 1), fr, g, fuel as nat), e, c0, c1);
        }
        return Err(e);
    }
    let r2 = args(form, hi - 1, env, code, global, fuel);
    proof {
        lemma_then(emit(a[a.len() - 1], fr, g, fuel as nat), emit_args(a.subrange(0, a.len() - 1), fr, g, fuel as nat), r2, c0, c1, code@);
    }
    r2
}

/// The body `form[lo..hi]`: each form from the last to the first, with a `Pop`
/// between two; an empty body loads `0`.
fn begin(form: &Vec<Ast>, lo: usize, hi: usize, env: &mut Vec<Ast>, code: &mut Vec<CodeOp>, global: &Global, fuel: u64) -> (r: Result<(), String>)
    requires
        lo <= hi <= form@.len(),
    ensures
        final(env)@ == old(env)@,
        appended(emit_body(terms_of(form@).subrange(lo as int, hi as int), frames_of(old(env)@), global.entries@, fuel as nat), r, old(code)@, final(code)@),
    decreases fuel, form@.subrange(lo as int, hi as int), 3nat,
{
    proof {
        lemma_terms_of(form@);
    }
    let ghost fr = frames_of(env@);
    let ghost g = global.entries@;
    let ghost b = terms_of(form@).subrange(lo as int, hi as int);
    let ghost c0 = code@;
    if lo == hi {
        push_op(code, CodeOp::Ldc(Ast::Integer(0)));
        return Ok(());
    }
    assert(b[b.len() - 1] == terms_of(form@)[hi - 1]);
    proof {
        let raw = form@.subrange(lo as int, hi as int);
        assert(raw[raw.len() - 1] == form@[hi - 1]);
        assert(decreases_to!(raw => raw[raw.len() - 1]));
        assert(raw.subrange(0, raw.len() - 1) =~= form@.subrange(lo as int, hi - 1));
    }
    if hi - lo == 1 {
        return form[hi - 1].compile_helper(env, code, global, fuel);
    }
    let r1 = form[hi - 1].compile_helper(env, code, global, fuel);
    let ghost c1 = code@;
    assert(b.subrange(0, b.len() - 1) =~= terms_of(form@).subrange(lo as int, hi - 1));
    let ghost e1 = emit(b[b.len() - 1], fr, g, fuel as nat);
    let ghost rest = emit_body(b.subrange(0, b.len() - 1), fr, g, fuel as nat);
    if let Err(e) = r1 {
        proof {
            lemma_then_err(e1, ok(seq![Op::Pop]), e, c0, c1);
            lemma_then_err(then(e1, ok(seq![Op::Pop])), rest, e, c0, c1);
        }
        return Err(e);
    }
    push_op(code, CodeOp::Pop);
    let ghost c2 = code@;
    proof {
        lemma_then(e1, ok(seq![Op::Pop]), Ok(()), c0, c1, c2);
    }
    let r2 = begin(form, lo, hi - 1, env, code, global, fuel);
    proof {
        lemma_then(then(e1, ok(seq![Op::Pop])), rest, r2, c0, c2, code@);
    }
    r2
}

/// A closure with the parameter list `params` over the body `form[lo..]`.
fn lambda(params: Ast, form: &Vec<Ast>, lo: usize, env: &mut Vec<Ast>, code: &mut Vec<CodeOp>, global: &Global, fuel: u64) -> (r: Result<(), String>)
    requires
        lo <= form@.len(),
    ensures
        final(env)@ == old(env)@,
        appended(emit_lambda(frame_model(term_of(params)), terms_of(form@).subrange(lo as int, form@.len() as int),
            frames_of(old(env)@), global.entries@, fuel as nat), r, old(code)@, final(code)@),
    decreases fuel, form@.subrange(lo as int, form@.len() as int), 4nat,
{
    proof {
        lemma_terms_of(form@);
    }
    let ghost e0 = env@;
    let ghost pm = frame_model(term_of(params));
    env.push(params);
    assert(frames_of(env@) =~= frames_of(e0).push(pm));
    let mut body: Vec<CodeOp> = Vec::new();
    push_op(&mut body, CodeOp::Rtn);
    let ghost b0 = body@;
    let r = begin(form, lo, form.len(), env, &mut body, global, fuel);
    env.pop();
    assert(env@ =~= e0);
    match r {
        Ok(()) => {
            proof {
                assert(ops_view(Seq::<CodeOp>::empty()) =~= Seq::<Op>::empty());
                assert(ops_view(b0) =~= seq![Op::Rtn]);
            }
            push_op(code, CodeOp::Ldf(Rc::new(body)));
            Ok(())
        },
        Err(e) => Err(e),
    }
}

/// `define` (or `define-macro`, by `is_macro`) with the head `head` and the rest `form[2..]`.
fn define(head: &Ast, form: &Vec<Ast>, is_macro: bool, env: &mut Vec<Ast>, code: &mut Vec<CodeOp>, global: &Global, fuel: u64) -> (r: Result<(), String>)
    requires
        form@.len() >= 3,
        *head == form@[1],
    ensures
        final(env)@ == old(env)@,
        appended(emit_define(term_of(*head), terms_of(form@).subrange(2, form@.len() as int), is_macro, frames_of(old(env)@), global.entries@, fuel as nat),
            r, old(code)@, final(code)@),
    decreases fuel, form@.subrange(2, form@.len() as int), 5nat,
{
    proof {
        lemma_terms_of(form@);
    }
    let ghost fr = frames_of(env@);
    let ghost g = global.entries@;
    let ghost c0 = code@;
    let ghost tail = terms_of(form@).subrange(2, form@.len() as int);
    match head {
        Ast::Symbol(name) => {
            if form.len() != 3 {
                return Err(define_error(is_macro));
            }
            let op = if is_macro { CodeOp::Defm(name.clone()) } else { CodeOp::Def(name.clone()) };
            push_op(code, op);
            let ghost c1 = code@;
            assert(tail[0] == terms_of(form@)[2]);
            proof {
                let raw = form@.subrange(2, form@.len() as int);
                assert(raw[0] == form@[2]);
                assert(decreases_to!(raw => raw[0]));
            }
            let r = form[2].compile_helper(env, code, global, fuel);
            proof {
                lemma_then(ok(seq![op_view(op)]), emit(tail[0], fr, g, fuel as nat), r, c0, c1, code@);
            }
            r
        },
        Ast::List(former, last) => {
            proof {
                lemma_terms_of(former@);
            }
            if former.len() == 0 {
                return Err(define_error(is_macro));
            }
            match &former[0] {
                Ast::Symbol(name) => {
                    let op = if is_macro { CodeOp::Defm(name.clone()) } else { CodeOp::Def(name.clone()) };
                    push_op(code, op);
                    let ghost c1 = code@;
                    let params = list_from(former, 1, (**last).dup());
                    let r = lambda(params, form, 2, env, code, global, fuel);
                    proof {
                        lemma_then(ok(seq![op_view(op)]),
                            emit_lambda((terms_of(former@).subrange(1, former@.len() as int), term_of(**last)), tail, fr, g, fuel as nat), r, c0, c1, code@);
                    }
                    r
                },
                _ => Err(define_error(is_macro)),
            }
        },
        _ => Err(define_error(is_macro)),
    }
}

fn define_error(is_macro: bool) -> (r: String)
    ensures
        r@ == if is_macro { "malformed define-macro"@ } else { "malformed define"@ },
{
    if is_macro { "malformed define-macro".to_owned() } else { "malformed define".to_owned() }
}

/// `(if p c a)`: `Sel` over the two branches, each ending in `Join`, then the predicate.
fn if_(form: &Vec<Ast>, env: &mut Vec<Ast>, code: &mut Vec<CodeOp>, global: &Global, fuel: u64) -> (r: Result<(), String>)
    requires
        3 <= form@.len() <= 4,
    ensures
        final(env)@ == old(env)@,
        appended(
            ({
                let fr = frames_of(old(env)@);
                let g = global.entries@;
                let c = emit(terms_of(form@)[2], fr, g, fuel as nat);
                let alt = if form@.len() == 4 { emit(terms_of(form@)[3], fr, g, fuel as nat) } else { ok(seq![Op::Ldc(Term::Undefined)]) };
                match (c, alt) {
                    (Some(Ok(cc)), Some(Ok(ac))) =>
                        then(ok(seq![Op::Sel(seq![Op::Join] + cc, seq![Op::Join] + ac)]), emit(terms_of(form@)[1], fr, g, fuel as nat)),
                    (Some(Ok(_)), other) => other,
                    (other, _) => other,
                }
            }),
            r, old(code)@, final(code)@),
    decreases fuel, form@, 7nat,
{
    proof {
        lemma_terms_of(form@);
    }
    let ghost fr = frames_of(env@);
    let ghost g = global.entries@;
    let ghost c0 = code@;
    let mut conseq: Vec<CodeOp> = Vec::new();
    push_op(&mut conseq, CodeOp::Join);
    let ghost k0 = conseq@;
    match form[2].compile_helper(env, &mut conseq, global, fuel) {
        Ok(()) => {},
        Err(e) => return Err(e),
    }
    let mut alt: Vec<CodeOp> = Vec::new();
    push_op(&mut alt, CodeOp::Join);
    let ghost a0 = alt@;
    if form.len() == 4 {
        match form[3].compile_helper(env, &mut alt, global, fuel) {
            Ok(()) => {},
            Err(e) => return Err(e),
        }
    } else {
        push_op(&mut alt, CodeOp::Ldc(Ast::Undefined));
    }
    proof {
        assert(ops_view(Seq::<CodeOp>::empty()) =~= Seq::<Op>::empty());
        assert(ops_view(k0) =~= seq![Op::Join]);
        assert(ops_view(a0) =~= seq![Op::Join]);
    }
    push_op(code, CodeOp::Sel(Rc::new(conseq), Rc::new(alt)));
    let ghost c1 = code@;
    let r = form[1].compile_helper(env, code, global, fuel);
    proof {
        lemma_then(ok(seq![Op::Sel(ops_view(conseq@), ops_view(alt@))]), emit(terms_of(form@)[1], fr, g, fuel as nat), r, c0, c1, code@);
    }
    r
}

/// The list of `xs[lo..]`, ending in `last`.
fn list_from(xs: &Vec<Ast>, lo: usize, last: Ast) -> (r: Ast)
    requires
        lo <= xs@.len(),
    ensures
        frame_model(term_of(r)) == (terms_of(xs@).subrange(lo as int, xs@.len() as int), term_of(last)),
{
    let mut ys: Vec<Ast> = Vec::new();
    let mut i: usize = lo;
    while i < xs.len()
        invariant
            lo <= i <= xs@.len(),
            ys@ =~= xs@.subrange(lo as int, i as int),
        decreases xs@.len() - i,
    {
        ys.push(xs[i].dup());
        i = i + 1;
    }
    proof {
        lemma_terms_of_subrange(xs@, lo as int, xs@.len() as int);
    }
    Ast::List(Rc::new(ys), Box::new(last))
}

/// Lexical scoping: a symbol that the innermost parameter list binds is
/// loaded from frame 0 at its place there, whatever outer frames or globals
/// bind the same name.
pub proof fn lemma_innermost_binding_shadows(s: String, frames: Seq<(Seq<Term>, Term)>, params: (Seq<Term>, Term), g: Seq<(String, Value)>, depth: nat)
    requires
        position_in(s@, params) is Some,
    ensures
        locate(s@, frames.push(params)) == Some((0nat, position_in(s@, params)->0)),
        emit(Term::Symbol(s), frames.push(params), g, depth) == ok(seq![Op::Ld(0, position_in(s@, params)->0)]),
{
    assert(frames.push(params).last() == params);
}

/// A bare symbol as the parameter list binds the whole argument list:
/// `((lambda x x) 1 2 3)` gives `x` the list `(1 2 3)`.
pub proof fn lemma_symbol_parameter_binds_all(x: String, args: Seq<Value>, outer: Env)
    ensures
        position_in(x@, frame_model(Term::Symbol(x))) == Some(Position::Rest(0)),
        var_at(Env::Frame(Rc::new((list_of(args, Value::Nil), outer))), 0, Position::Rest(0))
            == Some(list_of(args, Value::Nil)),
{
    let xs = frame_model(Term::Symbol(x)).0;
    assert(!(exists|k: int| 0 <= k < xs.len() && is_sym(#[trigger] xs[k], x@)));
    crate::vm::lemma_frame_slots(args, outer, 0);
    assert(args.subrange(0, args.len() as int) =~= args);
}

/// The nearest binding wins: `locate` finds `name` in the innermost frame
/// that binds it (frame `i` counted outwards from the last of `frames`), and
/// gives `None` exactly when no frame binds it.
pub proof fn lemma_locate_innermost(name: Seq<char>, frames: Seq<(Seq<Term>, Term)>)
    ensures
        locate(name, frames) is None <==> forall|k: int| 0 <= k < frames.len() ==> #[trigger] position_in(name, frames[k]) is None,
        locate(name, frames) matches Some((i, p)) ==> i < frames.len()
            && position_in(name, frames[frames.len() - 1 - i]) == Some(p)
            && forall|k: int| frames.len() - 1 - i < k < frames.len() ==> #[trigger] position_in(name, frames[k]) is None,
    decreases frames.len(),
{
    if frames.len() > 0 {
        let inner = frames.drop_last();
        let n = frames.len() as int;
        lemma_locate_innermost(name, inner);
        assert forall|k: int| 0 <= k < inner.len() implies #[trigger] inner[k] == frames[k] by {}
        assert(frames.last() == frames[n - 1]);
        if position_in(name, frames[n - 1]) is Some {
            assert(!(forall|k: int| 0 <= k < frames.len() ==> #[trigger] position_in(name, frames[k]) is None));
        } else {
            match locate(name, inner) {
                Some((i, p)) => {
                    assert(frames[n - 1 - (i + 1)] == inner[inner.len() - 1 - i]);
                    assert(!(forall|k: int| 0 <= k < frames.len() ==> #[trigger] position_in(name, frames[k]) is None)) by {
                        assert(position_in(name, frames[n - 2 - i]) is Some);
                    }
                    assert forall|k: int| n - 1 - (i + 1) < k < n implies #[trigger] position_in(name, frames[k]) is None by {
                        if k < n - 1 {
                            assert(frames[k] == inner[k]);
                        }
                    }
                },
                None => {
                    assert forall|k: int| 0 <= k < frames.len() implies #[trigger] position_in(name, frames[k]) is None by {
                        if k < n - 1 {
                            assert(frames[k] == inner[k]);
                        }
                    }
                },
            }
        }
    }
}

} // verus!
