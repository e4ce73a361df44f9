use vstd::prelude::*;
use crate::value::{Prim, Value, cell, lemma_same_refl, list_elems, list_of, text, vec2cons, values_equal, same};
use crate::vm::Global;

verus! {

/// The error text of an outcome.
pub open spec fn err_view(r: Result<Value, String>) -> Result<Value, Seq<char>> {
    match r {
        Ok(v) => Ok(v),
        Err(e) => Err(e@),
    }
}

pub open spec fn is_int(v: Value) -> bool {
    v is Integer
}

pub open spec fn int_of(v: Value) -> i32 {
    match v {
        Value::Integer(i) => i,
        _ => 0,
    }
}

pub open spec fn all_ints(args: Seq<Value>) -> bool {
    forall|i: int| 0 <= i < args.len() ==> is_int(#[trigger] args[i])
}

/// One step of an arithmetic fold, wrapping around on overflow.
pub open spec fn arith(op: Prim, x: i32, y: i32) -> i32 {
    match op {
        Prim::Sub => x.wrapping_sub(y),
        Prim::Mul => x.wrapping_mul(y),
        _ => x.wrapping_add(y),
    }
}

/// `acc` combined with each of `args` in turn, from the left.
pub open spec fn fold_arith(op: Prim, acc: i32, args: Seq<Value>) -> i32
    decreases args.len(),
{
    if args.len() == 0 {
        acc
    } else {
        fold_arith(op, arith(op, acc, int_of(args[0])), args.subrange(1, args.len() as int))
    }
}

pub open spec fn compare(op: Prim, x: i32, y: i32) -> bool {
    match op {
        Prim::Gt => x > y,
        Prim::Ge => x >= y,
        Prim::Lt => x < y,
        Prim::Le => x <= y,
        _ => x == y,
    }
}

/// Each argument stands in the relation to the next.
pub open spec fn chained(op: Prim, args: Seq<Value>) -> bool {
    forall|i: int| 0 <= i < args.len() - 1 ==> compare(op, int_of(#[trigger] args[i]), int_of(args[i + 1]))
}

/// The name under which a primitive is known.
pub open spec fn prim_name(p: Prim) -> Seq<char> {
    match p {
        Prim::Print => "print"@,
        Prim::Undefined => "undefined"@,
        Prim::Cons => "cons"@,
        Prim::Car => "car"@,
        Prim::Cdr => "cdr"@,
        Prim::EqP => "eq?"@,
        Prim::PairP => "pair?"@,
        Prim::Not => "not"@,
        Prim::NullP => "null?"@,
        Prim::List => "list"@,
        Prim::Add => "+"@,
        Prim::Sub => "-"@,
        Prim::Mul => "*"@,
        Prim::NumEq => "="@,
        Prim::Gt => ">"@,
        Prim::Ge => ">="@,
        Prim::Lt => "<"@,
        Prim::Le => "<="@,
    }
}

pub open spec fn arity_error(p: Prim) -> Seq<char> {
    "wrong number of arguments: "@ + prim_name(p)
}

pub open spec fn type_error(p: Prim) -> Seq<char> {
    "all arguments must be integers: "@ + prim_name(p)
}

/// The outcome of applying a primitive to arguments.
pub open spec fn prim_result(p: Prim, args: Seq<Value>) -> Result<Value, Seq<char>> {
    let n = args.len();
    match p {
        Prim::Print => Ok(Value::Undefined),
        Prim::Undefined => if n == 0 { Ok(Value::Undefined) } else { Err(arity_error(p)) },
        Prim::Cons => if n == 2 { Ok(cell(args[0], args[1])) } else { Err(arity_error(p)) },
        Prim::Car => if n != 1 { Err(arity_error(p)) } else {
            match args[0] {
                Value::Cell(c) => Ok(c.0),
                _ => Err("pair required: car"@),
            }
        },
        Prim::Cdr => if n != 1 { Err(arity_error(p)) } else {
            match args[0] {
                Value::Cell(c) => Ok(c.1),
                _ => Err("pair required: cdr"@),
            }
        },
        Prim::EqP => if n == 2 { Ok(Value::Boolean(same(args[0], args[1]))) } else { Err(arity_error(p)) },
        Prim::PairP => if n == 1 { Ok(Value::Boolean(args[0] is Cell)) } else { Err(arity_error(p)) },
        Prim::Not => if n == 1 { Ok(Value::Boolean(args[0] == Value::Boolean(false))) } else { Err(arity_error(p)) },
        Prim::NullP => if n == 1 { Ok(Value::Boolean(args[0] is Nil)) } else { Err(arity_error(p)) },
        Prim::List => Ok(list_of(args, Value::Nil)),
        Prim::Add | Prim::Mul => if !all_ints(args) { Err(type_error(p)) } else if n == 0 {
            Ok(Value::Integer(if p is Add { 0 } else { 1 }))
        } else {
            Ok(Value::Integer(fold_arith(p, int_of(args[0]), args.subrange(1, n as int))))
        },
        Prim::Sub => if n == 0 { Err(arity_error(p)) } else if !all_ints(args) { Err(type_error(p)) } else if n == 1 {
            Ok(Value::Integer(0i32.wrapping_sub(int_of(args[0]))))
        } else {
            Ok(Value::Integer(fold_arith(p, int_of(args[0]), args.subrange(1, n as int))))
        },
        _ => if n < 2 { Err(arity_error(p)) } else if !all_ints(args) { Err(type_error(p)) } else {
            Ok(Value::Boolean(chained(p, args)))
        },
    }
}

/// The line that applying a primitive prints, if any.
pub open spec fn prim_output(p: Prim, args: Seq<Value>) -> Option<Seq<char>> {
    if p is Print { Some(texts(args)) } else { None }
}

/// The printed forms of `args`, one after another.
pub open spec fn texts(args: Seq<Value>) -> Seq<char>
    decreases args.len(),
{
    if args.len() == 0 {
        Seq::empty()
    } else {
        texts(args.drop_last()) + text(args.last())
    }
}

/// The output lines after a primitive call.
pub open spec fn out_after(p: Prim, args: Seq<Value>, out: Seq<Seq<char>>) -> Seq<Seq<char>> {
    match prim_output(p, args) {
        Some(line) => out.push(line),
        None => out,
    }
}

fn arity_err(p: &Prim) -> (r: String)
    ensures
        r@ == arity_error(*p),
{
    let mut s = "wrong number of arguments: ".to_owned();
    s.append(prim_str(p));
    s
}

fn type_err(p: &Prim) -> (r: String)
    ensures
        r@ == type_error(*p),
{
    let mut s = "all arguments must be integers: ".to_owned();
    s.append(prim_str(p));
    s
}

fn prim_str(p: &Prim) -> (r: &'static str)
    ensures
        r@ == prim_name(*p),
{
    match p {
        Prim::Print => "print",
        Prim::Undefined => "undefined",
        Prim::Cons => "cons",
        Prim::Car => "car",
        Prim::Cdr => "cdr",
        Prim::EqP => "eq?",
        Prim::PairP => "pair?",
        Prim::Not => "not",
        Prim::NullP => "null?",
        Prim::List => "list",
        Prim::Add => "+",
        Prim::Sub => "-",
        Prim::Mul => "*",
        Prim::NumEq => "=",
        Prim::Gt => ">",
        Prim::Ge => ">=",
        Prim::Lt => "<",
        Prim::Le => "<=",
    }
}

/// Whether every argument is an integer.
fn check_ints(args: &[Value]) -> (r: bool)
    ensures
        r == all_ints(args@),
{
    let mut i: usize = 0;
    while i < args.len()
        invariant
            i <= args@.len(),
            forall|k: int| 0 <= k < i ==> is_int(#[trigger] args@[k]),
        decreases args@.len() - i,
    {
        if !matches!(args[i], Value::Integer(_)) {
            return false;
        }
        i = i + 1;
    }
    true
}

/// Folds the integer arguments from the left with `+`, `-` or `*`.
fn fold_numeric_op(args: &[Value], op: &Prim) -> (r: i32)
    requires
        args@.len() > 0,
        all_ints(args@),
    ensures
        r == fold_arith(*op, int_of(args@[0]), args@.subrange(1, args@.len() as int)),
{
    let mut acc: i32 = match &args[0] {
        Value::Integer(x) => *x,
        _ => 0,
    };
    let mut i: usize = 1;
    while i < args.len()
        invariant
            1 <= i <= args@.len(),
            all_ints(args@),
            fold_arith(*op, int_of(args@[0]), args@.subrange(1, args@.len() as int))
                == fold_arith(*op, acc, args@.subrange(i as int, args@.len() as int)),
        decreases args@.len() - i,
    {
        let x: i32 = match &args[i] {
            Value::Integer(x) => *x,
            _ => 0,
        };
        proof {
            let rest = args@.subrange(i as int, args@.len() as int);
            assert(rest.subrange(1, rest.len() as int) =~= args@.subrange(i + 1, args@.len() as int));
        }
        acc = match op {
            Prim::Sub => acc.wrapping_sub(x),
            Prim::Mul => acc.wrapping_mul(x),
            _ => acc.wrapping_add(x),
        };
        i = i + 1;
    }
    assert(args@.subrange(i as int, args@.len() as int) =~= Seq::<Value>::empty());
    acc
}

/// Whether each integer argument stands in the relation to the next.
fn fold_numeric_ord(args: &[Value], op: &Prim) -> (r: bool)
    requires
        all_ints(args@),
    ensures
        r == chained(*op, args@),
{
    let n = args.len();
    if n < 2 {
        return true;
    }
    let mut i: usize = 0;
    while i < n - 1
        invariant
            n == args@.len(),
            n >= 2,
            i <= n - 1,
            all_ints(args@),
            forall|k: int| 0 <= k < i ==> compare(*op, int_of(#[trigger] args@[k]), int_of(args@[k + 1])),
        decreases args@.len() - i,
    {
        let x: i32 = match &args[i] {
            Value::Integer(x) => *x,
            _ => 0,
        };
        let y: i32 = match &args[i + 1] {
            Value::Integer(y) => *y,
            _ => 0,
        };
        let holds = match op {
            Prim::Gt => x > y,
            Prim::Ge => x >= y,
            Prim::Lt => x < y,
            Prim::Le => x <= y,
            _ => x == y,
        };
        if !holds {
            return false;
        }
        i = i + 1;
    }
    true
}

fn add(args: &[Value]) -> (r: Result<Value, String>)
    ensures
        err_view(r) == prim_result(Prim::Add, args@),
{
    if !check_ints(args) {
        Err(type_err(&Prim::Add))
    } else if args.len() == 0 {
        Ok(Value::Integer(0))
    } else {
        Ok(Value::Integer(fold_numeric_op(args, &Prim::Add)))
    }
}

fn sub(args: &[Value]) -> (r: Result<Value, String>)
    ensures
        err_view(r) == prim_result(Prim::Sub, args@),
{
    if args.len() == 0 {
        Err(arity_err(&Prim::Sub))
    } else if !check_ints(args) {
        Err(type_err(&Prim::Sub))
    } else if args.len() == 1 {
        let x: i32 = match &args[0] {
            Value::Integer(x) => *x,
            _ => 0,
        };
        Ok(Value::Integer(0i32.wrapping_sub(x)))
    } else {
        Ok(Value::Integer(fold_numeric_op(args, &Prim::Sub)))
    }
}

fn mul(args: &[Value]) -> (r: Result<Value, String>)
    ensures
        err_view(r) == prim_result(Prim::Mul, args@),
{
    if !check_ints(args) {
        Err(type_err(&Prim::Mul))
    } else if args.len() == 0 {
        Ok(Value::Integer(1))
    } else {
        Ok(Value::Integer(fold_numeric_op(args, &Prim::Mul)))
    }
}

/// The comparisons `=`, `>`, `>=`, `<` and `<=`.
fn compare_chain(args: &[Value], op: &Prim) -> (r: Result<Value, String>)
    requires
        *op is NumEq || *op is Gt || *op is Ge || *op is Lt || *op is Le,
    ensures
        err_view(r) == prim_result(*op, args@),
{
    if args.len() < 2 {
        Err(arity_err(op))
    } else if !check_ints(args) {
        Err(type_err(op))
    } else {
        Ok(Value::Boolean(fold_numeric_ord(args, op)))
    }
}

/// The printed forms of `args`, one after another.
fn print_line(args: &[Value]) -> (r: String)
    ensures
        r@ == texts(args@),
{
    let mut s = String::new();
    let mut i: usize = 0;
    while i < args.len()
        invariant
            i <= args@.len(),
            s@ == texts(args@.subrange(0, i as int)),
        decreases args@.len() - i,
    {
        proof {
            assert(args@.subrange(0, i + 1).drop_last() =~= args@.subrange(0, i as int));
        }
        crate::value::write_value(&args[i], &mut s);
        i = i + 1;
    }
    assert(args@.subrange(0, i as int) =~= args@);
    s
}

/// Applies a primitive to its arguments; `print` adds its line to `out`.
pub fn apply_prim(p: &Prim, args: Vec<Value>, out: &mut Vec<String>) -> (r: Result<Value, String>)
    ensures
        err_view(r) == prim_result(*p, args@),
        final(out)@.map_values(|l: String| l@) == out_after(*p, args@, old(out)@.map_values(|l: String| l@)),
{
    let n = args.len();
    let a = args.as_slice();
    let r = match p {
        Prim::Print => {
            out.push(print_line(a));
            Ok(Value::Undefined)
        },
        Prim::Undefined => if n == 0 { Ok(Value::Undefined) } else { Err(arity_err(p)) },
        Prim::Cons => if n == 2 { Ok(Value::cons(a[0].dup(), a[1].dup())) } else { Err(arity_err(p)) },
        Prim::Car => if n != 1 { Err(arity_err(p)) } else {
            match a[0].car() {
                Some(v) => Ok(v),
                None => Err("pair required: car".to_owned()),
            }
        },
        Prim::Cdr => if n != 1 { Err(arity_err(p)) } else {
            match a[0].cdr() {
                Some(v) => Ok(v),
                None => Err("pair required: cdr".to_owned()),
            }
        },
        Prim::EqP => if n == 2 { Ok(Value::Boolean(values_equal(&a[0], &a[1]))) } else { Err(arity_err(p)) },
        Prim::PairP => if n == 1 { Ok(Value::Boolean(matches!(a[0], Value::Cell(_)))) } else { Err(arity_err(p)) },
        Prim::Not => if n == 1 {
            Ok(Value::Boolean(match &a[0] { Value::Boolean(b) => !*b, _ => false }))
        } else { Err(arity_err(p)) },
        Prim::NullP => if n == 1 { Ok(Value::Boolean(matches!(a[0], Value::Nil))) } else { Err(arity_err(p)) },
        Prim::List => Ok(vec2cons(a, Value::Nil)),
        Prim::Add => crate::primitive::add(a),
        Prim::Sub => crate::primitive::sub(a),
        Prim::Mul => crate::primitive::mul(a),
        _ => compare_chain(a, p),
    };
    proof {
        if !(*p is Print) {
            assert(final(out)@ == old(out)@);
        } else {
            assert(final(out)@.map_values(|l: String| l@) =~= old(out)@.map_values(|l: String| l@).push(texts(args@)));
        }
    }
    r
}

/// The entry `e` holds a primitive under that primitive's name.
pub open spec fn names_own_prim(e: (String, Value)) -> bool {
    match e.1 {
        Value::Primitive(p) => e.0@ == prim_name(p),
        _ => false,
    }
}

/// Some entry holds the primitive `p`.
pub open spec fn holds_prim(entries: Seq<(String, Value)>, p: Prim) -> bool {
    exists|i: int| 0 <= i < entries.len() && #[trigger] entries[i].1 == Value::Primitive(p)
}

/// A table holding every primitive under its name, and nothing else.
pub fn define_primitives() -> (g: Global)
    ensures
        g.entries@.len() == 18,
        forall|i: int| 0 <= i < g.entries@.len() ==> names_own_prim(#[trigger] g.entries@[i]),
        forall|p: Prim| #[trigger] holds_prim(g.entries@, p),
{
    let mut g = Global::new();
    g.insert("print".to_owned(), Value::Primitive(Prim::Print));
    g.insert("undefined".to_owned(), Value::Primitive(Prim::Undefined));
    g.insert("cons".to_owned(), Value::Primitive(Prim::Cons));
    g.insert("car".to_owned(), Value::Primitive(Prim::Car));
    g.insert("cdr".to_owned(), Value::Primitive(Prim::Cdr));
    g.insert("eq?".to_owned(), Value::Primitive(Prim::EqP));
    g.insert("pair?".to_owned(), Value::Primitive(Prim::PairP));
    g.insert("not".to_owned(), Value::Primitive(Prim::Not));
    g.insert("null?".to_owned(), Value::Primitive(Prim::NullP));
    g.insert("list".to_owned(), Value::Primitive(Prim::List));
    g.insert("+".to_owned(), Value::Primitive(Prim::Add));
    g.insert("-".to_owned(), Value::Primitive(Prim::Sub));
    g.insert("*".to_owned(), Value::Primitive(Prim::Mul));
    g.insert("=".to_owned(), Value::Primitive(Prim::NumEq));
    g.insert(">".to_owned(), Value::Primitive(Prim::Gt));
    g.insert(">=".to_owned(), Value::Primitive(Prim::Ge));
    g.insert("<".to_owned(), Value::Primitive(Prim::Lt));
    g.insert("<=".to_owned(), Value::Primitive(Prim::Le));
    proof {
        assert forall|p: Prim| #[trigger] holds_prim(g.entries@, p) by {
            match p {
                Prim::Print => assert(g.entries@[0].1 == Value::Primitive(p)),
                Prim::Undefined => assert(g.entries@[1].1 == Value::Primitive(p)),
                Prim::Cons => assert(g.entries@[2].1 == Value::Primitive(p)),
                Prim::Car => assert(g.entries@[3].1 == Value::Primitive(p)),
                Prim::Cdr => assert(g.entries@[4].1 == Value::Primitive(p)),
                Prim::EqP => assert(g.entries@[5].1 == Value::Primitive(p)),
                Prim::PairP => assert(g.entries@[6].1 == Value::Primitive(p)),
                Prim::Not => assert(g.entries@[7].1 == Value::Primitive(p)),
                Prim::NullP => assert(g.entries@[8].1 == Value::Primitive(p)),
                Prim::List => assert(g.entries@[9].1 == Value::Primitive(p)),
                Prim::Add => assert(g.entries@[10].1 == Value::Primitive(p)),
                Prim::Sub => assert(g.entries@[11].1 == Value::Primitive(p)),
                Prim::Mul => assert(g.entries@[12].1 == Value::Primitive(p)),
                Prim::NumEq => assert(g.entries@[13].1 == Value::Primitive(p)),
                Prim::Gt => assert(g.entries@[14].1 == Value::Primitive(p)),
                Prim::Ge => assert(g.entries@[15].1 == Value::Primitive(p)),
                Prim::Lt => assert(g.entries@[16].1 == Value::Primitive(p)),
                Prim::Le => assert(g.entries@[17].1 == Value::Primitive(p)),
            }
        }
    }
    g
}

/// `list` builds the right-nested chain of cells over its arguments, ending in `Nil`.
pub proof fn lemma_list_builds_chain(args: Seq<Value>)
    ensures
        prim_result(Prim::List, args) == Ok::<Value, Seq<char>>(list_of(args, Value::Nil)),
        list_elems(list_of(args, Value::Nil)) == Some(args),
    decreases args.len(),
{
    if args.len() > 0 {
        let rest = args.subrange(1, args.len() as int);
        lemma_list_builds_chain(rest);
        assert(seq![args[0]].add(rest) =~= args);
    } else {
        assert(args =~= Seq::<Value>::empty());
    }
}

/// `(eq? (car (cons a b)) a)` and `(eq? (cdr (cons a b)) b)` hold for all values.
pub proof fn lemma_car_cdr_of_cons(a: Value, b: Value)
    ensures
        prim_result(Prim::Cons, seq![a, b]) == Ok::<Value, Seq<char>>(cell(a, b)),
        prim_result(Prim::Car, seq![cell(a, b)]) == Ok::<Value, Seq<char>>(a),
        prim_result(Prim::Cdr, seq![cell(a, b)]) == Ok::<Value, Seq<char>>(b),
        prim_result(Prim::EqP, seq![a, a]) == Ok::<Value, Seq<char>>(Value::Boolean(true)),
        prim_result(Prim::EqP, seq![b, b]) == Ok::<Value, Seq<char>>(Value::Boolean(true)),
{
    lemma_same_refl(a);
    lemma_same_refl(b);
}

/// The exact product of integer arguments.
pub open spec fn product(args: Seq<Value>) -> int
    decreases args.len(),
{
    if args.len() == 0 { 1 } else { int_of(args[0]) * product(args.subrange(1, args.len() as int)) }
}

/// Each product of `acc` and a prefix of `args` fits in an `i32`.
pub open spec fn partial_products_fit(acc: int, args: Seq<Value>) -> bool {
    forall|k: int| 0 <= k <= args.len() ==> i32::MIN <= #[trigger] (acc * product(args.subrange(0, k))) <= i32::MAX
}

proof fn lemma_wrapping_mul_exact(x: i32, y: i32)
    requires
        i32::MIN <= x * y <= i32::MAX,
    ensures
        x.wrapping_mul(y) == x * y,
{
    let v = x * y;
    assert(v >= 0 ==> v % 4294967296 == v);
    assert(v < 0 ==> v % 4294967296 == v + 4294967296);
}

proof fn lemma_product_prefix(args: Seq<Value>, k: int)
    requires
        1 <= k <= args.len(),
    ensures
        product(args.subrange(0, k)) == int_of(args[0]) * product(args.subrange(1, k)),
{
    assert(args.subrange(0, k).subrange(1, k) =~= args.subrange(1, k));
}

/// Folding with `*` multiplies wherever the partial products fit.
proof fn lemma_fold_mul(acc: i32, args: Seq<Value>)
    requires
        partial_products_fit(acc as int, args),
    ensures
        fold_arith(Prim::Mul, acc, args) == acc * product(args),
    decreases args.len(),
{
    assert(args.subrange(0, 0) =~= Seq::<Value>::empty());
    assert(args.subrange(0, args.len() as int) =~= args);
    if args.len() > 0 {
        let x = int_of(args[0]);
        let rest = args.subrange(1, args.len() as int);
        lemma_product_prefix(args, 1);
        assert(rest.subrange(0, 0) =~= Seq::<Value>::empty());
        assert(args.subrange(1, 1) =~= Seq::<Value>::empty());
        assert(acc * product(args.subrange(0, 1)) == acc * x) by {
            assert(product(args.subrange(1, 1)) == 1);
        }
        lemma_wrapping_mul_exact(acc, x as i32);
        let next = arith(Prim::Mul, acc, x as i32);
        assert(next == acc * x);
        assert forall|k: int| 0 <= k <= rest.len() implies i32::MIN <= #[trigger] (next * product(rest.subrange(0, k))) <= i32::MAX by {
            lemma_product_prefix(args, k + 1);
            assert(args.subrange(1, k + 1) =~= rest.subrange(0, k));
            assert(i32::MIN <= acc * product(args.subrange(0, k + 1)) <= i32::MAX);
            assert(acc * product(args.subrange(0, k + 1)) == acc * (x * product(rest.subrange(0, k))));
            assert(acc * (x * product(rest.subrange(0, k))) == (acc * x) * product(rest.subrange(0, k))) by (nonlinear_arith);
        }
        lemma_fold_mul(next, rest);
        assert(acc * (x * product(rest)) == (acc * x) * product(rest)) by (nonlinear_arith);
    }
}

/// `*` multiplies: on integer arguments whose partial products fit in an
/// `i32`, the result is their product (`1` for none).
pub proof fn lemma_mul_is_product(args: Seq<Value>)
    requires
        all_ints(args),
        partial_products_fit(1, args),
    ensures
        prim_result(Prim::Mul, args) == Ok::<Value, Seq<char>>(Value::Integer(product(args) as i32)),
{
    if args.len() > 0 {
        let x = int_of(args[0]);
        let rest = args.subrange(1, args.len() as int);
        lemma_product_prefix(args, 1);
        assert(args.subrange(1, 1) =~= Seq::<Value>::empty());
        assert forall|k: int| 0 <= k <= rest.len() implies i32::MIN <= #[trigger] ((x as i32) as int * product(rest.subrange(0, k))) <= i32::MAX by {
            lemma_product_prefix(args, k + 1);
            assert(args.subrange(1, k + 1) =~= rest.subrange(0, k));
            assert(i32::MIN <= 1 * product(args.subrange(0, k + 1)) <= i32::MAX);
        }
        assert(i32::MIN <= x <= i32::MAX);
        lemma_fold_mul(x as i32, rest);
    }
}

} // verus!
