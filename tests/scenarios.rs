use secd::compiler::Ast;
use secd::primitive::define_primitives;
use secd::reader::read;
use secd::value::{Env, Value};
use secd::vm::{Global, Machine};

fn eval_all(text: &str, global: &mut Global, out: &mut Vec<String>) -> Result<Value, String> {
    let forms = read(text)?;
    let mut last = Value::Undefined;
    for form in forms.iter() {
        let code = form.compile(global)?;
        last = Machine::run(Env::Empty, code, global, out)?;
    }
    Ok(last)
}

fn output_of(text: &str) -> Vec<String> {
    let mut global = define_primitives();
    let mut out = Vec::new();
    eval_all(text, &mut global, &mut out).unwrap();
    out
}

fn error_of(text: &str) -> String {
    let mut global = define_primitives();
    let mut out = Vec::new();
    match eval_all(text, &mut global, &mut out) {
        Ok(_) => panic!("expected an error"),
        Err(e) => e,
    }
}

fn value_text(text: &str) -> String {
    let mut global = define_primitives();
    let mut out = Vec::new();
    eval_all(text, &mut global, &mut out).unwrap().to_text()
}

#[test]
fn print_sum() {
    assert_eq!(output_of("(print (+ 1 2 3))"), vec!["6"]);
}

#[test]
fn factorial() {
    let src = "(define (fact n) (if (= n 0) 1 (* n (fact (- n 1))))) (print (fact 5))";
    assert_eq!(output_of(src), vec!["120"]);
}

#[test]
fn when_macro() {
    let src = "(define-macro (when p . body) (list 'if p (cons 'begin body) (list 'undefined))) (print (when #t 1 2 3))";
    assert_eq!(output_of(src), vec!["3"]);
}

#[test]
fn macro_with_false_condition() {
    let src = "(define-macro (when p . body) (list 'if p (cons 'begin body) (list 'undefined))) (print (when #f 1 2 3))";
    assert_eq!(output_of(src), vec!["#<undefined>"]);
}

#[test]
fn rest_parameter() {
    assert_eq!(output_of("((lambda (x . rest) (print x) (print rest)) 1 2 3)"), vec!["1", "(2 3)"]);
}

#[test]
fn if_without_alternative() {
    assert_eq!(output_of("(print (if #f 1))"), vec!["#<undefined>"]);
}

#[test]
fn quoted_improper_list() {
    assert_eq!(output_of("(print '(a b . c))"), vec!["(a b . c)"]);
}

#[test]
fn list_builds_proper_chain() {
    assert_eq!(value_text("(list 1 2 3)"), "(1 2 3)");
    assert_eq!(value_text("(cdr (cdr (cdr (list 1 2 3))))"), "()");
    assert_eq!(value_text("(list)"), "()");
}

#[test]
fn evaluating_twice_gives_equal_values() {
    let mut global = define_primitives();
    let mut out = Vec::new();
    let a = eval_all("(cons (+ 1 2) '(x y))", &mut global, &mut out).unwrap();
    let b = eval_all("(cons (+ 1 2) '(x y))", &mut global, &mut out).unwrap();
    assert!(secd::value::values_equal(&a, &b));
}

#[test]
fn car_and_cdr_of_cons() {
    assert_eq!(output_of("(print (eq? (car (cons 1 'b)) 1) (eq? (cdr (cons 1 'b)) 'b))"), vec!["#t#t"]);
    assert_eq!(value_text("(eq? (car (cons '(1 2) 3)) '(1 2))"), "#t");
}

#[test]
fn inner_binding_shadows_outer() {
    assert_eq!(value_text("((lambda (x) ((lambda (x) x) 2)) 1)"), "2");
    assert_eq!(value_text("(define x 10) ((lambda (x) x) 3)"), "3");
    assert_eq!(value_text("((lambda (x) ((lambda (y) x) 2)) 1)"), "1");
}

#[test]
fn symbol_parameter_takes_all_arguments() {
    assert_eq!(value_text("((lambda x x) 1 2 3)"), "(1 2 3)");
    assert_eq!(value_text("((lambda x x))"), "()");
}

#[test]
fn multiplication_multiplies() {
    assert_eq!(value_text("(* 2 3 4)"), "24");
    assert_eq!(value_text("(*)"), "1");
    assert_eq!(value_text("(+)"), "0");
}

#[test]
fn subtraction() {
    assert_eq!(value_text("(- 5)"), "-5");
    assert_eq!(value_text("(- 10 1 2)"), "7");
    assert_eq!(error_of("(-)"), "wrong number of arguments: -");
}

#[test]
fn chained_comparisons() {
    assert_eq!(value_text("(< 1 2 3)"), "#t");
    assert_eq!(value_text("(< 1 3 2)"), "#f");
    assert_eq!(value_text("(>= 3 3 1)"), "#t");
    assert_eq!(value_text("(= 2 2 2)"), "#t");
    assert_eq!(error_of("(< 1)"), "wrong number of arguments: <");
    assert_eq!(error_of("(<= 1 'a)"), "all arguments must be integers: <=");
}

#[test]
fn predicates() {
    assert_eq!(value_text("(pair? '(1))"), "#t");
    assert_eq!(value_text("(pair? '())"), "#f");
    assert_eq!(value_text("(null? '())"), "#t");
    assert_eq!(value_text("(not #f)"), "#t");
    assert_eq!(value_text("(not 0)"), "#f");
    assert_eq!(value_text("(undefined)"), "#<undefined>");
}

#[test]
fn empty_begin_is_zero() {
    assert_eq!(value_text("(begin)"), "0");
    assert_eq!(value_text("(begin 1 2 3)"), "3");
}

#[test]
fn closures_capture_their_environment() {
    let src = "(define (adder n) (lambda (m) (+ n m))) (define add5 (adder 5)) (add5 10)";
    assert_eq!(value_text(src), "15");
}

#[test]
fn printing_of_procedures() {
    assert_eq!(value_text("car"), "#<subr>");
    assert_eq!(value_text("(lambda (x) x)"), "#<closure>");
    assert_eq!(value_text("(define-macro (m) 1) m"), "#<macro>");
}

#[test]
fn errors_from_the_compiler() {
    assert_eq!(error_of("(quote)"), "malformed quote");
    assert_eq!(error_of("(define x)"), "malformed define");
    assert_eq!(error_of("(define 1 2)"), "malformed define");
    assert_eq!(error_of("(define-macro x)"), "malformed define-macro");
    assert_eq!(error_of("(if 1)"), "malformed if");
    assert_eq!(error_of("(if 1 2 3 4)"), "malformed if");
    assert_eq!(error_of("(f . x)"), "proper list required");
}

#[test]
fn errors_from_the_machine() {
    assert_eq!(error_of("nothing"), "unbound variable: nothing");
    assert_eq!(error_of("(1 2)"), "Runtime error: App");
    assert_eq!(error_of("(car 1)"), "pair required: car");
    assert_eq!(error_of("(cdr 1)"), "pair required: cdr");
    assert_eq!(error_of("(cons 1)"), "wrong number of arguments: cons");
    assert_eq!(error_of("(+ 1 'a)"), "all arguments must be integers: +");
    assert_eq!(error_of("(define-macro m 1)"), "Runtime error: Defm");
}

#[test]
fn globals_persist_between_forms() {
    assert_eq!(value_text("(define x 4) (define y (+ x 1)) (* x y)"), "20");
}

#[test]
fn tree_round_trip_through_values() {
    let forms = read("(a (b 1) #t . c)").unwrap();
    let tree = &forms[0];
    let back = tree.to_value().to_ast().unwrap();
    assert_eq!(back.to_value().to_text(), "(a (b 1) #t . c)");
    assert!(secd::value::values_equal(&back.to_value(), &tree.to_value()));
}

#[test]
fn unprintable_values_do_not_read_back() {
    assert!(Value::Undefined.to_ast().is_none());
    let v = Value::cons(Value::Integer(1), Value::Undefined);
    assert!(v.to_ast().is_none());
    assert!(Value::Nil.to_ast().is_some());
}

#[test]
fn integers_print_in_decimal() {
    assert_eq!(Value::Integer(-2147483648).to_text(), "-2147483648");
    assert_eq!(Value::Integer(0).to_text(), "0");
    assert_eq!(value_text("-42"), "-42");
}

#[test]
fn reader_shapes() {
    let forms = read("; comment\n 'x `y ,z ,@w #f").unwrap();
    assert_eq!(forms.len(), 5);
    assert_eq!(forms[0].to_value().to_text(), "(quote x)");
    assert_eq!(forms[1].to_value().to_text(), "(quasiquote y)");
    assert_eq!(forms[2].to_value().to_text(), "(unquote z)");
    assert_eq!(forms[3].to_value().to_text(), "(unquote-splicing w)");
    assert_eq!(forms[4].to_value().to_text(), "#f");
    assert!(read("#x").is_err());
    assert!(read("(1 2").is_err());
}

#[test]
fn new_list_and_symbol() {
    let l = Ast::new_list(&[Ast::new_symbol("a"), Ast::Integer(1)], Ast::new_symbol("b"));
    assert_eq!(l.to_value().to_text(), "(a 1 . b)");
    let c = Value::cons(Value::Integer(1), Value::Nil);
    assert_eq!(c.car().unwrap().to_text(), "1");
    assert_eq!(c.cdr().unwrap().to_text(), "()");
    assert!(Value::Nil.car().is_none());
}

#[test]
fn vec2cons_builds_a_list() {
    let v = secd::value::vec2cons(&[Value::Integer(1), Value::Integer(2)], Value::Symbol("t".to_string()));
    assert_eq!(v.to_text(), "(1 2 . t)");
}

#[test]
fn procedures_compare_by_code_and_environment() {
    assert_eq!(value_text("(define f (lambda (x) x)) (eq? f f)"), "#t");
    assert_eq!(value_text("(eq? (lambda (x) x) (lambda (y) y))"), "#t");
    assert_eq!(value_text("(eq? (lambda (x) x) (lambda (x) 1))"), "#f");
    assert_eq!(value_text("(define (k a) (lambda () a)) (eq? (k 1) (k 2))"), "#f");
    assert_eq!(value_text("(eq? car car)"), "#t");
    assert_eq!(value_text("(eq? car cdr)"), "#f");
    assert_eq!(value_text("(eq? (car (cons car 1)) car)"), "#t");
}

#[test]
fn macro_expansion_of_unprintable_result_fails() {
    assert_eq!(error_of("(define-macro (m) (undefined)) (m)"), "unprintable macro expansion");
}

#[test]
fn primitive_table_names_every_primitive() {
    let g = define_primitives();
    for name in ["print", "undefined", "cons", "car", "cdr", "eq?", "pair?", "not", "null?", "list", "+", "-", "*", "=", ">", ">=", "<", "<="] {
        let v = g.get(&name.to_string()).unwrap();
        assert_eq!(v.to_text(), "#<subr>");
    }
    assert!(g.get(&"nothing".to_string()).is_none());
}

#[test]
fn later_definition_hides_earlier() {
    assert_eq!(value_text("(define x 1) (define x 2) x"), "2");
}

#[test]
fn reader_integer_range() {
    assert!(read("2147483647").is_ok());
    assert!(read("-2147483648").is_ok());
    assert_eq!(value_text("-2147483648"), "-2147483648");
    assert!(read("2147483648").is_err());
    assert!(read("4294967295").is_err());
    assert!(read("-2147483649").is_err());
    assert!(read("99999999999999999999").is_err());
}

#[test]
fn reader_dotted_and_nested() {
    let forms = read("(a . (b c)) ( 1 ( 2 ) . x ) ()").unwrap();
    assert_eq!(forms.len(), 3);
    assert_eq!(forms[0].to_value().to_text(), "(a b c)");
    assert_eq!(forms[1].to_value().to_text(), "(1 (2) . x)");
    assert_eq!(forms[2].to_value().to_text(), "()");
    assert!(read("").is_err());
    assert!(read("  ; only a comment\n").is_err());
    assert!(read("(a . b c)").is_err());
}

#[test]
fn macro_call_compiles_as_its_expansion() {
    let mut global = define_primitives();
    let mut out = Vec::new();
    eval_all("(define-macro (when p . body) (list 'if p (cons 'begin body) (list 'undefined)))", &mut global, &mut out).unwrap();
    let call = read("(when #t 1 2 3)").unwrap();
    let expansion = read("(if #t (begin 1 2 3) (undefined))").unwrap();
    let a = call[0].compile(&global).unwrap();
    let b = expansion[0].compile(&global).unwrap();
    let ra = Machine::run(Env::Empty, a, &mut global, &mut out).unwrap();
    let rb = Machine::run(Env::Empty, b, &mut global, &mut out).unwrap();
    assert_eq!(ra.to_text(), "3");
    assert_eq!(rb.to_text(), "3");
}

#[test]
fn nested_macro_expansion() {
    let src = "(define-macro (twice e) (list 'begin e e)) (define-macro (thrice e) (list 'begin e (list 'twice e))) (thrice (print 1))";
    assert_eq!(output_of(src), vec!["1", "1", "1"]);
}

#[test]
fn non_ascii_comments_are_skipped() {
    assert_eq!(value_text("; caf\u{e9} \u{2603}\n(+ 1 2) ; \u{e9}t\u{e9}"), "3");
    assert!(read("(a \u{e9})").is_err());
}
