//! The language's behaviour: scoping, closures, continuations, `if`,
//! equality, errors, and the printed forms.

use rust_lisp::env::Env;
use rust_lisp::error::LispError;

fn run(src: &str) -> Result<Vec<String>, LispError> {
    let chars: Vec<char> = src.chars().collect();
    let mut heap = Env::new_default();
    let values = rust_lisp::driver::run_text(&chars, &mut heap, 0, u64::MAX)?;
    Ok(values.iter().map(|v| v.to_text()).collect())
}

fn run_last(src: &str) -> String {
    run(src).unwrap().pop().unwrap()
}

#[test]
fn quote_is_identity_for_atoms() {
    assert_eq!(run_last("(eqv? (quote a) (quote a))"), "#t");
    assert_eq!(run_last("(eqv? (quote 1) (quote 1))"), "#t");
    assert_eq!(run_last("(eqv? (quote #t) (quote #t))"), "#t");
    assert_eq!(run_last("(eqv? (quote ()) (quote ()))"), "#t");
}

#[test]
fn eqv_is_structural_on_pairs() {
    assert_eq!(run_last("(eqv? '(1 2) '(1 2))"), "#t");
    assert_eq!(run_last("(eqv? '(1 2) '(1 3))"), "#f");
    assert_eq!(run_last("(eqv? '(1 . 2) '(1 . 2))"), "#t");
}

#[test]
fn eqv_on_one_argument_is_true() {
    assert_eq!(run_last("(eqv? 5)"), "#t");
    assert_eq!(run_last("(= 5)"), "#t");
}

#[test]
fn nan_is_not_eqv_to_itself() {
    assert_eq!(run_last("(eqv? (/ 0 0) (/ 0 0))"), "#f");
}

#[test]
fn lexical_scope() {
    assert_eq!(run_last("((lambda (x) ((lambda (y) x) 2)) 1)"), "1");
    assert_eq!(run_last("((lambda (x) ((lambda (x) x) 2)) 1)"), "2");
}

#[test]
fn closure_captures_environment_by_reference() {
    let out = run("(define a 1) (define f (lambda () a)) (define a 2) (f)").unwrap();
    assert_eq!(out, vec!["#t", "#t", "#t", "2"]);
}

#[test]
fn define_returns_true_and_binds() {
    let out = run("(define x 41) (+ x 1)").unwrap();
    assert_eq!(out, vec!["#t", "42"]);
}

#[test]
fn define_function_sugar() {
    let out = run("(define (inc x) (+ x 1)) (inc 2)").unwrap();
    assert_eq!(out, vec!["#t", "3"]);
}

#[test]
fn continuation_round_trip() {
    assert_eq!(run_last("(call/cc (lambda (k) (k 42)))"), "42");
    assert_eq!(run_last("(+ 1 (call/cc (lambda (k) (k 10))))"), "11");
}

#[test]
fn continuation_prints_as_subr() {
    assert_eq!(run_last("(call/cc (lambda (k) k))"), "#<subr continuation>");
}

#[test]
fn if_picks_branches() {
    assert_eq!(run_last("(if #f 'a 'b)"), "b");
    assert_eq!(run_last("(if #t 'a 'b)"), "a");
    assert_eq!(run_last("(if #f 'a)"), "()");
}

#[test]
fn if_rejects_non_boolean_test() {
    assert_eq!(run("(if '() 'a 'b)").unwrap_err(), LispError::TypeMismatch);
}

#[test]
fn arity_shortfall_is_a_syntax_error() {
    assert_eq!(run("((lambda (x y) x) 1)").unwrap_err(), LispError::SyntaxError);
}

#[test]
fn numbers_print_shortest() {
    assert_eq!(run_last("0.1"), "0.1");
    assert_eq!(run_last("10000"), "10000");
    assert_eq!(run_last("(/ 1 3)"), "0.3333333333333333");
    assert_eq!(run_last("inf"), "+Inf");
    assert_eq!(run_last("nan"), "NaN");
}

#[test]
fn arithmetic() {
    assert_eq!(run_last("(+)"), "0");
    assert_eq!(run_last("(*)"), "1");
    assert_eq!(run_last("(- 10 1 2)"), "7");
    assert_eq!(run_last("(* 2 3 4)"), "24");
    assert_eq!(run_last("(/ 8 2 2)"), "2");
    assert_eq!(run_last("(+ 1.5 2.25)"), "3.75");
    assert_eq!(run_last("(- 3)"), "3");
}

#[test]
fn division_by_zero_follows_ieee() {
    assert_eq!(run_last("(/ 1 0)"), "+Inf");
    assert_eq!(run_last("(/ -1 0)"), "-Inf");
}

#[test]
fn numeric_comparison() {
    assert_eq!(run_last("(= 1 1 1)"), "#t");
    assert_eq!(run_last("(= 1 2)"), "#f");
    assert_eq!(run_last("(= 0 -0)"), "#t");
}

#[test]
fn cons_car_cdr() {
    assert_eq!(run_last("(cons 1 2)"), "(1 . 2)");
    assert_eq!(run_last("(cons 1 '(2 3))"), "(1 2 3)");
    assert_eq!(run_last("(car (cons 1 2))"), "1");
    assert_eq!(run_last("(cdr (cons 1 2))"), "2");
}

#[test]
fn printed_forms() {
    assert_eq!(run_last("'(1 2 3)"), "(1 2 3)");
    assert_eq!(run_last("'(1 (2 3) ())"), "(1 (2 3) ())");
    assert_eq!(run_last("'(1 . 2)"), "(1 . 2)");
    assert_eq!(run_last("''a"), "(quote a)");
    assert_eq!(run_last("(lambda (x) x)"), "#<closure (x) x>");
    assert_eq!(run_last("if"), "#<syntax if>");
    assert_eq!(run_last("cons"), "#<subr cons>");
    assert_eq!(run_last("()"), "()");
}

#[test]
fn print_returns_true() {
    assert_eq!(run_last("(print 1 2)"), "#t");
    assert_eq!(run_last("(print-env)"), "#t");
}

#[test]
fn unbound_variable_is_reported() {
    assert_eq!(run("nowhere").unwrap_err(), LispError::UnboundVariable);
}

#[test]
fn applying_a_number_is_invalid() {
    assert_eq!(run("(1 2)").unwrap_err(), LispError::InvalidApplication);
}

#[test]
fn car_of_number_is_a_type_mismatch() {
    assert_eq!(run("(car 1)").unwrap_err(), LispError::TypeMismatch);
}

#[test]
fn quote_without_argument_is_a_syntax_error() {
    assert_eq!(run("(quote)").unwrap_err(), LispError::SyntaxError);
}

#[test]
fn open_list_is_unexpected_end() {
    assert_eq!(run("(+ 1 2").unwrap_err(), LispError::SyntaxError);
    assert_eq!(run("(").unwrap_err(), LispError::UnexpectedEnd);
}

#[test]
fn bad_hash_is_a_lexer_error() {
    assert_eq!(run("#x").unwrap_err(), LispError::LexError);
}

#[test]
fn printing_reparses_to_an_equal_value() {
    // Printing then reading back a tree of lists, numbers, booleans and
    // identifiers yields a structurally equal value.
    let src = "'(a 1 #t () (b 2.5 #f) -3)";
    let chars: Vec<char> = src.chars().collect();
    let mut heap = Env::new_default();
    let values = rust_lisp::driver::run_text(&chars, &mut heap, 0, u64::MAX).unwrap();
    let printed = values[0].to_text();
    let reread_chars: Vec<char> = printed.chars().collect();
    let tokens = rust_lisp::lexer::tokenize(&reread_chars).unwrap();
    let mut pos: usize = 0;
    let reread = rust_lisp::parser::parse(&tokens, &mut pos).unwrap();
    assert!(values[0].eqv(&reread));
    assert_eq!(reread.to_text(), printed);
}
