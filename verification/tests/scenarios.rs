//! End-to-end scenarios: whole source texts through the lexer, the parser
//! and the machine, checked against their printed results.

use rust_lisp::env::Env;
use rust_lisp::error::LispError;

fn run(src: &str) -> Result<Vec<String>, LispError> {
    let chars: Vec<char> = src.chars().collect();
    let mut heap = Env::new_default();
    let values = rust_lisp::driver::run_text(&chars, &mut heap, 0, u64::MAX)?;
    Ok(values.iter().map(|v| v.to_text()).collect())
}

#[test]
fn addition_of_three() {
    assert_eq!(run("(+ 1 2 3)").unwrap(), vec!["6".to_string()]);
}

#[test]
fn factorial_of_five() {
    let out = run("(define (fact n) (if (= n 0) 1 (* n (fact (- n 1))))) (fact 5)").unwrap();
    assert_eq!(out, vec!["#t".to_string(), "120".to_string()]);
}

#[test]
fn lambda_application() {
    assert_eq!(run("((lambda (x y) (+ x y)) 3 4)").unwrap(), vec!["7".to_string()]);
}

#[test]
fn car_of_cdr() {
    assert_eq!(run("(car (cdr '(1 2 3)))").unwrap(), vec!["2".to_string()]);
}

#[test]
fn continuation_escapes_addition() {
    let out = run("(+ 1 (call/cc (lambda (k) (+ 20 (k 10)))))").unwrap();
    assert_eq!(out, vec!["11".to_string()]);
}

#[test]
fn million_tail_calls_complete() {
    let out = run("(define (loop n) (if (= n 0) 'done (loop (- n 1)))) (loop 1000000)").unwrap();
    assert_eq!(out, vec!["#t".to_string(), "done".to_string()]);
}
