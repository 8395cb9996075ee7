//! Unit tests of the pieces: values, numbers, the environment store, the
//! lexer, the parser and the evaluator's own interface.

use rust_lisp::env::ChainMap;
use rust_lisp::env::Env;
use rust_lisp::error::LispError;
use rust_lisp::eval::eval;
use rust_lisp::lexer::is_identifier_char;
use rust_lisp::lexer::tokenize;
use rust_lisp::lexer::Lexer;
use rust_lisp::lexer::Token;
use rust_lisp::parser::parse;
use rust_lisp::value::Value;

fn bits(x: f64) -> u64 {
    x.to_bits()
}

#[test]
fn num_equality_follows_ieee() {
    assert!(rust_lisp::num::num_eq(bits(1.5), bits(1.5)));
    assert!(rust_lisp::num::num_eq(bits(0.0), bits(-0.0)));
    assert!(!rust_lisp::num::num_eq(bits(f64::NAN), bits(f64::NAN)));
    assert!(!rust_lisp::num::num_eq(bits(1.0), bits(2.0)));
}

#[test]
fn num_arithmetic_matches_hardware() {
    assert_eq!(rust_lisp::num::num_add(bits(1.5), bits(2.25)), bits(3.75));
    assert_eq!(rust_lisp::num::num_sub(bits(10.0), bits(3.0)), bits(7.0));
    assert_eq!(rust_lisp::num::num_mul(bits(6.0), bits(7.0)), bits(42.0));
    assert_eq!(rust_lisp::num::num_div(bits(1.0), bits(0.0)), bits(f64::INFINITY));
}

#[test]
fn num_text_round_trips() {
    for x in [0.0f64, 1.0, -1.0, 0.5, 0.1, 120.0, 1.0e30, -2.5e-7] {
        let t: String = rust_lisp::num::num_text(bits(x)).iter().collect();
        let back = rust_lisp::num::num_parse(&t).unwrap();
        assert_eq!(back, bits(x));
    }
}

#[test]
fn numbers_print_as_shortest_positional_decimals() {
    assert_eq!(rust_lisp::decimal::format_num(bits(0.1)), "0.1");
    assert_eq!(rust_lisp::decimal::format_num(bits(6.0)), "6");
    assert_eq!(rust_lisp::decimal::format_num(bits(10000.0)), "10000");
    assert_eq!(rust_lisp::decimal::format_num(bits(-3.5)), "-3.5");
    assert_eq!(rust_lisp::decimal::format_num(bits(0.25)), "0.25");
    assert_eq!(rust_lisp::decimal::format_num(bits(1.0e12)), "1000000000000");
    assert_eq!(rust_lisp::decimal::format_num(bits(0.001)), "0.001");
    assert_eq!(rust_lisp::decimal::format_num(bits(1.0 / 3.0)), "0.3333333333333333");
    assert_eq!(rust_lisp::decimal::format_num(bits(0.0)), "0");
    assert_eq!(rust_lisp::decimal::format_num(bits(-0.0)), "-0");
    assert_eq!(rust_lisp::decimal::format_num(bits(f64::INFINITY)), "+Inf");
    assert_eq!(rust_lisp::decimal::format_num(bits(f64::NAN)), "NaN");
    for x in [0.1f64, 12345.678, 9.25e-4, 2.0f64.powi(60), -7.125] {
        let printed = rust_lisp::decimal::format_num(bits(x));
        assert_eq!(printed, format!("{}", x));
    }
}

#[test]
fn num_parse_reads_literals() {
    assert_eq!(rust_lisp::num::num_parse(&"6".to_string()), Some(bits(6.0)));
    assert_eq!(rust_lisp::num::num_parse(&"-1.5".to_string()), Some(bits(-1.5)));
    assert_eq!(rust_lisp::num::num_parse(&"abc".to_string()), None);
    assert_eq!(rust_lisp::num::num_parse(&"+".to_string()), None);
    assert_eq!(rust_lisp::num::num_parse(&"-".to_string()), None);
}

#[test]
fn identifier_characters() {
    for c in ['a', 'Z', '0', '9', '-', '.', '/', ':', '<', '=', '>', '?', '@', '_', '*', '+',
        '!', '$', '%', '&', '^', '~'] {
        assert!(is_identifier_char(c));
    }
    for c in ['(', ')', '{', '}', '\'', '#', ' ', '\n', ';', '"'] {
        assert!(!is_identifier_char(c));
    }
}

#[test]
fn lexer_scans_tokens() {
    let chars: Vec<char> = "(+ 1 #t) 'x".chars().collect();
    let mut lx = Lexer::new(chars);
    assert!(matches!(lx.next_token(), Some(Ok(Token::LPER))));
    match lx.next_token() {
        Some(Ok(Token::IDENT(s))) => assert_eq!(s, "+"),
        other => panic!("wanted the identifier +, got {:?}", other.is_some()),
    }
    match lx.next_token() {
        Some(Ok(Token::NUM(n))) => assert_eq!(n, bits(1.0)),
        _ => panic!("wanted a number"),
    }
    assert!(matches!(lx.next_token(), Some(Ok(Token::BOOL(true)))));
    assert!(matches!(lx.next_token(), Some(Ok(Token::RPER))));
    assert!(matches!(lx.next_token(), Some(Ok(Token::QUOTE))));
    match lx.next_token() {
        Some(Ok(Token::IDENT(s))) => assert_eq!(s, "x"),
        _ => panic!("wanted the identifier x"),
    }
    assert!(lx.next_token().is_none());
}

#[test]
fn lexer_follows_the_literal_grammar() {
    let toks = |src: &str| tokenize(&src.chars().collect()).unwrap();
    assert!(matches!(toks("inf")[0], Token::NUM(n) if n == bits(f64::INFINITY)));
    assert!(matches!(toks("-Infinity")[0], Token::NUM(n) if n == bits(f64::NEG_INFINITY)));
    assert!(matches!(toks("NaN")[0], Token::NUM(n) if f64::from_bits(n).is_nan()));
    assert!(matches!(toks("1e3")[0], Token::NUM(n) if n == bits(1000.0)));
    // a trailing point ends the run early: the dot token, as ever
    assert!(matches!(toks("1.")[0], Token::DOT));
    assert!(matches!(&toks("0x1p3")[0], Token::IDENT(s) if s == "0x1p3"));
    assert!(matches!(&toks("nan0x1")[0], Token::IDENT(s) if s == "nan0x1"));
    assert!(matches!(&toks("1e")[0], Token::IDENT(s) if s == "1e"));
    assert!(matches!(&toks("1.2.3")[0], Token::IDENT(s) if s == "1.2.3"));
}

#[test]
fn lexer_reads_dots_and_braces() {
    let chars: Vec<char> = "{ . }".chars().collect();
    let ts = tokenize(&chars).unwrap();
    assert!(matches!(ts[0], Token::LBRACE));
    assert!(matches!(ts[1], Token::DOT));
    assert!(matches!(ts[2], Token::RBRACE));
}

#[test]
fn parser_reads_forms() {
    let chars: Vec<char> = "(a (b) . c)".chars().collect();
    let ts = tokenize(&chars).unwrap();
    let mut pos: usize = 0;
    let v = parse(&ts, &mut pos).unwrap();
    assert_eq!(v.to_text(), "(a (b) . c)");
    assert_eq!(pos, ts.len());
}

#[test]
fn parser_rejects_stray_closer() {
    let chars: Vec<char> = ")".chars().collect();
    let ts = tokenize(&chars).unwrap();
    let mut pos: usize = 0;
    assert_eq!(parse(&ts, &mut pos).unwrap_err(), LispError::SyntaxError);
}

#[test]
fn parser_reports_empty_input() {
    let ts: Vec<Token> = Vec::new();
    let mut pos: usize = 0;
    assert_eq!(parse(&ts, &mut pos).unwrap_err(), LispError::UnexpectedEnd);
}

#[test]
fn value_accessors() {
    assert!(Value::Null.try_into_nil().is_ok());
    assert!(Value::Bool(true).try_into_nil().is_err());
    assert_eq!(Value::Bool(true).try_into_bool().unwrap(), true);
    assert_eq!(Value::Num(bits(2.0)).try_into_num().unwrap(), bits(2.0));
    assert_eq!(Value::Ident("x".to_string()).try_into_ident().unwrap(), "x");
    let pair = Value::Cons(Box::new(Value::Num(bits(1.0))), Box::new(Value::Null));
    let (car, cdr) = pair.try_into_cons().unwrap();
    assert!(car.eqv(&Value::Num(bits(1.0))));
    assert!(cdr.eqv(&Value::Null));
}

#[test]
fn list_elements_walk() {
    let list = Value::Cons(
        Box::new(Value::Num(bits(1.0))),
        Box::new(Value::Cons(Box::new(Value::Num(bits(2.0))), Box::new(Value::Null))),
    );
    let items = list.into_list_iter();
    assert_eq!(items.len(), 2);
    assert!(items[0].eqv(&Value::Num(bits(1.0))));
    assert!(items[1].eqv(&Value::Num(bits(2.0))));
    assert_eq!(Value::Null.into_list_iter().len(), 0);
}

#[test]
fn chain_map_lookup_and_shadowing() {
    let mut m = ChainMap::new();
    m.insert(0, "a".to_string(), Value::Num(bits(1.0)));
    let inner = m.extend(0);
    m.insert(inner, "a".to_string(), Value::Num(bits(2.0)));
    assert!(m.get(inner, &"a".to_string()).unwrap().eqv(&Value::Num(bits(2.0))));
    assert!(m.get(0, &"a".to_string()).unwrap().eqv(&Value::Num(bits(1.0))));
    assert!(m.get(inner, &"b".to_string()).is_none());
    m.insert(0, "b".to_string(), Value::Bool(true));
    assert!(m.get(inner, &"b".to_string()).unwrap().eqv(&Value::Bool(true)));
    m.insert(0, "a".to_string(), Value::Num(bits(3.0)));
    assert!(m.get(0, &"a".to_string()).unwrap().eqv(&Value::Num(bits(3.0))));
}

#[test]
fn eval_spends_its_steps() {
    let mut heap = Env::new_default();
    let r = eval(Value::Num(bits(1.0)), 0, &mut heap, 0, false);
    assert_eq!(r.unwrap_err(), LispError::OutOfSteps);
    let r2 = eval(Value::Num(bits(1.0)), 0, &mut heap, 10, false);
    assert!(r2.unwrap().eqv(&Value::Num(bits(1.0))));
}

#[test]
fn error_texts() {
    assert_eq!(LispError::SyntaxError.text(), "syntax error");
    assert_eq!(LispError::TypeMismatch.text(), "type mismatch");
    assert_eq!(LispError::UnboundVariable.text(), "unbound variable");
    assert_eq!(LispError::InvalidApplication.text(), "invalid application");
    assert_eq!(LispError::InternalError.text(), "internal error");
    assert_eq!(LispError::LexError.text(), "lexer error");
    assert_eq!(LispError::UnexpectedEnd.text(), "unexpected end of input");
    assert_eq!(LispError::OutOfSteps.text(), "out of steps");
}

#[test]
fn values_clone_deeply() {
    let v = Value::Cons(
        Box::new(Value::Ident("a".to_string())),
        Box::new(Value::Num(bits(2.0))),
    );
    let w = v.clone();
    assert!(v.eqv(&w));
}
