//! The parser: tokens to a value tree.
//!
//! `(…)` is a proper list, `(a . b)` a dotted pair, `'x` the shorthand for
//! `(quote x)`; booleans, numbers and identifiers are atoms. The value tree
//! is what the machine reduces.

use vstd::prelude::*;

use crate::error::LispError;
use crate::lexer::Token;
use crate::lexer::TokenM;
use crate::sem::Datum;
use crate::value::Value;

verus! {

/// The result of reading one form: the value or the error, and the position
/// after what was consumed.
pub open spec fn parse_spec(ts: Seq<TokenM>, pos: int) -> (Result<Datum, LispError>, int)
    decreases ts.len() - pos, 0int,
{
    if pos < 0 || pos >= ts.len() {
        (Err(LispError::UnexpectedEnd), pos)
    } else {
        match ts[pos] {
            TokenM::LPER => if pos + 1 < ts.len() && ts[pos + 1] is RPER {
                (Ok(Datum::Null), pos + 2)
            } else {
                parse_list_spec(ts, pos + 1)
            },
            TokenM::BOOL(b) => (Ok(Datum::Bool(b)), pos + 1),
            TokenM::IDENT(s) => (Ok(Datum::Ident(s)), pos + 1),
            TokenM::NUM(n) => (Ok(Datum::Num(n)), pos + 1),
            TokenM::QUOTE => {
                let inner = parse_spec(ts, pos + 1);
                match inner.0 {
                    Ok(d) => (
                        Ok(
                            Datum::Cons(
                                Box::new(Datum::Ident("quote"@)),
                                Box::new(Datum::Cons(Box::new(d), Box::new(Datum::Null))),
                            ),
                        ),
                        inner.1,
                    ),
                    Err(e) => (Err(e), inner.1),
                }
            },
            _ => (Err(LispError::SyntaxError), pos + 1),
        }
    }
}

/// The rest of a list after its opening parenthesis: one element, then the
/// tail.
pub open spec fn parse_list_spec(ts: Seq<TokenM>, pos: int) -> (Result<Datum, LispError>, int)
    decreases ts.len() - pos, 1int,
{
    let head = parse_spec(ts, pos);
    match head.0 {
        Err(e) => (Err(e), head.1),
        Ok(d) => if pos < head.1 <= ts.len() {
            let tail = parse_tail_spec(ts, head.1, Datum::Null);
            match tail.0 {
                Ok(t) => (Ok(Datum::Cons(Box::new(d), Box::new(t))), tail.1),
                Err(e) => (Err(e), tail.1),
            }
        } else {
            (Err(LispError::SyntaxError), head.1)
        },
    }
}

/// What the current tail cell of a partly read list ends up holding. `cur`
/// is what the cell holds now: the empty list at first, and the dotted value
/// once a dot has been read — a dotted value not followed by the closing
/// parenthesis is overwritten by whatever the list goes on with.
pub open spec fn parse_tail_spec(ts: Seq<TokenM>, pos: int, cur: Datum) -> (Result<
    Datum,
    LispError,
>, int)
    decreases ts.len() - pos, 2int,
{
    if pos < 0 || pos >= ts.len() {
        (Err(LispError::SyntaxError), pos)
    } else {
        match ts[pos] {
            TokenM::RPER => (Ok(cur), pos + 1),
            TokenM::DOT => {
                let v = parse_spec(ts, pos + 1);
                match v.0 {
                    Err(e) => (Err(e), v.1),
                    Ok(d) => if v.1 >= ts.len() {
                        (Err(LispError::SyntaxError), v.1)
                    } else if ts[v.1] is RPER {
                        (Ok(d), v.1 + 1)
                    } else if pos < v.1 {
                        parse_tail_spec(ts, v.1 + 1, d)
                    } else {
                        (Err(LispError::SyntaxError), v.1)
                    },
                }
            },
            _ => {
                let v = parse_spec(ts, pos);
                match v.0 {
                    Err(e) => (Err(e), v.1),
                    Ok(d) => if pos < v.1 && v.1 <= ts.len() {
                        let rest = parse_tail_spec(ts, v.1, Datum::Null);
                        match rest.0 {
                            Ok(t) => (Ok(Datum::Cons(Box::new(d), Box::new(t))), rest.1),
                            Err(e) => (Err(e), rest.1),
                        }
                    } else {
                        (Err(LispError::SyntaxError), v.1)
                    },
                }
            },
        }
    }
}

/// Reading one form consumes at least one token and never more than remain.
pub proof fn lemma_parse_spec_adv(ts: Seq<TokenM>, pos: int)
    requires
        0 <= pos <= ts.len(),
    ensures
        pos <= parse_spec(ts, pos).1 <= ts.len(),
        pos < ts.len() ==> pos < parse_spec(ts, pos).1,
    decreases ts.len() - pos, 0int,
{
    if pos < ts.len() {
        match ts[pos] {
            TokenM::LPER => {
                if !(pos + 1 < ts.len() && ts[pos + 1] is RPER) {
                    lemma_parse_list_adv(ts, pos + 1);
                }
            },
            TokenM::QUOTE => {
                lemma_parse_spec_adv(ts, pos + 1);
            },
            _ => {},
        }
    }
}

/// Reading a list's elements stays within the tokens and, where it
/// succeeds, consumes at least one of them.
pub proof fn lemma_parse_list_adv(ts: Seq<TokenM>, pos: int)
    requires
        0 <= pos <= ts.len(),
    ensures
        pos <= parse_list_spec(ts, pos).1 <= ts.len(),
        parse_list_spec(ts, pos).0 is Ok ==> pos < parse_list_spec(ts, pos).1,
    decreases ts.len() - pos, 1int,
{
    lemma_parse_spec_adv(ts, pos);
    let head = parse_spec(ts, pos);
    if head.0 is Ok && pos < head.1 <= ts.len() {
        lemma_parse_tail_adv(ts, head.1, Datum::Null);
    }
}

/// Reading a list's tail stays within the tokens.
pub proof fn lemma_parse_tail_adv(ts: Seq<TokenM>, pos: int, cur: Datum)
    requires
        0 <= pos <= ts.len(),
    ensures
        pos <= parse_tail_spec(ts, pos, cur).1 <= ts.len(),
    decreases ts.len() - pos, 2int,
{
    if pos < ts.len() {
        match ts[pos] {
            TokenM::RPER => {},
            TokenM::DOT => {
                lemma_parse_spec_adv(ts, pos + 1);
                let v = parse_spec(ts, pos + 1);
                if v.0 is Ok && v.1 < ts.len() && !(ts[v.1] is RPER) && pos < v.1 {
                    lemma_parse_tail_adv(ts, v.1 + 1, v.0->Ok_0);
                }
            },
            _ => {
                lemma_parse_spec_adv(ts, pos);
                let v = parse_spec(ts, pos);
                if v.0 is Ok && pos < v.1 && v.1 <= ts.len() {
                    lemma_parse_tail_adv(ts, v.1, Datum::Null);
                }
            },
        }
    }
}

/// Read one form from `tokens` at `pos`, leaving `pos` after what was
/// consumed.
pub fn parse(tokens: &Vec<Token>, pos: &mut usize) -> (r: Result<Value, LispError>)
    ensures
        *old(pos) <= *final(pos) <= tokens@.len() || (*old(pos) >= tokens@.len() && *final(pos)
            == *old(pos)),
        ({
            let sp = parse_spec(crate::lexer::tokens_model(tokens@), *old(pos) as int);
            sp.1 == *final(pos) && match r {
                Ok(v) => sp.0 == Ok::<Datum, LispError>(v@),
                Err(e) => sp.0 == Err::<Datum, LispError>(e),
            }
        }),
    decreases tokens@.len() - *old(pos), 0int,
{
    proof {
        crate::lexer::lemma_tokens_model_index(tokens@);
    }
    let ghost ts0 = crate::lexer::tokens_model(tokens@);
    let ghost p0 = *pos as int;
    let len = tokens.len();
    if *pos >= len {
        return Err(LispError::UnexpectedEnd);
    }
    let at = *pos;
    match &tokens[at] {
        Token::LPER => {
            if at + 1 < len && matches!(&tokens[at + 1], Token::RPER) {
                *pos = at + 2;
                Ok(Value::Null)
            } else {
                *pos = at + 1;
                let rr = parse_list(tokens, pos);
                proof {
                    assert(parse_spec(ts0, p0) == parse_list_spec(ts0, p0 + 1));
                }
                rr
            }
        },
        Token::BOOL(b) => {
            *pos = at + 1;
            proof {
                assert(parse_spec(ts0, p0).1 == *pos as int);
                assert(parse_spec(ts0, p0).0 == Ok::<Datum, LispError>(Datum::Bool(*b)));
            }
            Ok(Value::Bool(*b))
        },
        Token::IDENT(s) => {
            let c = s.clone();
            *pos = at + 1;
            let out_v = Value::Ident(c);
            proof {
                assert(parse_spec(ts0, p0).1 == *pos as int);
                assert(parse_spec(ts0, p0).0 == Ok::<Datum, LispError>(out_v@));
            }
            Ok(out_v)
        },
        Token::NUM(n) => {
            *pos = at + 1;
            proof {
                assert(parse_spec(ts0, p0).1 == *pos as int);
                assert(parse_spec(ts0, p0).0 == Ok::<Datum, LispError>(Datum::Num(*n)));
            }
            Ok(Value::Num(*n))
        },
        Token::QUOTE => {
            *pos = at + 1;
            match parse(tokens, pos) {
                Ok(d) => {
                    let out_v = Value::Cons(
                        Box::new(Value::Ident("quote".to_owned())),
                        Box::new(Value::Cons(Box::new(d), Box::new(Value::Null))),
                    );
                    proof {
                        reveal_with_fuel(crate::sem::value_model, 5);
                        assert(parse_spec(ts0, p0).1 == *pos as int);
                        assert(parse_spec(ts0, p0).0 == Ok::<Datum, LispError>(out_v@));
                    }
                    Ok(out_v)
                },
                Err(e) => Err(e),
            }
        },
        _ => {
            *pos = at + 1;
            Err(LispError::SyntaxError)
        },
    }
}

/// Read the elements of a list after its opening parenthesis.
fn parse_list(tokens: &Vec<Token>, pos: &mut usize) -> (r: Result<Value, LispError>)
    requires
        *old(pos) <= tokens@.len(),
    ensures
        *old(pos) <= *final(pos) <= tokens@.len(),
        ({
            let sp = parse_list_spec(crate::lexer::tokens_model(tokens@), *old(pos) as int);
            sp.1 == *final(pos) && match r {
                Ok(v) => sp.0 == Ok::<Datum, LispError>(v@),
                Err(e) => sp.0 == Err::<Datum, LispError>(e),
            }
        }),
    decreases tokens@.len() - *old(pos), 1int,
{
    proof {
        crate::lexer::lemma_tokens_model_index(tokens@);
        lemma_parse_spec_adv(crate::lexer::tokens_model(tokens@), *old(pos) as int);
    }
    let head = match parse(tokens, pos) {
        Ok(v) => v,
        Err(e) => {
            return Err(e);
        },
    };
    match parse_tail(tokens, pos, Value::Null) {
        Ok(t) => Ok(Value::Cons(Box::new(head), Box::new(t))),
        Err(e) => Err(e),
    }
}

/// Read the rest of a list: elements until the closing parenthesis, with a
/// lone dot reading the tail value.
fn parse_tail(tokens: &Vec<Token>, pos: &mut usize, cur: Value) -> (r: Result<Value, LispError>)
    requires
        *old(pos) <= tokens@.len(),
    ensures
        *old(pos) <= *final(pos) <= tokens@.len(),
        ({
            let sp = parse_tail_spec(
                crate::lexer::tokens_model(tokens@),
                *old(pos) as int,
                cur@,
            );
            sp.1 == *final(pos) && match r {
                Ok(v) => sp.0 == Ok::<Datum, LispError>(v@),
                Err(e) => sp.0 == Err::<Datum, LispError>(e),
            }
        }),
    decreases tokens@.len() - *old(pos), 2int,
{
    proof {
        crate::lexer::lemma_tokens_model_index(tokens@);
        if *old(pos) < tokens@.len() {
            lemma_parse_spec_adv(crate::lexer::tokens_model(tokens@), *old(pos) as int);
        }
    }
    let len = tokens.len();
    if *pos >= len {
        return Err(LispError::SyntaxError);
    }
    let at = *pos;
    match &tokens[at] {
        Token::RPER => {
            *pos = at + 1;
            Ok(cur)
        },
        Token::DOT => {
            *pos = at + 1;
            let d = match parse(tokens, pos) {
                Ok(v) => v,
                Err(e) => {
                    return Err(e);
                },
            };
            if *pos >= len {
                return Err(LispError::SyntaxError);
            }
            if matches!(&tokens[*pos], Token::RPER) {
                *pos = *pos + 1;
                Ok(d)
            } else {
                *pos = *pos + 1;
                parse_tail(tokens, pos, d)
            }
        },
        _ => {
            let d = match parse(tokens, pos) {
                Ok(v) => v,
                Err(e) => {
                    return Err(e);
                },
            };
            match parse_tail(tokens, pos, Value::Null) {
                Ok(t) => Ok(Value::Cons(Box::new(d), Box::new(t))),
                Err(e) => Err(e),
            }
        },
    }
}

} // verus!
