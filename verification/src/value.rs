//! The runtime value model: a tagged sum over every Lisp datum.
//!
//! Numbers are carried as the bit pattern of an IEEE-754 double, so that the
//! whole value tree is made of plain data; the arithmetic on those bits lives
//! in `num`. A continuation holds a snapshot of the whole machine.

use std::io::Write;

use vstd::prelude::*;
use vstd::string::StringExecFns;

use crate::eval::VM;
use crate::sem;
use crate::sem::Datum;

verus! {

/// The special forms. Each controls the evaluation of its own arguments.
/// The second-phase forms are pushed by their first phase to receive control
/// back after one argument has been reduced.
#[derive(Clone, Copy, PartialEq, Eq, Structural, Debug)]
pub enum SyntaxOp {
    Define,
    Define2,
    Quote,
    Lambda,
    If,
    If2,
    CallCc,
    CallCc2,
}

/// The primitive procedures. Each receives already-evaluated argument slots.
#[derive(Clone, Copy, PartialEq, Eq, Structural, Debug)]
pub enum SubrOp {
    Cons,
    Car,
    Cdr,
    Eqv,
    NumEq,
    Add,
    Sub,
    Mul,
    Div,
    Print,
    PrintEnv,
}

/// A runtime datum.
///
/// `Num` holds the bit pattern of an IEEE-754 double. `Closure` holds the
/// parameter list, the body and the index of the captured environment cell.
/// `Cont` holds a machine snapshot taken by `call/cc`.
#[derive(Debug)]
pub enum Value {
    Null,
    Cons(Box<Value>, Box<Value>),
    Bool(bool),
    Num(u64),
    Ident(String),
    Syntax(SyntaxOp),
    Subr(SubrOp),
    Closure(Box<Value>, Box<Value>, usize),
    Cont(Box<VM>),
}

impl View for Value {
    type V = Datum;

    open spec fn view(&self) -> Datum {
        sem::value_model(*self)
    }
}

impl Value {
    /// Succeeds exactly on the empty list.
    pub fn try_into_nil(self) -> (r: Result<(), crate::error::LispError>)
        ensures
            r is Ok <==> self@ is Null,
    {
        match self {
            Value::Null => Ok(()),
            _ => Err(crate::error::LispError::TypeMismatch),
        }
    }

    /// Succeeds exactly on a pair, yielding car and cdr.
    pub fn try_into_cons(self) -> (r: Result<(Value, Value), crate::error::LispError>)
        ensures
            match r {
                Ok(p) => self@ matches Datum::Cons(a, d) && p.0@ == *a && p.1@ == *d,
                Err(e) => !(self@ is Cons) && e == crate::error::LispError::TypeMismatch,
            },
    {
        match self {
            Value::Cons(car, cdr) => Ok((*car, *cdr)),
            _ => Err(crate::error::LispError::TypeMismatch),
        }
    }

    /// Succeeds exactly on a boolean.
    pub fn try_into_bool(self) -> (r: Result<bool, crate::error::LispError>)
        ensures
            match r {
                Ok(b) => self@ == Datum::Bool(b),
                Err(e) => !(self@ is Bool) && e == crate::error::LispError::TypeMismatch,
            },
    {
        match self {
            Value::Bool(b) => Ok(b),
            _ => Err(crate::error::LispError::TypeMismatch),
        }
    }

    /// Succeeds exactly on a number, yielding its bit pattern.
    pub fn try_into_num(self) -> (r: Result<u64, crate::error::LispError>)
        ensures
            match r {
                Ok(n) => self@ == Datum::Num(n),
                Err(e) => !(self@ is Num) && e == crate::error::LispError::TypeMismatch,
            },
    {
        match self {
            Value::Num(n) => Ok(n),
            _ => Err(crate::error::LispError::TypeMismatch),
        }
    }

    /// Succeeds exactly on an identifier.
    pub fn try_into_ident(self) -> (r: Result<String, crate::error::LispError>)
        ensures
            match r {
                Ok(s) => self@ == Datum::Ident(s@),
                Err(e) => !(self@ is Ident) && e == crate::error::LispError::TypeMismatch,
            },
    {
        match self {
            Value::Ident(s) => Ok(s),
            _ => Err(crate::error::LispError::TypeMismatch),
        }
    }
}

/// The elements of a list, in order, up to the first non-pair.
pub open spec fn list_elems(d: Datum) -> Seq<Datum>
    decreases d,
{
    match d {
        Datum::Cons(a, rest) => seq![*a] + list_elems(*rest),
        _ => Seq::empty(),
    }
}

/// The surface name of a special form, as the printer shows it.
pub open spec fn syntax_name(op: SyntaxOp) -> Seq<char> {
    match op {
        SyntaxOp::Define => "define"@,
        SyntaxOp::Define2 => "define2"@,
        SyntaxOp::Quote => "quote"@,
        SyntaxOp::Lambda => "lambda"@,
        SyntaxOp::If => "if"@,
        SyntaxOp::If2 => "if2"@,
        SyntaxOp::CallCc => "call/cc"@,
        SyntaxOp::CallCc2 => "call/cc2"@,
    }
}

/// The surface name of a primitive procedure, as the printer shows it.
pub open spec fn subr_name(op: SubrOp) -> Seq<char> {
    match op {
        SubrOp::Cons => "cons"@,
        SubrOp::Car => "car"@,
        SubrOp::Cdr => "cdr"@,
        SubrOp::Eqv => "eqv?"@,
        SubrOp::NumEq => "="@,
        SubrOp::Add => "+"@,
        SubrOp::Sub => "-"@,
        SubrOp::Mul => "*"@,
        SubrOp::Div => "/"@,
        SubrOp::Print => "print"@,
        SubrOp::PrintEnv => "print-env"@,
    }
}

/// The printed form of a datum: `()` for the empty list, `#t`/`#f`, the
/// shortest positional decimal of a number, the characters of an
/// identifier, parenthesised elements for lists with a dotted tail where
/// the list is improper, and `#<...>` forms for the applicable values.
pub open spec fn print_model(d: Datum) -> Seq<char>
    decreases d, 0int,
{
    match d {
        Datum::Null => "()"@,
        Datum::Cons(car, cdr) => "("@ + print_model(*car) + print_tail(*cdr),
        Datum::Bool(b) => if b {
            "#t"@
        } else {
            "#f"@
        },
        Datum::Num(n) => crate::decimal::num_display(n),
        Datum::Ident(s) => s,
        Datum::Syntax(op) => "#<syntax "@ + syntax_name(op) + ">"@,
        Datum::Subr(op) => "#<subr "@ + subr_name(op) + ">"@,
        Datum::Closure(ps, body, _) => "#<closure "@ + print_model(*ps) + " "@ + print_model(
            *body,
        ) + ">"@,
        Datum::Cont(_) => "#<subr continuation>"@,
    }
}

/// The printed form of the rest of a list, closing parenthesis included.
pub open spec fn print_tail(d: Datum) -> Seq<char>
    decreases d, 1int,
{
    match d {
        Datum::Cons(car, cdr) => " "@ + print_model(*car) + print_tail(*cdr),
        Datum::Null => ")"@,
        other => " . "@ + print_model(other) + ")"@,
    }
}

impl Value {
    /// Structural equality as `eqv?` decides it.
    pub fn eqv(&self, other: &Value) -> (r: bool)
        ensures
            r == sem::eqv_datum(self@, other@),
        decreases self,
    {
        match (self, other) {
            (Value::Null, Value::Null) => true,
            (Value::Cons(a1, d1), Value::Cons(a2, d2)) => a1.eqv(a2) && d1.eqv(d2),
            (Value::Bool(x), Value::Bool(y)) => *x == *y,
            (Value::Num(x), Value::Num(y)) => crate::num::num_eq(*x, *y),
            (Value::Ident(x), Value::Ident(y)) => *x == *y,
            (Value::Syntax(x), Value::Syntax(y)) => *x == *y,
            (Value::Subr(x), Value::Subr(y)) => *x == *y,
            (Value::Closure(p1, b1, e1), Value::Closure(p2, b2, e2)) => p1.eqv(p2) && b1.eqv(b2)
                && *e1 == *e2,
            _ => false,
        }
    }

    /// The elements of a list, in order; the walk stops at the first
    /// non-pair, so an improper tail is dropped.
    pub fn into_list_iter(self) -> (r: Vec<Value>)
        ensures
            sem::datum_seq(r@) == list_elems(self@),
    {
        let mut out: Vec<Value> = Vec::new();
        let mut cur = self;
        loop
            invariant
                sem::datum_seq(out@) + list_elems(cur@) == list_elems(self@),
            decreases cur,
        {
            proof {
                sem::lemma_datum_seq_index(out@);
            }
            match cur {
                Value::Cons(a, d) => {
                    let ghost prev = out@;
                    out.push(*a);
                    cur = *d;
                    proof {
                        assert(out@.drop_last() =~= prev);
                        assert(sem::datum_seq(out@) + list_elems(cur@) =~= sem::datum_seq(prev)
                            + list_elems(Datum::Cons(Box::new(out@.last()@), Box::new(cur@))));
                    }
                },
                _ => {
                    proof {
                        assert(sem::datum_seq(out@) + list_elems(cur@) =~= sem::datum_seq(out@));
                    }
                    return out;
                },
            }
        }
    }

    /// The printed form of this value.
    pub fn to_text(&self) -> (r: String)
        ensures
            r@ == print_model(self@),
    {
        let mut out = String::new();
        self.write_text(&mut out);
        out
    }

    /// Append this value's printed form.
    fn write_text(&self, out: &mut String)
        ensures
            final(out)@ == old(out)@ + print_model(self@),
        decreases self, 0int,
    {
        match self {
            Value::Null => {
                out.append("()");
            },
            Value::Cons(car, cdr) => {
                out.append("(");
                car.write_text(out);
                cdr.write_tail(out);
                proof {
                    assert(final(out)@ =~= old(out)@ + print_model(self@));
                }
            },
            Value::Bool(b) => {
                if *b {
                    out.append("#t");
                } else {
                    out.append("#f");
                }
            },
            Value::Num(n) => {
                let t = crate::decimal::format_num(*n);
                out.append(t.as_str());
            },
            Value::Ident(s) => {
                out.append(s.as_str());
            },
            Value::Syntax(op) => {
                out.append("#<syntax ");
                out.append(syntax_name_text(*op));
                out.append(">");
                proof {
                    assert(final(out)@ =~= old(out)@ + print_model(self@));
                }
            },
            Value::Subr(op) => {
                out.append("#<subr ");
                out.append(subr_name_text(*op));
                out.append(">");
                proof {
                    assert(final(out)@ =~= old(out)@ + print_model(self@));
                }
            },
            Value::Closure(ps, body, _) => {
                out.append("#<closure ");
                ps.write_text(out);
                out.append(" ");
                body.write_text(out);
                out.append(">");
                proof {
                    assert(final(out)@ =~= old(out)@ + print_model(self@));
                }
            },
            Value::Cont(_) => {
                out.append("#<subr continuation>");
            },
        }
    }

    /// Append the printed form of the rest of a list.
    fn write_tail(&self, out: &mut String)
        ensures
            final(out)@ == old(out)@ + print_tail(self@),
        decreases self, 1int,
    {
        match self {
            Value::Cons(car, cdr) => {
                out.append(" ");
                car.write_text(out);
                cdr.write_tail(out);
                proof {
                    assert(final(out)@ =~= old(out)@ + print_tail(self@));
                }
            },
            Value::Null => {
                out.append(")");
            },
            other => {
                out.append(" . ");
                other.write_text(out);
                out.append(")");
                proof {
                    assert(final(out)@ =~= old(out)@ + print_tail(self@));
                }
            },
        }
    }
}

/// The printed name of a special form.
fn syntax_name_text(op: SyntaxOp) -> (r: &'static str)
    ensures
        r@ == syntax_name(op),
{
    match op {
        SyntaxOp::Define => "define",
        SyntaxOp::Define2 => "define2",
        SyntaxOp::Quote => "quote",
        SyntaxOp::Lambda => "lambda",
        SyntaxOp::If => "if",
        SyntaxOp::If2 => "if2",
        SyntaxOp::CallCc => "call/cc",
        SyntaxOp::CallCc2 => "call/cc2",
    }
}

/// The printed name of a primitive procedure.
fn subr_name_text(op: SubrOp) -> (r: &'static str)
    ensures
        r@ == subr_name(op),
{
    match op {
        SubrOp::Cons => "cons",
        SubrOp::Car => "car",
        SubrOp::Cdr => "cdr",
        SubrOp::Eqv => "eqv?",
        SubrOp::NumEq => "=",
        SubrOp::Add => "+",
        SubrOp::Sub => "-",
        SubrOp::Mul => "*",
        SubrOp::Div => "/",
        SubrOp::Print => "print",
        SubrOp::PrintEnv => "print-env",
    }
}

/// Relies on `writeln` to standard output: best-effort, order of calls kept.
#[verifier::external_body]
pub(crate) fn emit_line(s: &str) {
    let mut so = std::io::stdout();
    let _ = writeln!(so, "{}", s);
}

impl Clone for Value {
    /// A deep copy; the copy has the same model as the original.
    fn clone(&self) -> (r: Value)
        ensures
            r@ == self@,
        decreases self,
    {
        match self {
            Value::Null => Value::Null,
            Value::Cons(car, cdr) => Value::Cons(Box::new((**car).clone()), Box::new((**cdr).clone())),
            Value::Bool(b) => Value::Bool(*b),
            Value::Num(n) => Value::Num(*n),
            Value::Ident(s) => Value::Ident(s.clone()),
            Value::Syntax(op) => Value::Syntax(*op),
            Value::Subr(op) => Value::Subr(*op),
            Value::Closure(ps, body, env) => Value::Closure(
                Box::new((**ps).clone()),
                Box::new((**body).clone()),
                *env,
            ),
            Value::Cont(snap) => Value::Cont(Box::new((**snap).clone())),
        }
    }
}

} // verus!
