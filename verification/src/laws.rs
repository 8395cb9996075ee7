//! Laws of the interpreter, stated and proved against the machine
//! semantics in `sem`.

use vstd::prelude::*;

use crate::error::LispError;
use crate::lexer::TokenM;
use crate::num;
use crate::parser::parse_list_spec;
use crate::parser::parse_spec;
use crate::parser::parse_tail_spec;
use crate::sem;
use crate::sem::Datum;
use crate::sem::Mach;
use crate::sem::Outcome;
use crate::sem::Slot;
use crate::value::SubrOp;

verus! {

/// The numbers with these bit patterns, as a row of arguments.
pub open spec fn datums_of(ns: Seq<u64>) -> Seq<Datum> {
    Seq::new(ns.len(), |i: int| Datum::Num(ns[i]))
}

/// The left fold of IEEE-754 addition over `ns`, started at `acc`.
pub open spec fn sum_from(acc: u64, ns: Seq<u64>) -> u64
    decreases ns.len(),
{
    if ns.len() == 0 {
        acc
    } else {
        sum_from(num::add_bits(acc, ns.first()), ns.drop_first())
    }
}

/// The left fold of IEEE-754 multiplication over `ns`, started at `acc`.
pub open spec fn product_from(acc: u64, ns: Seq<u64>) -> u64
    decreases ns.len(),
{
    if ns.len() == 0 {
        acc
    } else {
        product_from(num::mul_bits(acc, ns.first()), ns.drop_first())
    }
}

proof fn lemma_fold_add(ns: Seq<u64>, acc: u64)
    ensures
        sem::fold_arith(SubrOp::Add, datums_of(ns), acc) == Ok::<u64, LispError>(
            sum_from(acc, ns),
        ),
    decreases ns.len(),
{
    if ns.len() > 0 {
        assert(datums_of(ns).drop_first() =~= datums_of(ns.drop_first()));
        lemma_fold_add(ns.drop_first(), num::add_bits(acc, ns.first()));
    }
}

proof fn lemma_fold_mul(ns: Seq<u64>, acc: u64)
    ensures
        sem::fold_arith(SubrOp::Mul, datums_of(ns), acc) == Ok::<u64, LispError>(
            product_from(acc, ns),
        ),
    decreases ns.len(),
{
    if ns.len() > 0 {
        assert(datums_of(ns).drop_first() =~= datums_of(ns.drop_first()));
        lemma_fold_mul(ns.drop_first(), num::mul_bits(acc, ns.first()));
    }
}

/// Arithmetic folds: on any finite row of numbers, `+` returns their
/// left-folded IEEE-754 sum and `*` their product, with the identities 0.0
/// and 1.0 — in particular `(+)` is 0 and `(*)` is 1.
pub proof fn lemma_arith_folds(ns: Seq<u64>)
    ensures
        sem::subr_apply(SubrOp::Add, datums_of(ns)) == Ok::<Datum, LispError>(
            Datum::Num(sum_from(num::NUM_ZERO, ns)),
        ),
        sem::subr_apply(SubrOp::Mul, datums_of(ns)) == Ok::<Datum, LispError>(
            Datum::Num(product_from(num::NUM_ONE, ns)),
        ),
        sem::subr_apply(SubrOp::Add, Seq::empty()) == Ok::<Datum, LispError>(
            Datum::Num(num::NUM_ZERO),
        ),
        sem::subr_apply(SubrOp::Mul, Seq::empty()) == Ok::<Datum, LispError>(
            Datum::Num(num::NUM_ONE),
        ),
{
    lemma_fold_add(ns, num::NUM_ZERO);
    lemma_fold_mul(ns, num::NUM_ONE);
    assert(datums_of(Seq::empty()) =~= Seq::<Datum>::empty());
    lemma_fold_add(Seq::empty(), num::NUM_ZERO);
    lemma_fold_mul(Seq::empty(), num::NUM_ONE);
}

/// Quote is identity: an atom — the empty list, a boolean, an identifier,
/// or a number other than a NaN — is `eqv?` to itself, so comparing two
/// copies of a quoted atom answers true. (A NaN compares unequal even to
/// itself under IEEE-754 equality; `quote` itself returns its argument
/// verbatim by the `Quote` case of `sem::syntax_apply`.)
pub proof fn lemma_quote_identity(d: Datum)
    requires
        d is Null || d is Bool || d is Ident || (d matches Datum::Num(n) && !num::is_nan_bits(
            n,
        )),
    ensures
        sem::eqv_datum(d, d),
        sem::subr_apply(SubrOp::Eqv, seq![d, d]) == Ok::<Datum, LispError>(Datum::Bool(true)),
{
    assert(seq![d, d].drop_first() =~= seq![d]);
    assert(seq![d].drop_first() =~= Seq::<Datum>::empty());
    assert(seq![d, d][0] == d);
    assert(seq![d].first() == d);
    assert(sem::all_eqv(d, seq![d].drop_first()));
    assert(sem::all_eqv(d, seq![d]));
}

/// Environments are captured by reference: a binding made through any
/// handle to a cell is seen at once through every other handle to the same
/// cell — a closure that captured cell `c` sees a later `define` into `c`.
pub proof fn lemma_define_is_shared(
    cells: Seq<sem::CellModel>,
    c: int,
    k: Seq<char>,
    v: Datum,
)
    requires
        0 <= c < cells.len(),
    ensures
        sem::lookup(sem::store_insert(cells, c, k, v), c, k) == Some(v),
{
    let cells2 = sem::store_insert(cells, c, k, v);
    assert(cells2[c].entries.last() == (k, v));
}

/// The `if` branch point: with the evaluated test on top of the stack and
/// the two branches waiting in the program pointer, a true test selects the
/// first branch, a false test the second, and anything but a boolean is a
/// type mismatch.
pub proof fn lemma_if_semantics(m: Mach, test: Datum, then_e: Datum, else_e: Datum, rest: Datum)
    requires
        m.core.stack.len() > 0,
        m.core.stack.last() == Slot::Val(test),
        m.core.pp == Datum::Cons(
            Box::new(then_e),
            Box::new(Datum::Cons(Box::new(else_e), Box::new(rest))),
        ),
    ensures
        test matches Datum::Bool(b) ==> (sem::syntax_apply(crate::value::SyntaxOp::If2, m)
            matches Outcome::Next(m2) && m2.core.pp == if b {
            then_e
        } else {
            else_e
        }),
        !(test is Bool) ==> sem::syntax_apply(crate::value::SyntaxOp::If2, m) == Outcome::Fail(
            m.cells,
            LispError::TypeMismatch,
        ),
{
}

/// The `if` branch point with the second branch absent: a false test
/// selects the empty list.
pub proof fn lemma_if_semantics_no_else(m: Mach, test: Datum, then_e: Datum)
    requires
        m.core.stack.len() > 0,
        m.core.stack.last() == Slot::Val(test),
        m.core.pp == Datum::Cons(Box::new(then_e), Box::new(Datum::Null)),
    ensures
        test matches Datum::Bool(b) ==> (sem::syntax_apply(crate::value::SyntaxOp::If2, m)
            matches Outcome::Next(m2) && m2.core.pp == if b {
            then_e
        } else {
            Datum::Null
        }),
{
}

/// The form `(quote x)`.
pub open spec fn quote_form(x: Datum) -> Datum {
    Datum::Cons(
        Box::new(Datum::Ident("quote"@)),
        Box::new(Datum::Cons(Box::new(x), Box::new(Datum::Null))),
    )
}

/// The form `(eqv? (quote x) (quote x))`.
pub open spec fn quote_pair_test(x: Datum) -> Datum {
    Datum::Cons(
        Box::new(Datum::Ident("eqv?"@)),
        Box::new(
            Datum::Cons(
                Box::new(quote_form(x)),
                Box::new(Datum::Cons(Box::new(quote_form(x)), Box::new(Datum::Null))),
            ),
        ),
    )
}

proof fn lemma_default_eqv_binding()
    ensures
        sem::assoc(sem::default_entries(), "eqv?"@) == Some(Datum::Subr(SubrOp::Eqv)),
{
    reveal_strlit("eqv?");
    reveal_strlit("=");
    reveal_strlit("+");
    reveal_strlit("-");
    reveal_strlit("*");
    reveal_strlit("/");
    reveal_strlit("print");
    reveal_strlit("print-env");
    let es = sem::default_entries();
    assert(es.take(16) =~= es);
    sem::lemma_assoc_take_step(es, "eqv?"@, 15);
    sem::lemma_assoc_take_step(es, "eqv?"@, 14);
    sem::lemma_assoc_take_step(es, "eqv?"@, 13);
    sem::lemma_assoc_take_step(es, "eqv?"@, 12);
    sem::lemma_assoc_take_step(es, "eqv?"@, 11);
    sem::lemma_assoc_take_step(es, "eqv?"@, 10);
    sem::lemma_assoc_take_step(es, "eqv?"@, 9);
    sem::lemma_assoc_take_step(es, "eqv?"@, 8);
    assert(es[8].0 == "eqv?"@);
    assert(sem::assoc(es.take(9), "eqv?"@) == Some(Datum::Subr(SubrOp::Eqv)));
    assert(sem::assoc(es.take(10), "eqv?"@) == Some(Datum::Subr(SubrOp::Eqv)));
    assert(sem::assoc(es.take(11), "eqv?"@) == Some(Datum::Subr(SubrOp::Eqv)));
    assert(sem::assoc(es.take(12), "eqv?"@) == Some(Datum::Subr(SubrOp::Eqv)));
    assert(sem::assoc(es.take(13), "eqv?"@) == Some(Datum::Subr(SubrOp::Eqv)));
    assert(sem::assoc(es.take(14), "eqv?"@) == Some(Datum::Subr(SubrOp::Eqv)));
    assert(sem::assoc(es.take(15), "eqv?"@) == Some(Datum::Subr(SubrOp::Eqv)));
    assert(sem::assoc(es.take(16), "eqv?"@) == Some(Datum::Subr(SubrOp::Eqv)));
}

proof fn lemma_default_quote_binding()
    ensures
        sem::assoc(sem::default_entries(), "quote"@) == Some(
            Datum::Syntax(crate::value::SyntaxOp::Quote),
        ),
{
    reveal_strlit("quote");
    reveal_strlit("lambda");
    reveal_strlit("if");
    reveal_strlit("call/cc");
    reveal_strlit("cons");
    reveal_strlit("car");
    reveal_strlit("cdr");
    reveal_strlit("eqv?");
    reveal_strlit("=");
    reveal_strlit("+");
    reveal_strlit("-");
    reveal_strlit("*");
    reveal_strlit("/");
    reveal_strlit("print");
    reveal_strlit("print-env");
    let es = sem::default_entries();
    assert(es.take(16) =~= es);
    assert(es[14].0 != "quote"@) by {
        assert(es[14].0[0] == 'p' && "quote"@[0] == 'q');
    }
    sem::lemma_assoc_take_step(es, "quote"@, 15);
    sem::lemma_assoc_take_step(es, "quote"@, 14);
    sem::lemma_assoc_take_step(es, "quote"@, 13);
    sem::lemma_assoc_take_step(es, "quote"@, 12);
    sem::lemma_assoc_take_step(es, "quote"@, 11);
    sem::lemma_assoc_take_step(es, "quote"@, 10);
    sem::lemma_assoc_take_step(es, "quote"@, 9);
    sem::lemma_assoc_take_step(es, "quote"@, 8);
    sem::lemma_assoc_take_step(es, "quote"@, 7);
    sem::lemma_assoc_take_step(es, "quote"@, 6);
    sem::lemma_assoc_take_step(es, "quote"@, 5);
    sem::lemma_assoc_take_step(es, "quote"@, 4);
    sem::lemma_assoc_take_step(es, "quote"@, 3);
    sem::lemma_assoc_take_step(es, "quote"@, 2);
    sem::lemma_assoc_take_step(es, "quote"@, 1);
    assert(es[1].0 == "quote"@);
    assert(sem::assoc(es.take(2), "quote"@) == Some(Datum::Syntax(crate::value::SyntaxOp::Quote)));
    assert(sem::assoc(es.take(3), "quote"@) == Some(Datum::Syntax(crate::value::SyntaxOp::Quote)));
    assert(sem::assoc(es.take(4), "quote"@) == Some(Datum::Syntax(crate::value::SyntaxOp::Quote)));
    assert(sem::assoc(es.take(5), "quote"@) == Some(Datum::Syntax(crate::value::SyntaxOp::Quote)));
    assert(sem::assoc(es.take(6), "quote"@) == Some(Datum::Syntax(crate::value::SyntaxOp::Quote)));
    assert(sem::assoc(es.take(7), "quote"@) == Some(Datum::Syntax(crate::value::SyntaxOp::Quote)));
    assert(sem::assoc(es.take(8), "quote"@) == Some(Datum::Syntax(crate::value::SyntaxOp::Quote)));
    assert(sem::assoc(es.take(9), "quote"@) == Some(Datum::Syntax(crate::value::SyntaxOp::Quote)));
    assert(sem::assoc(es.take(10), "quote"@) == Some(
        Datum::Syntax(crate::value::SyntaxOp::Quote),
    ));
    assert(sem::assoc(es.take(11), "quote"@) == Some(
        Datum::Syntax(crate::value::SyntaxOp::Quote),
    ));
    assert(sem::assoc(es.take(12), "quote"@) == Some(
        Datum::Syntax(crate::value::SyntaxOp::Quote),
    ));
    assert(sem::assoc(es.take(13), "quote"@) == Some(
        Datum::Syntax(crate::value::SyntaxOp::Quote),
    ));
    assert(sem::assoc(es.take(14), "quote"@) == Some(
        Datum::Syntax(crate::value::SyntaxOp::Quote),
    ));
    assert(sem::assoc(es.take(15), "quote"@) == Some(
        Datum::Syntax(crate::value::SyntaxOp::Quote),
    ));
    assert(sem::assoc(es.take(16), "quote"@) == Some(
        Datum::Syntax(crate::value::SyntaxOp::Quote),
    ));
}

/// Quote is identity, run on the machine itself: over the default
/// environment, `(eqv? (quote X) (quote X))` evaluates to true for any atom
/// `X` — the empty list, a boolean, an identifier, or a number other than a
/// NaN — in twelve machine steps, leaving the store untouched.
#[verifier::rlimit(100)]
pub proof fn lemma_quote_identity_evaluates(x: Datum, cells: Seq<sem::CellModel>)
    requires
        x is Null || x is Bool || x is Ident || (x matches Datum::Num(n) && !num::is_nan_bits(
            n,
        )),
        cells.len() == 1,
        cells[0] == (sem::CellModel { entries: sem::default_entries(), outer: None::<int> }),
    ensures
        sem::run_from(sem::init_mach(cells, 0, quote_pair_test(x)), 12) == sem::Outcome::Done(
            cells,
            Datum::Bool(true),
        ),
{
    lemma_quote_identity(x);
    lemma_default_eqv_binding();
    lemma_default_quote_binding();
    assert(sem::lookup(cells, 0, "eqv?"@) == Some(Datum::Subr(SubrOp::Eqv)));
    assert(sem::lookup(cells, 0, "quote"@) == Some(Datum::Syntax(crate::value::SyntaxOp::Quote)));
    assert(sem::all_eqv(x, seq![x])) by {
        sem::lemma_all_eqv_iff(x, seq![x]);
        assert(seq![x][0] == x);
        assert(sem::eqv_datum(x, x));
    }
    assert(sem::run_from(sem::init_mach(cells, 0, quote_pair_test(x)), 12) == sem::Outcome::Done(
        cells,
        Datum::Bool(true),
    )) by {
        reveal_with_fuel(sem::run_from, 13);
        reveal_with_fuel(sem::vals_of, 4);
        reveal_with_fuel(sem::all_eqv, 3);
    }
}

/// A value made only of the empty list, booleans, numbers, identifiers and
/// proper lists of such values.
pub open spec fn plain(d: Datum) -> bool
    decreases d, 0int,
{
    match d {
        Datum::Null => true,
        Datum::Bool(_) => true,
        Datum::Num(_) => true,
        Datum::Ident(_) => true,
        Datum::Cons(a, rest) => plain(*a) && plain_tail(*rest),
        _ => false,
    }
}

/// The rest of a plain proper list.
pub open spec fn plain_tail(d: Datum) -> bool
    decreases d, 1int,
{
    match d {
        Datum::Null => true,
        Datum::Cons(a, rest) => plain(*a) && plain_tail(*rest),
        _ => false,
    }
}

/// The token form of a plain value, as printing and then scanning it
/// yields.
pub open spec fn tokens_of(d: Datum) -> Seq<TokenM>
    decreases d, 0int,
{
    match d {
        Datum::Null => seq![TokenM::LPER, TokenM::RPER],
        Datum::Bool(b) => seq![TokenM::BOOL(b)],
        Datum::Num(n) => seq![TokenM::NUM(n)],
        Datum::Ident(s) => seq![TokenM::IDENT(s)],
        Datum::Cons(a, rest) => seq![TokenM::LPER] + tokens_of(*a) + tokens_tail(*rest),
        _ => Seq::empty(),
    }
}

/// The token form of the rest of a plain proper list, closing parenthesis
/// included.
pub open spec fn tokens_tail(d: Datum) -> Seq<TokenM>
    decreases d, 1int,
{
    match d {
        Datum::Null => seq![TokenM::RPER],
        Datum::Cons(a, rest) => tokens_of(*a) + tokens_tail(*rest),
        _ => Seq::empty(),
    }
}

/// A plain value's token form is never empty, and opens with neither a
/// closing parenthesis nor a dot.
pub proof fn lemma_tokens_of_shape(d: Datum)
    requires
        plain(d),
    ensures
        tokens_of(d).len() >= 1,
        !(tokens_of(d)[0] is RPER),
        !(tokens_of(d)[0] is DOT),
{
}

/// Reading back the token form of a plain value, wherever it stands in a
/// longer token stream, yields the value and consumes exactly its tokens.
pub proof fn lemma_parse_tokens_of(d: Datum, ts: Seq<TokenM>, pos: int)
    requires
        plain(d),
        0 <= pos,
        ts.len() >= pos + tokens_of(d).len(),
        forall|i: int| 0 <= i < tokens_of(d).len() ==> ts[pos + i] == tokens_of(d)[i],
    ensures
        parse_spec(ts, pos) == (Ok::<Datum, LispError>(d), pos + tokens_of(d).len()),
    decreases d, 0int,
{
    match d {
        Datum::Cons(a, rest) => {
            lemma_tokens_of_shape(*a);
            assert(tokens_of(d)[0] == TokenM::LPER);
            assert(ts[pos + 0] == tokens_of(d)[0]);
            assert(ts[pos] == TokenM::LPER);
            assert(ts[pos + 1] == tokens_of(d)[1]);
            assert(tokens_of(d)[1] == tokens_of(*a)[0]);
            assert forall|i: int| 0 <= i < tokens_of(*a).len() implies ts[pos + 1 + i]
                == tokens_of(*a)[i] by {
                assert(tokens_of(d)[1 + i] == tokens_of(*a)[i]);
            }
            lemma_parse_tokens_of(*a, ts, pos + 1);
            let p1 = pos + 1 + tokens_of(*a).len();
            assert forall|i: int| 0 <= i < tokens_tail(*rest).len() implies ts[p1 + i]
                == tokens_tail(*rest)[i] by {
                assert(tokens_of(d)[1 + tokens_of(*a).len() + i] == tokens_tail(*rest)[i]);
            }
            lemma_parse_tokens_tail(*rest, ts, p1);
            assert(tokens_of(d).len() == 1 + tokens_of(*a).len() + tokens_tail(*rest).len());
            assert(pos + 1 < ts.len());
            assert(!(ts[pos + 1] is RPER));
            assert(parse_spec(ts, pos + 1) == (
                Ok::<Datum, LispError>(*a),
                pos + 1 + tokens_of(*a).len(),
            ));
            assert(parse_tail_spec(ts, p1, Datum::Null) == (
                Ok::<Datum, LispError>(*rest),
                p1 + tokens_tail(*rest).len(),
            ));
            assert(parse_list_spec(ts, pos + 1) == (
                Ok::<Datum, LispError>(d),
                pos + tokens_of(d).len(),
            ));
            assert(parse_spec(ts, pos) == parse_list_spec(ts, pos + 1)) by {
                reveal_with_fuel(crate::parser::parse_spec, 2);
            }
            assert(parse_spec(ts, pos) == (
                Ok::<Datum, LispError>(d),
                pos + tokens_of(d).len(),
            ));
        },
        _ => {
            assert(ts[pos + 0] == tokens_of(d)[0]);
            if d is Null {
                assert(ts[pos + 1] == tokens_of(d)[1]);
            }
        },
    }
}

/// Reading back the token form of a plain list's rest yields the rest.
pub proof fn lemma_parse_tokens_tail(d: Datum, ts: Seq<TokenM>, pos: int)
    requires
        plain_tail(d),
        0 <= pos,
        ts.len() >= pos + tokens_tail(d).len(),
        forall|i: int| 0 <= i < tokens_tail(d).len() ==> ts[pos + i] == tokens_tail(d)[i],
    ensures
        parse_tail_spec(ts, pos, Datum::Null) == (
            Ok::<Datum, LispError>(d),
            pos + tokens_tail(d).len(),
        ),
    decreases d, 1int,
{
    match d {
        Datum::Null => {
            assert(tokens_tail(d)[0] == TokenM::RPER);
            assert(ts[pos + 0] == tokens_tail(d)[0]);
            assert(ts[pos] == TokenM::RPER);
        },
        Datum::Cons(a, rest) => {
            lemma_tokens_of_shape(*a);
            assert(ts[pos + 0] == tokens_tail(d)[0]);
            assert(tokens_tail(d)[0] == tokens_of(*a)[0]);
            assert(ts[pos] == tokens_of(*a)[0]);
            assert forall|i: int| 0 <= i < tokens_of(*a).len() implies ts[pos + i]
                == tokens_of(*a)[i] by {
                assert(tokens_tail(d)[i] == tokens_of(*a)[i]);
            }
            lemma_parse_tokens_of(*a, ts, pos);
            let p1 = pos + tokens_of(*a).len();
            assert forall|i: int| 0 <= i < tokens_tail(*rest).len() implies ts[p1 + i]
                == tokens_tail(*rest)[i] by {
                assert(tokens_tail(d)[tokens_of(*a).len() + i] == tokens_tail(*rest)[i]);
            }
            lemma_parse_tokens_tail(*rest, ts, p1);
        },
        _ => {
        },
    }
}

/// Printing round trip, read-back half: the token form of any plain value
/// reparses to a structurally identical value. (The scan half — that
/// printing a plain value and scanning the text yields this token form —
/// rests on the lexer's own contract over each token's characters.)
pub proof fn lemma_reparse_tokens(d: Datum)
    requires
        plain(d),
    ensures
        parse_spec(tokens_of(d), 0) == (
            Ok::<Datum, LispError>(d),
            tokens_of(d).len() as int,
        ),
{
    lemma_parse_tokens_of(d, tokens_of(d), 0);
}

/// A plain value whose printed text scans back token for token: numbers
/// must not be NaN and must print faithfully — which `num_text`'s contract
/// states of every number it prints — and identifiers must be non-empty
/// runs of identifier characters that end in no point and read as no
/// number.
pub open spec fn lexable(d: Datum) -> bool
    decreases d, 0int,
{
    match d {
        Datum::Null => true,
        Datum::Bool(_) => true,
        Datum::Num(n) => !num::is_nan_bits(n) && num::num_text_ok(n),
        Datum::Ident(s) => s.len() > 0 && (forall|i: int|
            0 <= i < s.len() ==> crate::lexer::ident_char(s[i])) && s[s.len() - 1] != '.'
            && num::bits_of_text(s) is None && !crate::lexer::inf_text(s)
            && !crate::lexer::nan_text(s),
        Datum::Cons(a, rest) => lexable(*a) && lexable_tail(*rest),
        _ => false,
    }
}

/// The rest of a lexable proper list.
pub open spec fn lexable_tail(d: Datum) -> bool
    decreases d, 1int,
{
    match d {
        Datum::Null => true,
        Datum::Cons(a, rest) => lexable(*a) && lexable_tail(*rest),
        _ => false,
    }
}

/// A lexable value is plain.
pub proof fn lemma_lexable_plain(d: Datum)
    ensures
        lexable(d) ==> plain(d),
        lexable_tail(d) ==> plain_tail(d),
    decreases d,
{
    match d {
        Datum::Cons(a, rest) => {
            lemma_lexable_plain(*a);
            lemma_lexable_plain(*rest);
        },
        _ => {},
    }
}

/// The printed rest of a lexable list opens with a space or the closing
/// parenthesis — no identifier character.
pub proof fn lemma_print_tail_opens(d: Datum)
    requires
        lexable_tail(d),
    ensures
        crate::value::print_tail(d).len() >= 1,
        !crate::lexer::ident_char(crate::value::print_tail(d)[0]),
{
    reveal_strlit(")");
    reveal_strlit(" ");
    match d {
        Datum::Null => {
            assert(crate::value::print_tail(d)[0] == ')');
        },
        Datum::Cons(_, _) => {
            assert(crate::value::print_tail(d)[0] == ' ');
        },
        _ => {},
    }
}

/// Whatever the shortest-decimal search yields scans back as exactly the
/// number it was searched for.
proof fn lemma_choose_reads_back(b: u64, neg: bool, ds: Seq<char>, e: int, k: int)
    requires
        num::num_text_ok(b),
        !num::is_nan_bits(b),
        !num::is_inf_bits(b),
        ds.len() >= 1,
        forall|i: int| 0 <= i < ds.len() ==> crate::decimal::digit(ds[i]),
        ds[0] != '0',
    ensures
        crate::lexer::run_token(crate::decimal::choose_text(b, neg, ds, e, k))
            == TokenM::NUM(b),
    decreases ds.len() - k,
{
    crate::decimal::lemma_strip_zeros_chars(ds);
    if k < 1 || k >= ds.len() {
        let sd = crate::decimal::strip_zeros(ds);
        crate::lexer::lemma_render_number_text(neg, sd, e);
        let f = crate::decimal::render(neg, sd, e);
        crate::lexer::lemma_number_not_special(f);
        if !(num::bits_of_text(f) == Some(b)) {
            crate::lexer::lemma_number_not_special(num::text_of_bits(b));
        }
    } else {
        assert(ds.take(k)[0] == ds[0]);
        assert(forall|i: int| 0 <= i < k ==> crate::decimal::digit(ds.take(k)[i]));
        crate::decimal::lemma_strip_zeros_chars(ds.take(k));
        let fd = crate::decimal::strip_zeros(ds.take(k));
        crate::lexer::lemma_render_number_text(neg, fd, e);
        let fl = crate::decimal::render(neg, fd, e);
        crate::lexer::lemma_number_not_special(fl);
        crate::decimal::lemma_incr_chars(ds.take(k));
        let up = crate::decimal::incr(ds.take(k));
        crate::decimal::lemma_strip_zeros_chars(up);
        let cd = crate::decimal::strip_zeros(up);
        let ce: int = if up.len() == k + 1 {
            e + 1
        } else {
            e
        };
        crate::lexer::lemma_render_number_text(neg, cd, ce);
        let cl = crate::decimal::render(neg, cd, ce);
        crate::lexer::lemma_number_not_special(cl);
        let fok = num::bits_of_text(fl) == Some(b);
        let cok = num::bits_of_text(cl) == Some(b);
        if !(fok || cok) {
            lemma_choose_reads_back(b, neg, ds, e, k + 1);
        }
    }
}

/// The printed form of any number but a NaN scans back as exactly that
/// number's token.
pub proof fn lemma_num_display_reads_back(b: u64)
    requires
        num::num_text_ok(b),
        !num::is_nan_bits(b),
    ensures
        crate::lexer::run_token(crate::decimal::num_display(b)) == TokenM::NUM(b),
{
    if num::is_inf_bits(b) {
        reveal_strlit("+Inf");
        reveal_strlit("-Inf");
        if b >> 63 == 1 {
            assert(b == 0xFFF0_0000_0000_0000) by (bit_vector)
                requires
                    (b >> 52) & 0x7FF == 0x7FF && b & 0xF_FFFF_FFFF_FFFF == 0 && b >> 63 == 1,
            ;
            assert(crate::lexer::inf_text("-Inf"@));
            assert(crate::lexer::inf_bits_of("-Inf"@) == b);
        } else {
            assert(b == 0x7FF0_0000_0000_0000) by (bit_vector)
                requires
                    (b >> 52) & 0x7FF == 0x7FF && b & 0xF_FFFF_FFFF_FFFF == 0 && !(b >> 63
                        == 1),
            ;
            assert(crate::lexer::inf_text("+Inf"@));
            assert(crate::lexer::inf_bits_of("+Inf"@) == b);
        }
    } else if num::is_zero_bits(b) {
        crate::lexer::lemma_number_not_special(num::text_of_bits(b));
    } else {
        match crate::decimal::decomp(num::text_of_bits(b)) {
            None => {
                crate::lexer::lemma_number_not_special(num::text_of_bits(b));
            },
            Some(p) => {
                crate::decimal::lemma_decomp_digits(num::text_of_bits(b));
                lemma_choose_reads_back(b, p.0, p.1, p.2, 1);
            },
        }
    }
}

/// Scanning the printed text of a lexable value, wherever it stands in a
/// longer text whose following character is no identifier character, yields
/// exactly the value's token form and then scans on.
pub proof fn lemma_lex_print(d: Datum, cs: Seq<char>, pos: int)
    requires
        lexable(d),
        0 <= pos,
        cs.len() >= pos + crate::value::print_model(d).len(),
        forall|i: int| 0 <= i < crate::value::print_model(d).len() ==> cs[pos + i]
            == crate::value::print_model(d)[i],
        pos + crate::value::print_model(d).len() < cs.len() ==> !crate::lexer::ident_char(
            cs[pos + crate::value::print_model(d).len()],
        ),
    ensures
        crate::lexer::lex_all(cs, pos) == (match crate::lexer::lex_all(
            cs,
            pos + crate::value::print_model(d).len(),
        ) {
            Ok(r) => Ok::<Seq<TokenM>, LispError>(tokens_of(d) + r),
            Err(e) => Err::<Seq<TokenM>, LispError>(e),
        }),
    decreases d, 0int,
{
    let text = crate::value::print_model(d);
    let toks = tokens_of(d);
    let end = pos + text.len();
    match d {
        Datum::Null => {
            reveal_strlit("()");
            assert(cs[pos + 0] == text[0]);
            assert(cs[pos + 1] == text[1]);
            assert(cs[pos] == '(');
            assert(crate::lexer::lex_next(cs, pos, Seq::empty()) == crate::lexer::LexOut::Tok(
                TokenM::LPER,
                pos + 1,
            ));
            crate::lexer::lemma_lex_all_step(cs, pos, TokenM::LPER, pos + 1);
            assert(cs[pos + 1] == ')');
            assert(crate::lexer::lex_next(cs, pos + 1, Seq::empty())
                == crate::lexer::LexOut::Tok(TokenM::RPER, pos + 2));
            crate::lexer::lemma_lex_all_step(cs, pos + 1, TokenM::RPER, pos + 2);
            assert(seq![TokenM::LPER] + (seq![TokenM::RPER]
                + crate::lexer::lex_all(cs, end)->Ok_0) =~= toks + crate::lexer::lex_all(
                cs,
                end,
            )->Ok_0);
        },
        Datum::Bool(b) => {
            reveal_strlit("#t");
            reveal_strlit("#f");
            assert(cs[pos + 0] == text[0]);
            assert(cs[pos + 1] == text[1]);
            assert(cs[pos] == '#');
            crate::lexer::lemma_lex_all_step(cs, pos, TokenM::BOOL(b), pos + 2);
            assert(seq![TokenM::BOOL(b)] + crate::lexer::lex_all(cs, end)->Ok_0 =~= toks
                + crate::lexer::lex_all(cs, end)->Ok_0);
        },
        Datum::Num(n) => {
            crate::decimal::lemma_num_display_ok(n);
            lemma_num_display_reads_back(n);
            assert forall|i: int| pos <= i < end implies crate::lexer::ident_char(cs[i]) by {
                assert(cs[i] == text[i - pos]);
                assert(num::numeric_text_char(text[i - pos]));
                crate::lexer::lemma_numeric_is_ident(cs[i]);
            }
            assert(cs[end - 1] == text[text.len() - 1]);
            crate::lexer::lemma_lex_run(cs, pos, end, Seq::empty());
            assert(Seq::<char>::empty() + cs.subrange(pos, end) =~= text);
            crate::lexer::lemma_lex_all_step(cs, pos, TokenM::NUM(n), end);
            assert(seq![TokenM::NUM(n)] + crate::lexer::lex_all(cs, end)->Ok_0 =~= toks
                + crate::lexer::lex_all(cs, end)->Ok_0);
        },
        Datum::Ident(s) => {
            assert forall|i: int| pos <= i < end implies crate::lexer::ident_char(cs[i]) by {
                assert(cs[i] == text[i - pos]);
            }
            assert(cs[end - 1] == text[text.len() - 1]);
            crate::lexer::lemma_lex_run(cs, pos, end, Seq::empty());
            assert(Seq::<char>::empty() + cs.subrange(pos, end) =~= s);
            assert(crate::lexer::run_token(s) == TokenM::IDENT(s));
            crate::lexer::lemma_lex_all_step(cs, pos, TokenM::IDENT(s), end);
            assert(seq![TokenM::IDENT(s)] + crate::lexer::lex_all(cs, end)->Ok_0 =~= toks
                + crate::lexer::lex_all(cs, end)->Ok_0);
        },
        Datum::Cons(a, rest) => {
            reveal_strlit("(");
            let pa = crate::value::print_model(*a);
            let pt = crate::value::print_tail(*rest);
            assert(text =~= "("@ + pa + pt);
            assert(cs[pos + 0] == text[0]);
            assert(cs[pos] == '(');
            assert(crate::lexer::lex_next(cs, pos, Seq::empty()) == crate::lexer::LexOut::Tok(
                TokenM::LPER,
                pos + 1,
            ));
            crate::lexer::lemma_lex_all_step(cs, pos, TokenM::LPER, pos + 1);
            assert forall|i: int| 0 <= i < pa.len() implies cs[pos + 1 + i] == pa[i] by {
                assert(cs[pos + (1 + i)] == text[1 + i]);
                assert(text[1 + i] == pa[i]);
            }
            lemma_print_tail_opens(*rest);
            let p1 = pos + 1 + pa.len();
            assert(cs[p1 + 0] == text[1 + pa.len() as int]);
            assert(text[1 + pa.len() as int] == pt[0]);
            assert(p1 < cs.len() && !crate::lexer::ident_char(cs[p1]));
            lemma_lex_print(*a, cs, pos + 1);
            assert forall|i: int| 0 <= i < pt.len() implies cs[p1 + i] == pt[i] by {
                assert(cs[pos + (1 + pa.len() + i)] == text[1 + pa.len() + i]);
                assert(text[1 + pa.len() + i] == pt[i]);
            }
            lemma_lex_print_tail(*rest, cs, p1);
            match crate::lexer::lex_all(cs, end) {
                Ok(r2) => {
                    assert(seq![TokenM::LPER] + (tokens_of(*a) + (tokens_tail(*rest) + r2))
                        =~= toks + r2);
                },
                Err(_) => {},
            }
        },
        _ => {},
    }
}

/// Scanning the printed rest of a lexable list yields its token form and
/// then scans on.
pub proof fn lemma_lex_print_tail(d: Datum, cs: Seq<char>, pos: int)
    requires
        lexable_tail(d),
        0 <= pos,
        cs.len() >= pos + crate::value::print_tail(d).len(),
        forall|i: int| 0 <= i < crate::value::print_tail(d).len() ==> cs[pos + i]
            == crate::value::print_tail(d)[i],
    ensures
        crate::lexer::lex_all(cs, pos) == (match crate::lexer::lex_all(
            cs,
            pos + crate::value::print_tail(d).len(),
        ) {
            Ok(r) => Ok::<Seq<TokenM>, LispError>(tokens_tail(d) + r),
            Err(e) => Err::<Seq<TokenM>, LispError>(e),
        }),
    decreases d, 1int,
{
    let text = crate::value::print_tail(d);
    let end = pos + text.len();
    match d {
        Datum::Null => {
            reveal_strlit(")");
            assert(cs[pos + 0] == text[0]);
            assert(cs[pos] == ')');
            assert(crate::lexer::lex_next(cs, pos, Seq::empty()) == crate::lexer::LexOut::Tok(
                TokenM::RPER,
                pos + 1,
            ));
            crate::lexer::lemma_lex_all_step(cs, pos, TokenM::RPER, pos + 1);
            match crate::lexer::lex_all(cs, end) {
                Ok(r) => {
                    assert(seq![TokenM::RPER] + r =~= tokens_tail(d) + r);
                },
                Err(_) => {},
            }
        },
        Datum::Cons(a, rest) => {
            reveal_strlit(" ");
            let pa = crate::value::print_model(*a);
            let pt = crate::value::print_tail(*rest);
            assert(text =~= " "@ + pa + pt);
            assert(cs[pos + 0] == text[0]);
            assert(cs[pos] == ' ');
            crate::lexer::lemma_lex_all_skip(cs, pos);
            assert forall|i: int| 0 <= i < pa.len() implies cs[pos + 1 + i] == pa[i] by {
                assert(cs[pos + (1 + i)] == text[1 + i]);
                assert(text[1 + i] == pa[i]);
            }
            lemma_print_tail_opens(*rest);
            let p1 = pos + 1 + pa.len();
            assert(cs[p1 + 0] == text[1 + pa.len() as int]);
            assert(text[1 + pa.len() as int] == pt[0]);
            assert(p1 < cs.len() && !crate::lexer::ident_char(cs[p1]));
            lemma_lex_print(*a, cs, pos + 1);
            assert forall|i: int| 0 <= i < pt.len() implies cs[p1 + i] == pt[i] by {
                assert(cs[pos + (1 + pa.len() + i)] == text[1 + pa.len() + i]);
                assert(text[1 + pa.len() + i] == pt[i]);
            }
            lemma_lex_print_tail(*rest, cs, p1);
            match crate::lexer::lex_all(cs, end) {
                Ok(r2) => {
                    assert(tokens_of(*a) + (tokens_tail(*rest) + r2) =~= tokens_tail(d) + r2);
                },
                Err(_) => {},
            }
        },
        _ => {},
    }
}

/// Printing round trip: printing any lexable value and scanning the text
/// yields exactly its token form, and reading that back yields a
/// structurally identical value.
pub proof fn lemma_print_reparse(d: Datum)
    requires
        lexable(d),
    ensures
        crate::lexer::lex_all(crate::value::print_model(d), 0) == Ok::<Seq<TokenM>, LispError>(
            tokens_of(d),
        ),
        parse_spec(tokens_of(d), 0) == (Ok::<Datum, LispError>(d), tokens_of(d).len() as int),
{
    let text = crate::value::print_model(d);
    lemma_lex_print(d, text, 0);
    assert(crate::lexer::lex_all(text, text.len() as int) == Ok::<Seq<TokenM>, LispError>(
        Seq::empty(),
    ));
    assert(tokens_of(d) + Seq::<TokenM>::empty() =~= tokens_of(d));
    lemma_lexable_plain(d);
    lemma_parse_tokens_of(d, tokens_of(d), 0);
}

/// No part of a step grows the stack by more than one entry: descending
/// into a compound expression pushes exactly one frame, and completion
/// never adds more than one — except reinstating a continuation, which is
/// bounded by its own snapshot. Together with `lemma_tail_call_bounded`
/// this is why a self-recursive tail call run in a body of fixed nesting
/// depth keeps the stack within a constant: each cycle descends boundedly
/// and the application resets the stack to the frame pointer.
pub proof fn lemma_step_stack_growth(m: Mach)
    ensures
        m.core.pp is Cons ==> (sem::step(m) matches Outcome::Next(m2) && m2.core.stack.len()
            == m.core.stack.len() + 1),
        match sem::complete(m) {
            Outcome::Next(m2) => {
                ||| m2.core.stack.len() <= m.core.stack.len() + 1
                ||| {
                    &&& 0 <= m.core.sp < m.core.stack.len()
                    &&& m.core.stack[m.core.sp] matches Slot::Val(d)
                    &&& d matches Datum::Cont(snap)
                    &&& m2.core.stack.len() <= snap.stack.len()
                }
            },
            _ => true,
        },
{
}

/// Tail calls do not grow the stack: applying a closure leaves at most one
/// entry above the dropped call slots, and none at all — the stack shrinks
/// to the frame pointer — when the call is in tail position, that is, when
/// a saved environment already sits just under the frame pointer. A
/// self-recursive procedure that tail-calls itself any number of times
/// therefore runs in constant stack.
pub proof fn lemma_tail_call_bounded(m: Mach)
    requires
        0 <= m.core.sp < m.core.stack.len(),
    ensures
        match sem::apply_closure(m) {
            Outcome::Next(m2) => {
                &&& m2.core.stack.len() <= m.core.sp + 1
                &&& (m.core.sp > 0 && m.core.stack[m.core.sp - 1] is Env
                    ==> m2.core.stack.len() == m.core.sp
                    && m2.core.stack.len() < m.core.stack.len())
            },
            _ => true,
        },
{
    match m.core.stack[m.core.sp] {
        Slot::Val(d) => {
            match d {
                Datum::Closure(_, _, _) => {
                    assert(sem::trunc(m.core.stack, m.core.sp).len() == m.core.sp);
                },
                _ => {},
            }
        },
        _ => {},
    }
}

} // verus!
