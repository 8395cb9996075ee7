//! The mathematical model of the machine.
//!
//! Every executable type of the interpreter has a model here: values become
//! `Datum`, stack entries become `Slot`, the machine becomes `Core`, and the
//! store of environment cells becomes a sequence of `CellModel`. The small-step
//! semantics over these models is the reference that the trampoline in `eval`
//! is proved against, one loop iteration per step.

use vstd::prelude::*;

use crate::env::EnvCell;
use crate::error::LispError;
use crate::eval::StackData;
use crate::eval::VM;
use crate::value::SubrOp;
use crate::value::SyntaxOp;
use crate::value::Value;

verus! {

broadcast use vstd::seq::axiom_seq_index_decreases;

/// The model of a runtime value.
#[verifier::ext_equal]
pub enum Datum {
    Null,
    Cons(Box<Datum>, Box<Datum>),
    Bool(bool),
    Num(u64),
    Ident(Seq<char>),
    Syntax(SyntaxOp),
    Subr(SubrOp),
    Closure(Box<Datum>, Box<Datum>, int),
    Cont(Box<Core>),
}

/// The model of one stack entry. Frame pointers are true (signed) here.
#[verifier::ext_equal]
pub enum Slot {
    Frame { next_sp: int, next_pp: Datum },
    Val(Datum),
    Env(int),
}

/// The model of the machine registers and stack.
///
/// `sp` is the frame pointer: the index of the current call's callee slot,
/// -1 once the outermost expression has been reduced.
#[verifier::ext_equal]
pub struct Core {
    pub pp: Datum,
    pub sp: int,
    pub rr: Datum,
    pub stack: Seq<Slot>,
    pub env: int,
}

/// The model of one environment cell: its own bindings, later entries
/// shadowing earlier ones, and the optional outer cell.
#[verifier::ext_equal]
pub struct CellModel {
    pub entries: Seq<(Seq<char>, Datum)>,
    pub outer: Option<int>,
}

/// The model of the whole machine: registers plus the store of cells.
#[verifier::ext_equal]
pub struct Mach {
    pub core: Core,
    pub cells: Seq<CellModel>,
}

/// What one step of the machine yields: a next state, a final value with the
/// final store, or an error with the store as the failure left it.
#[verifier::ext_equal]
pub enum Outcome {
    Next(Mach),
    Done(Seq<CellModel>, Datum),
    Fail(Seq<CellModel>, LispError),
}

// ---------------------------------------------------------------------------
// Models of the executable types.
// ---------------------------------------------------------------------------

/// The model of an executable value.
pub open spec fn value_model(v: Value) -> Datum
    decreases v,
{
    match v {
        Value::Null => Datum::Null,
        Value::Cons(car, cdr) => Datum::Cons(
            Box::new(value_model(*car)),
            Box::new(value_model(*cdr)),
        ),
        Value::Bool(b) => Datum::Bool(b),
        Value::Num(n) => Datum::Num(n),
        Value::Ident(s) => Datum::Ident(s@),
        Value::Syntax(op) => Datum::Syntax(op),
        Value::Subr(op) => Datum::Subr(op),
        Value::Closure(ps, body, env) => Datum::Closure(
            Box::new(value_model(*ps)),
            Box::new(value_model(*body)),
            env as int,
        ),
        Value::Cont(snap) => Datum::Cont(Box::new(vm_model(*snap))),
    }
}

/// The model of the machine registers.
pub open spec fn vm_model(m: VM) -> Core
    decreases m,
{
    Core {
        pp: value_model(m.pp),
        sp: m.sp as int,
        rr: value_model(m.rr),
        stack: stack_model(m.stack@),
        env: m.env as int,
    }
}

/// The model of a stack, entry by entry.
pub open spec fn stack_model(s: Seq<StackData>) -> Seq<Slot>
    decreases s,
{
    if s.len() == 0 {
        Seq::empty()
    } else {
        stack_model(s.drop_last()).push(slot_model(s.last()))
    }
}

/// The model of one stack entry.
pub open spec fn slot_model(d: StackData) -> Slot
    decreases d,
{
    match d {
        StackData::Frame { next_sp, next_pp } => Slot::Frame {
            next_sp: next_sp as int,
            next_pp: value_model(next_pp),
        },
        StackData::Val(v) => Slot::Val(value_model(v)),
        StackData::Env(e) => Slot::Env(e as int),
    }
}

/// The model of one store of bindings, pair by pair.
pub open spec fn entries_model(s: Seq<(String, Value)>) -> Seq<(Seq<char>, Datum)>
    decreases s,
{
    if s.len() == 0 {
        Seq::empty()
    } else {
        entries_model(s.drop_last()).push((s.last().0@, value_model(s.last().1)))
    }
}

/// The model of one executable environment cell.
pub open spec fn cell_model(c: EnvCell) -> CellModel {
    CellModel {
        entries: entries_model(c.entries@),
        outer: match c.outer {
            Some(o) => Some(o as int),
            None => None,
        },
    }
}

/// The model of the executable store, cell by cell.
pub open spec fn cells_model(s: Seq<EnvCell>) -> Seq<CellModel>
    decreases s,
{
    if s.len() == 0 {
        Seq::empty()
    } else {
        cells_model(s.drop_last()).push(cell_model(s.last()))
    }
}

/// Updating one executable cell updates exactly the matching model cell.
pub proof fn lemma_cells_model_update(s: Seq<EnvCell>, i: int, c: EnvCell)
    requires
        0 <= i < s.len(),
    ensures
        cells_model(s.update(i, c)) =~= cells_model(s).update(i, cell_model(c)),
{
    lemma_cells_model_index(s);
    lemma_cells_model_index(s.update(i, c));
}

/// A cells model has one cell per entry, each the entry's own model.
pub proof fn lemma_cells_model_index(s: Seq<EnvCell>)
    ensures
        cells_model(s).len() == s.len(),
        forall|i: int| 0 <= i < s.len() ==> cells_model(s)[i] == cell_model(s[i]),
    decreases s,
{
    if s.len() > 0 {
        lemma_cells_model_index(s.drop_last());
    }
}

// ---------------------------------------------------------------------------
// The environment store: association lookup and chained lookup.
// ---------------------------------------------------------------------------

/// The last binding of `key` among `entries`, if any: later bindings shadow
/// earlier ones.
pub open spec fn assoc(entries: Seq<(Seq<char>, Datum)>, key: Seq<char>) -> Option<Datum>
    decreases entries.len(),
{
    if entries.len() == 0 {
        None
    } else if entries.last().0 == key {
        Some(entries.last().1)
    } else {
        assoc(entries.drop_last(), key)
    }
}

/// Inner-to-outer first-match lookup along the chain of cells starting at
/// `id`. Out-of-range ids and outer links that do not point strictly
/// downwards yield nothing.
pub open spec fn lookup(cells: Seq<CellModel>, id: int, key: Seq<char>) -> Option<Datum>
    decreases id,
{
    if id < 0 || id >= cells.len() {
        None
    } else {
        match assoc(cells[id].entries, key) {
            Some(v) => Some(v),
            None => match cells[id].outer {
                Some(o) => if 0 <= o < id {
                    lookup(cells, o, key)
                } else {
                    None
                },
                None => None,
            },
        }
    }
}

/// The store after a shallow insertion into cell `id`; an out-of-range id
/// leaves the store unchanged.
pub open spec fn store_insert(
    cells: Seq<CellModel>,
    id: int,
    key: Seq<char>,
    val: Datum,
) -> Seq<CellModel> {
    if 0 <= id < cells.len() {
        cells.update(
            id,
            CellModel { entries: cells[id].entries.push((key, val)), outer: cells[id].outer },
        )
    } else {
        cells
    }
}

/// The store after extending the chain at `outer` with one fresh empty cell.
pub open spec fn store_extend(cells: Seq<CellModel>, outer: int) -> Seq<CellModel> {
    cells.push(CellModel { entries: Seq::empty(), outer: Some(outer) })
}

/// The bindings of the default environment's root cell, in insertion order.
pub open spec fn default_entries() -> Seq<(Seq<char>, Datum)> {
    seq![
        ("define"@, Datum::Syntax(SyntaxOp::Define)),
        ("quote"@, Datum::Syntax(SyntaxOp::Quote)),
        ("lambda"@, Datum::Syntax(SyntaxOp::Lambda)),
        ("if"@, Datum::Syntax(SyntaxOp::If)),
        ("call/cc"@, Datum::Syntax(SyntaxOp::CallCc)),
        ("cons"@, Datum::Subr(SubrOp::Cons)),
        ("car"@, Datum::Subr(SubrOp::Car)),
        ("cdr"@, Datum::Subr(SubrOp::Cdr)),
        ("eqv?"@, Datum::Subr(SubrOp::Eqv)),
        ("="@, Datum::Subr(SubrOp::NumEq)),
        ("+"@, Datum::Subr(SubrOp::Add)),
        ("-"@, Datum::Subr(SubrOp::Sub)),
        ("*"@, Datum::Subr(SubrOp::Mul)),
        ("/"@, Datum::Subr(SubrOp::Div)),
        ("print"@, Datum::Subr(SubrOp::Print)),
        ("print-env"@, Datum::Subr(SubrOp::PrintEnv)),
    ]
}

/// Stepping `assoc` through a prefix: the scan over the first `j + 1`
/// bindings looks at binding `j` first.
pub proof fn lemma_assoc_take_step(s: Seq<(Seq<char>, Datum)>, key: Seq<char>, j: int)
    requires
        0 <= j < s.len(),
    ensures
        assoc(s.take(j + 1), key) == if s[j].0 == key {
            Some(s[j].1)
        } else {
            assoc(s.take(j), key)
        },
{
    assert(s.take(j + 1).drop_last() =~= s.take(j));
    assert(s.take(j + 1).last() == s[j]);
}

// ---------------------------------------------------------------------------
// Structural equality and the primitive procedures.
// ---------------------------------------------------------------------------

/// Structural equality as `eqv?` and `=` decide it: numbers by IEEE-754
/// equality, pairs and closures recursively, continuations never equal.
pub open spec fn eqv_datum(a: Datum, b: Datum) -> bool
    decreases a,
{
    match (a, b) {
        (Datum::Null, Datum::Null) => true,
        (Datum::Cons(a1, d1), Datum::Cons(a2, d2)) => eqv_datum(*a1, *a2) && eqv_datum(*d1, *d2),
        (Datum::Bool(x), Datum::Bool(y)) => x == y,
        (Datum::Num(x), Datum::Num(y)) => crate::num::num_eq_bits(x, y),
        (Datum::Ident(x), Datum::Ident(y)) => x == y,
        (Datum::Syntax(x), Datum::Syntax(y)) => x == y,
        (Datum::Subr(x), Datum::Subr(y)) => x == y,
        (Datum::Closure(p1, b1, e1), Datum::Closure(p2, b2, e2)) => eqv_datum(*p1, *p2)
            && eqv_datum(*b1, *b2) && e1 == e2,
        _ => false,
    }
}

/// Whether every element of `rest` is `eqv_datum`-equal to `first`.
pub open spec fn all_eqv(first: Datum, rest: Seq<Datum>) -> bool
    decreases rest.len(),
{
    rest.len() == 0 || (eqv_datum(first, rest.first()) && all_eqv(first, rest.drop_first()))
}

/// The left fold of one arithmetic primitive over `args`, starting from
/// `acc`; the first non-number stops it with a type mismatch.
pub open spec fn fold_arith(op: SubrOp, args: Seq<Datum>, acc: u64) -> Result<u64, LispError>
    decreases args.len(),
{
    if args.len() == 0 {
        Ok(acc)
    } else {
        match args.first() {
            Datum::Num(n) => {
                let acc2 = match op {
                    SubrOp::Add => crate::num::add_bits(acc, n),
                    SubrOp::Sub => crate::num::sub_bits(acc, n),
                    SubrOp::Mul => crate::num::mul_bits(acc, n),
                    _ => crate::num::div_bits(acc, n),
                };
                fold_arith(op, args.drop_first(), acc2)
            },
            _ => Err(LispError::TypeMismatch),
        }
    }
}

/// What a primitive procedure returns on evaluated arguments, or the error
/// it reports. Output written by `print` and `print-env` is not part of the
/// value semantics; both return true.
pub open spec fn subr_apply(op: SubrOp, args: Seq<Datum>) -> Result<Datum, LispError> {
    match op {
        SubrOp::Cons => if args.len() < 2 {
            Err(LispError::SyntaxError)
        } else {
            Ok(Datum::Cons(Box::new(args[0]), Box::new(args[1])))
        },
        SubrOp::Car => if args.len() < 1 {
            Err(LispError::SyntaxError)
        } else {
            match args[0] {
                Datum::Cons(a, _) => Ok(*a),
                _ => Err(LispError::TypeMismatch),
            }
        },
        SubrOp::Cdr => if args.len() < 1 {
            Err(LispError::SyntaxError)
        } else {
            match args[0] {
                Datum::Cons(_, d) => Ok(*d),
                _ => Err(LispError::TypeMismatch),
            }
        },
        SubrOp::Eqv => if args.len() < 1 {
            Err(LispError::SyntaxError)
        } else {
            Ok(Datum::Bool(all_eqv(args[0], args.drop_first())))
        },
        SubrOp::NumEq => if args.len() < 1 {
            Err(LispError::SyntaxError)
        } else {
            Ok(Datum::Bool(all_eqv(args[0], args.drop_first())))
        },
        SubrOp::Add => match fold_arith(SubrOp::Add, args, crate::num::NUM_ZERO) {
            Ok(n) => Ok(Datum::Num(n)),
            Err(e) => Err(e),
        },
        SubrOp::Sub => if args.len() < 1 {
            Err(LispError::SyntaxError)
        } else {
            match args[0] {
                Datum::Num(n) => match fold_arith(SubrOp::Sub, args.drop_first(), n) {
                    Ok(r) => Ok(Datum::Num(r)),
                    Err(e) => Err(e),
                },
                _ => Err(LispError::TypeMismatch),
            }
        },
        SubrOp::Mul => match fold_arith(SubrOp::Mul, args, crate::num::NUM_ONE) {
            Ok(n) => Ok(Datum::Num(n)),
            Err(e) => Err(e),
        },
        SubrOp::Div => if args.len() < 1 {
            Err(LispError::SyntaxError)
        } else {
            match args[0] {
                Datum::Num(n) => match fold_arith(SubrOp::Div, args.drop_first(), n) {
                    Ok(r) => Ok(Datum::Num(r)),
                    Err(e) => Err(e),
                },
                _ => Err(LispError::TypeMismatch),
            }
        },
        SubrOp::Print => Ok(Datum::Bool(true)),
        SubrOp::PrintEnv => Ok(Datum::Bool(true)),
    }
}

// ---------------------------------------------------------------------------
// The small-step semantics.
// ---------------------------------------------------------------------------

/// Peeling the program pointer: a cons yields its head and tail, the empty
/// list yields nothing, and a lone atom yields itself with an empty rest.
pub open spec fn next_form(pp: Datum) -> Option<(Datum, Datum)> {
    match pp {
        Datum::Null => None,
        Datum::Cons(car, cdr) => Some((*car, *cdr)),
        other => Some((other, Datum::Null)),
    }
}

/// The stack after `truncate(n)`: unchanged where `n` is no shorter prefix.
pub open spec fn trunc(s: Seq<Slot>, n: int) -> Seq<Slot> {
    if 0 <= n <= s.len() {
        s.take(n)
    } else {
        s
    }
}

/// The argument slots above the callee, as values; nothing if any slot is
/// not an evaluated value.
pub open spec fn vals_of(slots: Seq<Slot>) -> Option<Seq<Datum>>
    decreases slots.len(),
{
    if slots.len() == 0 {
        Some(Seq::empty())
    } else {
        match vals_of(slots.drop_last()) {
            Some(s) => match slots.last() {
                Slot::Val(d) => Some(s.push(d)),
                _ => None,
            },
            None => None,
        }
    }
}

/// A store, or a store as an aborted operation left it.
pub enum StoreOut {
    Good(Seq<CellModel>),
    Bad(Seq<CellModel>, LispError),
}

/// Binding a closure's parameters, left to right, each to the argument slot
/// at `pos` and following; a parameter that is no identifier, or one with no
/// argument slot to bind, is a syntax error; an unevaluated slot is the
/// machine's own fault. The walk stops at the first non-pair of the
/// parameter list.
pub open spec fn bind_params(
    cells: Seq<CellModel>,
    ext: int,
    params: Datum,
    stack: Seq<Slot>,
    pos: int,
) -> StoreOut
    decreases params,
{
    match params {
        Datum::Cons(p, rest) => match *p {
            Datum::Ident(name) => if !(0 <= pos < stack.len()) {
                StoreOut::Bad(cells, LispError::SyntaxError)
            } else {
                match stack[pos] {
                    Slot::Val(v) => bind_params(
                        store_insert(cells, ext, name, v),
                        ext,
                        *rest,
                        stack,
                        pos + 1,
                    ),
                    _ => StoreOut::Bad(cells, LispError::InternalError),
                }
            },
            _ => StoreOut::Bad(cells, LispError::SyntaxError),
        },
        _ => StoreOut::Good(cells),
    }
}

/// Applying the closure in the callee slot: extend its captured cell with
/// one fresh cell, bind the parameters, drop the call's slots, and enter the
/// body — reusing the current cell chain without saving it when the call is
/// in tail position (a saved environment already sits just under the frame
/// pointer).
pub open spec fn apply_closure(m: Mach) -> Outcome {
    let c = m.core;
    match c.stack[c.sp] {
        Slot::Val(Datum::Closure(ps, body, cenv)) => {
            if !(0 <= cenv < m.cells.len()) {
                Outcome::Fail(m.cells, LispError::InternalError)
            } else {
                let ext = m.cells.len() as int;
                match bind_params(store_extend(m.cells, cenv), ext, *ps, c.stack, c.sp + 1) {
                    StoreOut::Bad(cells2, e) => Outcome::Fail(cells2, e),
                    StoreOut::Good(cells2) => {
                        let stack1 = trunc(c.stack, c.sp);
                        if c.sp > 0 && (stack1[c.sp - 1] is Env) {
                            Outcome::Next(
                                Mach {
                                    core: Core { pp: *body, sp: c.sp, rr: c.rr, stack: stack1, env: ext },
                                    cells: cells2,
                                },
                            )
                        } else {
                            Outcome::Next(
                                Mach {
                                    core: Core {
                                        pp: *body,
                                        sp: c.sp + 1,
                                        rr: c.rr,
                                        stack: stack1.push(Slot::Env(c.env)),
                                        env: ext,
                                    },
                                    cells: cells2,
                                },
                            )
                        }
                    },
                }
            }
        },
        _ => Outcome::Fail(m.cells, LispError::InternalError),
    }
}

/// Applying the continuation in the callee slot: the top of the stack is the
/// single argument; the whole machine is replaced by the snapshot, the
/// argument becomes the result register, and the snapshot's own call slots
/// are dropped.
pub open spec fn apply_cont(m: Mach) -> Outcome {
    let c = m.core;
    match c.stack[c.sp] {
        Slot::Val(Datum::Cont(snap)) => match c.stack.last() {
            Slot::Val(arg) => {
                if snap.sp < 0 {
                    Outcome::Fail(m.cells, LispError::InternalError)
                } else {
                    Outcome::Next(
                        Mach {
                            core: Core {
                                pp: snap.pp,
                                sp: snap.sp - 1,
                                rr: arg,
                                stack: trunc(snap.stack, snap.sp),
                                env: snap.env,
                            },
                            cells: m.cells,
                        },
                    )
                }
            },
            _ => Outcome::Fail(m.cells, LispError::InternalError),
        },
        _ => Outcome::Fail(m.cells, LispError::InternalError),
    }
}

/// One special form receiving control. On entry the form's own slot is the
/// callee slot and `pp` holds its unevaluated arguments.
pub open spec fn syntax_apply(op: SyntaxOp, m: Mach) -> Outcome {
    let c = m.core;
    match op {
        SyntaxOp::Quote => match next_form(c.pp) {
            None => Outcome::Fail(m.cells, LispError::SyntaxError),
            Some((d, rest)) => Outcome::Next(
                Mach {
                    core: Core { pp: rest, sp: c.sp - 1, rr: d, stack: trunc(c.stack, c.sp), env: c.env },
                    cells: m.cells,
                },
            ),
        },
        SyntaxOp::Lambda => match next_form(c.pp) {
            None => Outcome::Fail(m.cells, LispError::SyntaxError),
            Some((ps, rest)) => match next_form(rest) {
                None => Outcome::Fail(m.cells, LispError::SyntaxError),
                Some((body, rest2)) => Outcome::Next(
                    Mach {
                        core: Core {
                            pp: rest2,
                            sp: c.sp - 1,
                            rr: Datum::Closure(Box::new(ps), Box::new(body), c.env),
                            stack: trunc(c.stack, c.sp),
                            env: c.env,
                        },
                        cells: m.cells,
                    },
                ),
            },
        },
        SyntaxOp::Define => match next_form(c.pp) {
            None => Outcome::Fail(m.cells, LispError::SyntaxError),
            Some((head, rest)) => match head {
                Datum::Ident(name) => Outcome::Next(
                    Mach {
                        core: Core {
                            pp: rest,
                            sp: c.sp,
                            rr: c.rr,
                            stack: trunc(c.stack, c.sp).push(
                                Slot::Val(Datum::Syntax(SyntaxOp::Define2)),
                            ).push(Slot::Val(Datum::Ident(name))),
                            env: c.env,
                        },
                        cells: m.cells,
                    },
                ),
                Datum::Cons(di, dargs) => match next_form(rest) {
                    None => Outcome::Fail(m.cells, LispError::SyntaxError),
                    Some((body, rest2)) => {
                        if !(rest2 is Null) {
                            Outcome::Fail(m.cells, LispError::SyntaxError)
                        } else {
                            match *di {
                                Datum::Ident(name) => Outcome::Next(
                                    Mach {
                                        core: Core {
                                            pp: rest2,
                                            sp: c.sp - 1,
                                            rr: Datum::Bool(true),
                                            stack: trunc(c.stack, c.sp),
                                            env: c.env,
                                        },
                                        cells: store_insert(
                                            m.cells,
                                            c.env,
                                            name,
                                            Datum::Closure(dargs, Box::new(body), c.env),
                                        ),
                                    },
                                ),
                                _ => Outcome::Fail(m.cells, LispError::SyntaxError),
                            }
                        }
                    },
                },
                _ => Outcome::Fail(m.cells, LispError::SyntaxError),
            },
        },
        SyntaxOp::Define2 => {
            if next_form(c.pp) is Some {
                Outcome::Fail(m.cells, LispError::SyntaxError)
            } else if c.stack.len() == 0 {
                Outcome::Fail(m.cells, LispError::SyntaxError)
            } else {
                match c.stack.last() {
                    Slot::Val(value) => {
                        let s1 = c.stack.drop_last();
                        if s1.len() == 0 {
                            Outcome::Fail(m.cells, LispError::SyntaxError)
                        } else {
                            match s1.last() {
                                Slot::Val(Datum::Ident(name)) => Outcome::Next(
                                    Mach {
                                        core: Core {
                                            pp: c.pp,
                                            sp: c.sp - 1,
                                            rr: Datum::Bool(true),
                                            stack: trunc(s1.drop_last(), c.sp),
                                            env: c.env,
                                        },
                                        cells: store_insert(m.cells, c.env, name, value),
                                    },
                                ),
                                Slot::Val(_) => Outcome::Fail(m.cells, LispError::TypeMismatch),
                                _ => Outcome::Fail(m.cells, LispError::SyntaxError),
                            }
                        }
                    },
                    _ => Outcome::Fail(m.cells, LispError::SyntaxError),
                }
            }
        },
        SyntaxOp::If => Outcome::Next(
            Mach {
                core: Core {
                    pp: c.pp,
                    sp: c.sp,
                    rr: c.rr,
                    stack: trunc(c.stack, c.sp).push(Slot::Val(Datum::Syntax(SyntaxOp::If2))),
                    env: c.env,
                },
                cells: m.cells,
            },
        ),
        SyntaxOp::If2 => {
            if c.stack.len() == 0 {
                Outcome::Fail(m.cells, LispError::SyntaxError)
            } else {
                match c.stack.last() {
                    Slot::Val(Datum::Bool(test)) => match next_form(c.pp) {
                        None => Outcome::Fail(m.cells, LispError::SyntaxError),
                        Some((then_e, rest)) => {
                            let else_e = match next_form(rest) {
                                Some((e, _)) => e,
                                None => Datum::Null,
                            };
                            Outcome::Next(
                                Mach {
                                    core: Core {
                                        pp: if test {
                                            then_e
                                        } else {
                                            else_e
                                        },
                                        sp: c.sp,
                                        rr: c.rr,
                                        stack: trunc(c.stack.drop_last(), c.sp),
                                        env: c.env,
                                    },
                                    cells: m.cells,
                                },
                            )
                        },
                    },
                    Slot::Val(_) => Outcome::Fail(m.cells, LispError::TypeMismatch),
                    _ => Outcome::Fail(m.cells, LispError::SyntaxError),
                }
            }
        },
        SyntaxOp::CallCc => Outcome::Next(
            Mach {
                core: Core {
                    pp: c.pp,
                    sp: c.sp,
                    rr: c.rr,
                    stack: trunc(c.stack, c.sp).push(Slot::Val(Datum::Syntax(SyntaxOp::CallCc2))),
                    env: c.env,
                },
                cells: m.cells,
            },
        ),
        SyntaxOp::CallCc2 => {
            let cont = Datum::Cont(Box::new(c));
            if c.stack.len() == 0 {
                Outcome::Fail(m.cells, LispError::SyntaxError)
            } else {
                match c.stack.last() {
                    Slot::Val(lambda) => {
                        if !(lambda is Closure) {
                            Outcome::Fail(m.cells, LispError::SyntaxError)
                        } else {
                            let s1 = c.stack.drop_last();
                            if s1.len() == 0 {
                                Outcome::Fail(m.cells, LispError::SyntaxError)
                            } else {
                                match s1.last() {
                                    Slot::Val(_) => Outcome::Next(
                                        Mach {
                                            core: Core {
                                                pp: c.pp,
                                                sp: c.sp,
                                                rr: c.rr,
                                                stack: s1.drop_last().push(Slot::Val(lambda)).push(
                                                    Slot::Val(cont),
                                                ),
                                                env: c.env,
                                            },
                                            cells: m.cells,
                                        },
                                    ),
                                    _ => Outcome::Fail(m.cells, LispError::SyntaxError),
                                }
                            }
                        }
                    },
                    _ => Outcome::Fail(m.cells, LispError::SyntaxError),
                }
            }
        },
    }
}

/// Completing the sub-expression whose frame is the callee slot: the frame is
/// replaced by the just-produced value, and where that value lands in the
/// callee slot of a special form, the form receives control at once.
pub open spec fn frame_done(m: Mach) -> Outcome {
    let c = m.core;
    match c.stack[c.sp] {
        Slot::Frame { next_sp, next_pp } => {
            let stack1 = c.stack.drop_last().push(Slot::Val(c.rr));
            if !(0 <= next_sp < stack1.len()) {
                Outcome::Fail(m.cells, LispError::InternalError)
            } else {
                let core1 = Core { pp: next_pp, sp: next_sp, rr: c.rr, stack: stack1, env: c.env };
                match stack1[next_sp] {
                    Slot::Val(Datum::Syntax(op)) => syntax_apply(
                        op,
                        Mach { core: core1, cells: m.cells },
                    ),
                    _ => Outcome::Next(Mach { core: core1, cells: m.cells }),
                }
            }
        },
        _ => Outcome::Fail(m.cells, LispError::InternalError),
    }
}

/// Completion: runs whenever the program pointer is exhausted. An empty
/// argument region means the application was empty; a frame pointer below
/// zero means the outermost expression is reduced; otherwise the callee
/// slot decides.
pub open spec fn complete(m: Mach) -> Outcome {
    let c = m.core;
    if c.sp == c.stack.len() {
        Outcome::Next(
            Mach {
                core: Core { pp: c.pp, sp: c.sp - 1, rr: Datum::Null, stack: c.stack, env: c.env },
                cells: m.cells,
            },
        )
    } else if c.sp < 0 {
        Outcome::Done(m.cells, c.rr)
    } else if c.sp > c.stack.len() {
        Outcome::Fail(m.cells, LispError::InternalError)
    } else {
        match c.stack[c.sp] {
            Slot::Val(Datum::Closure(_, _, _)) => apply_closure(m),
            Slot::Val(Datum::Subr(op)) => {
                match vals_of(c.stack.skip(c.sp + 1)) {
                    None => Outcome::Fail(m.cells, LispError::InternalError),
                    Some(args) => match subr_apply(op, args) {
                        Err(e) => Outcome::Fail(m.cells, e),
                        Ok(d) => Outcome::Next(
                            Mach {
                                core: Core {
                                    pp: c.pp,
                                    sp: c.sp - 1,
                                    rr: d,
                                    stack: trunc(c.stack, c.sp),
                                    env: c.env,
                                },
                                cells: m.cells,
                            },
                        ),
                    },
                }
            },
            Slot::Val(Datum::Cont(_)) => apply_cont(m),
            Slot::Val(_) => Outcome::Fail(m.cells, LispError::InvalidApplication),
            Slot::Frame { .. } => frame_done(m),
            Slot::Env(e) => Outcome::Next(
                Mach {
                    core: Core {
                        pp: c.pp,
                        sp: c.sp - 1,
                        rr: c.rr,
                        stack: c.stack.drop_last(),
                        env: e,
                    },
                    cells: m.cells,
                },
            ),
        }
    }
}

/// One step of the machine: descend into a compound expression, or evaluate
/// the atom at the program pointer and complete.
pub open spec fn step(m: Mach) -> Outcome {
    let c = m.core;
    match c.pp {
        Datum::Cons(car, cdr) => {
            let stack1 = c.stack.push(Slot::Frame { next_sp: c.sp, next_pp: *cdr });
            Outcome::Next(
                Mach {
                    core: Core {
                        pp: *car,
                        sp: stack1.len() as int,
                        rr: c.rr,
                        stack: stack1,
                        env: c.env,
                    },
                    cells: m.cells,
                },
            )
        },
        Datum::Null => complete(m),
        Datum::Ident(name) => match lookup(m.cells, c.env, name) {
            Some(v) => complete(
                Mach {
                    core: Core { pp: Datum::Null, sp: c.sp - 1, rr: v, stack: c.stack, env: c.env },
                    cells: m.cells,
                },
            ),
            None => Outcome::Fail(m.cells, LispError::UnboundVariable),
        },
        other => complete(
            Mach {
                core: Core { pp: Datum::Null, sp: c.sp - 1, rr: other, stack: c.stack, env: c.env },
                cells: m.cells,
            },
        ),
    }
}

/// The machine after `k` more steps, or however it halted on the way.
pub open spec fn run_from(m: Mach, k: nat) -> Outcome
    decreases k,
{
    if k == 0 {
        Outcome::Next(m)
    } else {
        match step(m) {
            Outcome::Next(m2) => run_from(m2, (k - 1) as nat),
            halted => halted,
        }
    }
}

/// The machine that starts reducing `pp` in environment `env` over `cells`.
pub open spec fn init_mach(cells: Seq<CellModel>, env: int, pp: Datum) -> Mach {
    Mach {
        core: Core { pp: pp, sp: 0, rr: Datum::Null, stack: Seq::empty(), env: env },
        cells: cells,
    }
}

/// What evaluating one form yields within `fuel` steps: the value or the
/// error, and the store as evaluation left it.
pub open spec fn eval_model(cells: Seq<CellModel>, env: int, d: Datum, fuel: nat) -> (Result<
    Datum,
    LispError,
>, Seq<CellModel>) {
    match run_from(init_mach(cells, env, d), fuel) {
        Outcome::Next(m) => (Err(LispError::OutOfSteps), m.cells),
        Outcome::Done(cs, v) => (Ok(v), cs),
        Outcome::Fail(cs, e) => (Err(e), cs),
    }
}

/// A machine that has halted stays halted however many more steps are
/// allowed.
pub proof fn lemma_run_from_halted(m: Mach, k: nat, k2: nat)
    requires
        k <= k2,
        !(run_from(m, k) is Next),
    ensures
        run_from(m, k2) == run_from(m, k),
    decreases k2,
{
    if k > 0 {
        match step(m) {
            Outcome::Next(m2) => {
                lemma_run_from_halted(m2, (k - 1) as nat, (k2 - 1) as nat);
            },
            _ => {
                if k2 > k {
                    lemma_run_from_halted(m, k, (k2 - 1) as nat);
                }
            },
        }
    }
}

/// Extending a run by one step.
pub proof fn lemma_run_from_snoc(m: Mach, k: nat, m1: Mach)
    requires
        run_from(m, k) == Outcome::Next(m1),
    ensures
        run_from(m, k + 1) == step(m1),
    decreases k,
{
    reveal_with_fuel(run_from, 2);
    if k > 0 {
        match step(m) {
            Outcome::Next(m2) => {
                lemma_run_from_snoc(m2, (k - 1) as nat, m1);
            },
            _ => {},
        }
    }
}

// ---------------------------------------------------------------------------
// Basic facts about the models.
// ---------------------------------------------------------------------------

/// The models of a sequence of values, value by value.
pub open spec fn datum_seq(s: Seq<Value>) -> Seq<Datum>
    decreases s,
{
    if s.len() == 0 {
        Seq::empty()
    } else {
        datum_seq(s.drop_last()).push(value_model(s.last()))
    }
}

/// A datum sequence has one model per value.
pub proof fn lemma_datum_seq_index(s: Seq<Value>)
    ensures
        datum_seq(s).len() == s.len(),
        forall|i: int| 0 <= i < s.len() ==> datum_seq(s)[i] == value_model(s[i]),
    decreases s,
{
    if s.len() > 0 {
        lemma_datum_seq_index(s.drop_last());
    }
}

/// Truncating the executable stack truncates the model stack.
pub proof fn lemma_stack_model_take(s: Seq<StackData>, n: int)
    requires
        0 <= n <= s.len(),
    ensures
        stack_model(s.take(n)) =~= stack_model(s).take(n),
{
    lemma_stack_model_index(s);
    lemma_stack_model_index(s.take(n));
}

/// Chaining `all_eqv` is the same as comparing every element to the first.
pub proof fn lemma_all_eqv_iff(f: Datum, rest: Seq<Datum>)
    ensures
        all_eqv(f, rest) <==> (forall|i: int| 0 <= i < rest.len() ==> eqv_datum(f, rest[i])),
    decreases rest.len(),
{
    if rest.len() > 0 {
        lemma_all_eqv_iff(f, rest.drop_first());
        assert(forall|i: int| 0 <= i < rest.drop_first().len()
            ==> rest.drop_first()[i] == rest[i + 1]);
        if eqv_datum(f, rest.first()) && all_eqv(f, rest.drop_first()) {
            assert forall|i: int| 0 <= i < rest.len() implies eqv_datum(f, rest[i]) by {
                if i > 0 {
                    assert(rest[i] == rest.drop_first()[i - 1]);
                }
            }
        }
    }
}

/// Collecting values slot by slot: one more slot extends the collection or
/// spoils it.
pub proof fn lemma_vals_of_extend(s: Seq<Slot>, i: int)
    requires
        0 <= i < s.len(),
    ensures
        vals_of(s.take(i + 1)) == match vals_of(s.take(i)) {
            Some(acc) => match s[i] {
                Slot::Val(d) => Some(acc.push(d)),
                _ => None::<Seq<Datum>>,
            },
            None => None::<Seq<Datum>>,
        },
{
    assert(s.take(i + 1).drop_last() =~= s.take(i));
    assert(s.take(i + 1).last() == s[i]);
}

/// A spoiled prefix spoils the whole collection.
pub proof fn lemma_vals_of_none(s: Seq<Slot>, i: int)
    requires
        0 <= i <= s.len(),
        vals_of(s.take(i)) is None,
    ensures
        vals_of(s) is None,
    decreases s.len(),
{
    if i == s.len() {
        assert(s.take(i) =~= s);
    } else {
        assert(s.drop_last().take(i) =~= s.take(i));
        lemma_vals_of_none(s.drop_last(), i);
    }
}

/// One step of the arithmetic fold, read off the slice at `i`.
pub proof fn lemma_fold_arith_step(op: SubrOp, s: Seq<Datum>, i: int, acc: u64)
    requires
        0 <= i < s.len(),
    ensures
        fold_arith(op, s.skip(i), acc) == match s[i] {
            Datum::Num(n) => fold_arith(
                op,
                s.skip(i + 1),
                match op {
                    SubrOp::Add => crate::num::add_bits(acc, n),
                    SubrOp::Sub => crate::num::sub_bits(acc, n),
                    SubrOp::Mul => crate::num::mul_bits(acc, n),
                    _ => crate::num::div_bits(acc, n),
                },
            ),
            _ => Err(LispError::TypeMismatch),
        },
{
    assert(s.skip(i).first() == s[i]);
    assert(s.skip(i).drop_first() =~= s.skip(i + 1));
}

/// A stack model has one slot per entry, each the entry's own model.
pub proof fn lemma_stack_model_index(s: Seq<StackData>)
    ensures
        stack_model(s).len() == s.len(),
        forall|i: int| 0 <= i < s.len() ==> stack_model(s)[i] == slot_model(s[i]),
    decreases s,
{
    if s.len() > 0 {
        lemma_stack_model_index(s.drop_last());
    }
}

/// An entries model has one pair per binding, each the binding's own model.
pub proof fn lemma_entries_model_index(s: Seq<(String, Value)>)
    ensures
        entries_model(s).len() == s.len(),
        forall|i: int| 0 <= i < s.len() ==> entries_model(s)[i]
            == (s[i].0@, value_model(s[i].1)),
    decreases s,
{
    if s.len() > 0 {
        lemma_entries_model_index(s.drop_last());
    }
}

} // verus!
