//! The special forms and the primitive procedures.
//!
//! Each special form receives the machine itself and consumes its raw
//! arguments from the program pointer; each primitive receives the evaluated
//! argument slots. Both are proved against their counterparts in `sem`.

use vstd::prelude::*;

use crate::env::ChainMap;
use crate::error::LispError;
use crate::eval::VM;
use crate::sem;
use crate::sem::Datum;
use crate::sem::Mach;
use crate::sem::Outcome;
use crate::value::SubrOp;
use crate::value::SyntaxOp;
use crate::value::Value;

verus! {

/// The left fold of one arithmetic primitive over the argument slots from
/// `from` on, starting from the bits `acc0`.
fn arith_fold(op: SubrOp, args: &Vec<Value>, from: usize, acc0: u64) -> (r: Result<
    u64,
    LispError,
>)
    requires
        op is Add || op is Sub || op is Mul || op is Div,
        from <= args@.len(),
    ensures
        r == sem::fold_arith(op, sem::datum_seq(args@).skip(from as int), acc0),
{
    proof {
        sem::lemma_datum_seq_index(args@);
    }
    let ghost ds = sem::datum_seq(args@);
    let len = args.len();
    let mut acc = acc0;
    let mut i = from;
    while i < len
        invariant
            op is Add || op is Sub || op is Mul || op is Div,
            from <= i <= len,
            len == args@.len(),
            ds == sem::datum_seq(args@),
            ds.len() == args@.len(),
            forall|j: int| 0 <= j < args@.len() ==> ds[j] == sem::value_model(args@[j]),
            sem::fold_arith(op, ds.skip(from as int), acc0) == sem::fold_arith(
                op,
                ds.skip(i as int),
                acc,
            ),
        decreases len - i,
    {
        proof {
            sem::lemma_fold_arith_step(op, ds, i as int, acc);
        }
        match &args[i] {
            Value::Num(n) => {
                acc = match op {
                    SubrOp::Add => crate::num::num_add(acc, *n),
                    SubrOp::Sub => crate::num::num_sub(acc, *n),
                    SubrOp::Mul => crate::num::num_mul(acc, *n),
                    _ => crate::num::num_div(acc, *n),
                };
            },
            _ => {
                return Err(LispError::TypeMismatch);
            },
        }
        i = i + 1;
    }
    proof {
        assert(ds.skip(len as int) =~= Seq::<Datum>::empty());
    }
    Ok(acc)
}

/// Whether every later argument equals the first, as `eqv?` decides it.
fn all_args_eqv(args: &Vec<Value>) -> (r: bool)
    requires
        args@.len() >= 1,
    ensures
        r == sem::all_eqv(sem::value_model(args@[0]), sem::datum_seq(args@).drop_first()),
{
    proof {
        sem::lemma_datum_seq_index(args@);
        sem::lemma_all_eqv_iff(
            sem::value_model(args@[0]),
            sem::datum_seq(args@).drop_first(),
        );
    }
    let ghost f = sem::value_model(args@[0]);
    let ghost rest = sem::datum_seq(args@).drop_first();
    let len = args.len();
    let mut ok = true;
    let mut i: usize = 1;
    while i < len && ok
        invariant
            1 <= i <= len,
            len == args@.len(),
            f == sem::value_model(args@[0]),
            rest == sem::datum_seq(args@).drop_first(),
            rest.len() == len - 1,
            forall|j: int| 0 <= j < rest.len() ==> rest[j] == sem::value_model(args@[j + 1]),
            ok ==> forall|j: int| 0 <= j < i - 1 ==> sem::eqv_datum(f, rest[j]),
            !ok ==> exists|j: int| 0 <= j < rest.len() && !sem::eqv_datum(f, rest[j]),
        decreases len - i,
    {
        if !args[0].eqv(&args[i]) {
            proof {
                assert(!sem::eqv_datum(f, rest[i - 1]));
            }
            ok = false;
        }
        i = i + 1;
    }
    proof {
        sem::lemma_all_eqv_iff(f, rest);
    }
    ok
}

/// One primitive procedure applied to its evaluated arguments. `print` and
/// `print-env` write to standard output as they go; the value they return is
/// all the machine semantics sees of them.
pub fn subr_dispatch(op: SubrOp, args: &Vec<Value>, heap: &ChainMap, env: usize) -> (r: Result<
    Value,
    LispError,
>)
    ensures
        ({
            let spec_r = sem::subr_apply(op, sem::datum_seq(args@));
            match r {
                Ok(v) => spec_r == Ok::<Datum, LispError>(v@),
                Err(e) => spec_r == Err::<Datum, LispError>(e),
            }
        }),
{
    proof {
        sem::lemma_datum_seq_index(args@);
    }
    match op {
        SubrOp::Cons => {
            if args.len() < 2 {
                Err(LispError::SyntaxError)
            } else {
                Ok(
                    Value::Cons(
                        Box::new(args[0].clone()),
                        Box::new(args[1].clone()),
                    ),
                )
            }
        },
        SubrOp::Car => {
            if args.len() < 1 {
                Err(LispError::SyntaxError)
            } else {
                match &args[0] {
                    Value::Cons(a, _) => Ok((**a).clone()),
                    _ => Err(LispError::TypeMismatch),
                }
            }
        },
        SubrOp::Cdr => {
            if args.len() < 1 {
                Err(LispError::SyntaxError)
            } else {
                match &args[0] {
                    Value::Cons(_, d) => Ok((**d).clone()),
                    _ => Err(LispError::TypeMismatch),
                }
            }
        },
        SubrOp::Eqv => {
            if args.len() < 1 {
                Err(LispError::SyntaxError)
            } else {
                Ok(Value::Bool(all_args_eqv(args)))
            }
        },
        SubrOp::NumEq => {
            if args.len() < 1 {
                Err(LispError::SyntaxError)
            } else {
                Ok(Value::Bool(all_args_eqv(args)))
            }
        },
        SubrOp::Add => {
            match arith_fold(op, args, 0, crate::num::NUM_ZERO) {
                Ok(n) => {
                    proof {
                        assert(sem::datum_seq(args@).skip(0) =~= sem::datum_seq(args@));
                    }
                    Ok(Value::Num(n))
                },
                Err(e) => {
                    proof {
                        assert(sem::datum_seq(args@).skip(0) =~= sem::datum_seq(args@));
                    }
                    Err(e)
                },
            }
        },
        SubrOp::Sub => {
            if args.len() < 1 {
                Err(LispError::SyntaxError)
            } else {
                match &args[0] {
                    Value::Num(n) => {
                        proof {
                            assert(sem::datum_seq(args@).skip(1) =~= sem::datum_seq(
                                args@,
                            ).drop_first());
                        }
                        match arith_fold(op, args, 1, *n) {
                            Ok(m) => Ok(Value::Num(m)),
                            Err(e) => Err(e),
                        }
                    },
                    _ => Err(LispError::TypeMismatch),
                }
            }
        },
        SubrOp::Mul => {
            match arith_fold(op, args, 0, crate::num::NUM_ONE) {
                Ok(n) => {
                    proof {
                        assert(sem::datum_seq(args@).skip(0) =~= sem::datum_seq(args@));
                    }
                    Ok(Value::Num(n))
                },
                Err(e) => {
                    proof {
                        assert(sem::datum_seq(args@).skip(0) =~= sem::datum_seq(args@));
                    }
                    Err(e)
                },
            }
        },
        SubrOp::Div => {
            if args.len() < 1 {
                Err(LispError::SyntaxError)
            } else {
                match &args[0] {
                    Value::Num(n) => {
                        proof {
                            assert(sem::datum_seq(args@).skip(1) =~= sem::datum_seq(
                                args@,
                            ).drop_first());
                        }
                        match arith_fold(op, args, 1, *n) {
                            Ok(m) => Ok(Value::Num(m)),
                            Err(e) => Err(e),
                        }
                    },
                    _ => Err(LispError::TypeMismatch),
                }
            }
        },
        SubrOp::Print => {
            let len = args.len();
            let mut i: usize = 0;
            while i < len
                invariant
                    i <= len,
                    len == args@.len(),
                decreases len - i,
            {
                let t = args[i].to_text();
                crate::value::emit_line(t.as_str());
                i = i + 1;
            }
            Ok(Value::Bool(true))
        },
        SubrOp::PrintEnv => {
            heap.print(env);
            Ok(Value::Bool(true))
        },
    }
}

/// One special form receiving control, straight after its own slot became
/// the callee slot.
pub fn syntax_dispatch(op: SyntaxOp, vm: &mut VM, heap: &mut ChainMap) -> (r: Result<
    (),
    LispError,
>)
    requires
        old(vm).sp >= 0,
        old(heap).wf(),
    ensures
        final(heap).wf(),
        ({
            let m0 = (Mach { core: old(vm)@, cells: old(heap)@ });
            match r {
                Ok(()) => sem::syntax_apply(op, m0) == Outcome::Next(
                    Mach { core: final(vm)@, cells: final(heap)@ },
                ),
                Err(e) => sem::syntax_apply(op, m0) == Outcome::Fail(final(heap)@, e),
            }
        }),
{
    let ghost m0 = (Mach { core: vm@, cells: heap@ });
    match op {
        SyntaxOp::Quote => {
            match vm.pop_pp() {
                None => Err(LispError::SyntaxError),
                Some(d) => {
                    vm.ret(d)?;
                    proof {
                        assert(sem::syntax_apply(op, m0) =~~= Outcome::Next(
                            Mach { core: vm@, cells: heap@ },
                        ));
                    }
                    Ok(())
                },
            }
        },
        SyntaxOp::Lambda => {
            let ps = match vm.pop_pp() {
                None => {
                    return Err(LispError::SyntaxError);
                },
                Some(v) => v,
            };
            let body = match vm.pop_pp() {
                None => {
                    return Err(LispError::SyntaxError);
                },
                Some(v) => v,
            };
            let clo = vm.new_closure(ps, body);
            vm.ret(clo)?;
            proof {
                assert(sem::syntax_apply(op, m0) =~~= Outcome::Next(
                    Mach { core: vm@, cells: heap@ },
                ));
            }
            Ok(())
        },
        SyntaxOp::Define => {
            match vm.pop_pp() {
                None => Err(LispError::SyntaxError),
                Some(Value::Ident(name)) => {
                    vm.truncate_stack();
                    vm.eval_then(SyntaxOp::Define2);
                    vm.push_value(Value::Ident(name));
                    proof {
                        assert(sem::syntax_apply(op, m0) =~~= Outcome::Next(
                            Mach { core: vm@, cells: heap@ },
                        ));
                    }
                    Ok(())
                },
                Some(Value::Cons(di, dargs)) => {
                    let ghost dim = (*di)@;
                    let ghost dargm = (*dargs)@;
                    let body = match vm.pop_pp() {
                        None => {
                            return Err(LispError::SyntaxError);
                        },
                        Some(v) => v,
                    };
                    if vm.pop_pp().is_some() {
                        return Err(LispError::SyntaxError);
                    }
                    match *di {
                        Value::Ident(name) => {
                            let ghost n0 = name@;
                            let clo = vm.new_closure(*dargs, body);
                            vm.define(heap, name, clo);
                            vm.ret(Value::Bool(true))?;
                            proof {
                                assert(sem::next_form(m0.core.pp) is Some);
                                let hp = sem::next_form(m0.core.pp)->0;
                                assert(hp.0 == Datum::Cons(Box::new(dim), Box::new(dargm)));
                                assert(dim == Datum::Ident(n0));
                                let bp = sem::next_form(hp.1);
                                assert(bp is Some);
                                let bpp = bp->0;
                                assert(bpp.1 is Null);
                                let sa = sem::syntax_apply(op, m0);
                                assert(sa is Next);
                                let mn = sa->Next_0;
                                assert(mn.cells =~~= heap@);
                                assert(sem::syntax_apply(op, m0) =~~= Outcome::Next(
                                    Mach { core: vm@, cells: heap@ },
                                ));
                            }
                            Ok(())
                        },
                        _ => Err(LispError::SyntaxError),
                    }
                },
                Some(_) => Err(LispError::SyntaxError),
            }
        },
        SyntaxOp::Define2 => {
            if vm.pop_pp().is_some() {
                return Err(LispError::SyntaxError);
            }
            let value = vm.pop_value()?;
            let name = match vm.pop_value()? {
                Value::Ident(s) => s,
                _ => {
                    return Err(LispError::TypeMismatch);
                },
            };
            vm.define(heap, name, value);
            vm.ret(Value::Bool(true))?;
            proof {
                assert(sem::syntax_apply(op, m0) =~~= Outcome::Next(
                    Mach { core: vm@, cells: heap@ },
                ));
            }
            Ok(())
        },
        SyntaxOp::If => {
            vm.truncate_stack();
            vm.eval_then(SyntaxOp::If2);
            proof {
                assert(sem::syntax_apply(op, m0) =~~= Outcome::Next(
                    Mach { core: vm@, cells: heap@ },
                ));
            }
            Ok(())
        },
        SyntaxOp::If2 => {
            let test = match vm.pop_value()? {
                Value::Bool(b) => b,
                _ => {
                    return Err(LispError::TypeMismatch);
                },
            };
            let then_e = match vm.pop_pp() {
                None => {
                    return Err(LispError::SyntaxError);
                },
                Some(v) => v,
            };
            let else_e = match vm.pop_pp() {
                None => Value::Null,
                Some(v) => v,
            };
            if test {
                vm.set_pp(then_e);
            } else {
                vm.set_pp(else_e);
            }
            vm.truncate_stack();
            proof {
                assert(sem::syntax_apply(op, m0) =~~= Outcome::Next(
                    Mach { core: vm@, cells: heap@ },
                ));
            }
            Ok(())
        },
        SyntaxOp::CallCc => {
            vm.truncate_stack();
            vm.eval_then(SyntaxOp::CallCc2);
            proof {
                assert(sem::syntax_apply(op, m0) =~~= Outcome::Next(
                    Mach { core: vm@, cells: heap@ },
                ));
            }
            Ok(())
        },
        SyntaxOp::CallCc2 => {
            let cont = Value::Cont(Box::new(vm.clone()));
            let lambda = vm.pop_value()?;
            match &lambda {
                Value::Closure(_, _, _) => {},
                _ => {
                    return Err(LispError::SyntaxError);
                },
            }
            vm.pop_value()?;
            vm.push_value(lambda);
            vm.push_value(cont);
            proof {
                assert(sem::syntax_apply(op, m0) =~~= Outcome::Next(
                    Mach { core: vm@, cells: heap@ },
                ));
            }
            Ok(())
        },
    }
}

} // verus!
