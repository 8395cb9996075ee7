//! The virtual machine: registers, data stack, and the trampoline loop.
//!
//! The machine reduces one Lisp value without host recursion: recursion is
//! modelled on the data stack, so deep user programs use bounded host stack,
//! and the whole state can be copied into a continuation value.

use std::io::Write;

use vstd::prelude::*;

use crate::env::ChainMap;
use crate::sem;
use crate::sem::Core;
use crate::sem::Datum;
use crate::sem::Mach;
use crate::sem::Outcome;
use crate::sem::Slot;
use crate::value::SyntaxOp;
use crate::value::Value;

verus! {

broadcast use vstd::seq::axiom_seq_index_decreases;

/// One entry of the machine's data stack.
///
/// `Frame` records where to resume when the sub-expression under reduction is
/// done.
#[derive(Debug)]
pub enum StackData {
    Frame { next_sp: i128, next_pp: Value },
    Val(Value),
    Env(usize),
}

/// The machine.
///
/// `pp` is the value under reduction; `rr` the last result; `env` the index
/// of the current environment cell. `sp` is the frame pointer: the index of
/// the current call's callee slot, -1 once the outermost expression has been
/// reduced; it is wide enough that its arithmetic never wraps.
#[derive(Debug)]
pub struct VM {
    pub pp: Value,
    pub sp: i128,
    pub rr: Value,
    pub stack: Vec<StackData>,
    pub env: usize,
}

impl View for StackData {
    type V = Slot;

    open spec fn view(&self) -> Slot {
        sem::slot_model(*self)
    }
}

impl View for VM {
    type V = Core;

    open spec fn view(&self) -> Core {
        sem::vm_model(*self)
    }
}

impl VM {
    /// The evaluated argument slots above the callee, cloned in order; an
    /// entry that is no value is the machine's own fault.
    pub fn args(&self) -> (r: Result<Vec<Value>, crate::error::LispError>)
        requires
            0 <= self.sp < self@.stack.len(),
        ensures
            match r {
                Ok(vs) => sem::vals_of(self@.stack.skip(self@.sp + 1)) == Some(
                    sem::datum_seq(vs@),
                ),
                Err(e) => e == crate::error::LispError::InternalError && sem::vals_of(
                    self@.stack.skip(self@.sp + 1),
                ) is None,
            },
    {
        proof {
            sem::lemma_stack_model_index(self.stack@);
        }
        let ghost sk = self@.stack.skip(self@.sp + 1);
        let len = self.stack.len();
        let start = (self.sp + 1) as usize;
        let mut out: Vec<Value> = Vec::new();
        let mut i = start;
        while i < len
            invariant
                start == self.sp + 1,
                start <= i <= len,
                len == self.stack@.len(),
                sem::stack_model(self.stack@).len() == self.stack@.len(),
                forall|j: int| 0 <= j < self.stack@.len()
                    ==> sem::stack_model(self.stack@)[j] == sem::slot_model(self.stack@[j]),
                sk == self@.stack.skip(self@.sp + 1),
                sk.len() == len - start,
                forall|j: int| 0 <= j < sk.len() ==> sk[j] == self@.stack[start + j],
                sem::vals_of(sk.take(i - start)) == Some(sem::datum_seq(out@)),
            decreases len - i,
        {
            proof {
                sem::lemma_vals_of_extend(sk, i - start);
                sem::lemma_datum_seq_index(out@);
            }
            match &self.stack[i] {
                StackData::Val(v) => {
                    let ghost prev = out@;
                    out.push(v.clone());
                    proof {
                        assert(out@.drop_last() =~= prev);
                    }
                },
                _ => {
                    proof {
                        sem::lemma_vals_of_none(sk, i - start + 1);
                    }
                    return Err(crate::error::LispError::InternalError);
                },
            }
            i = i + 1;
        }
        proof {
            assert(sk.take(len - start) =~= sk);
        }
        Ok(out)
    }

    /// Deliver a result: write the result register, drop the call's slots,
    /// and hand control back to the enclosing frame.
    pub fn ret(&mut self, val: Value) -> (r: Result<(), crate::error::LispError>)
        requires
            old(self).sp >= 0,
        ensures
            r is Ok,
            final(self)@ == (Core {
                sp: old(self)@.sp - 1,
                rr: val@,
                stack: sem::trunc(old(self)@.stack, old(self)@.sp),
                ..old(self)@
            }),
    {
        self.rr = val;
        self.truncate_stack();
        self.sp = self.sp - 1;
        Ok(())
    }

    /// Consume the head of the program pointer: the head of a list, a lone
    /// atom whole, nothing once it is exhausted.
    pub fn pop_pp(&mut self) -> (r: Option<Value>)
        ensures
            final(self)@.sp == old(self)@.sp,
            final(self)@.rr == old(self)@.rr,
            final(self)@.stack == old(self)@.stack,
            final(self)@.env == old(self)@.env,
            match r {
                None => sem::next_form(old(self)@.pp) is None && final(self)@.pp == old(
                    self,
                )@.pp,
                Some(v) => sem::next_form(old(self)@.pp) == Some((v@, final(self)@.pp)),
            },
    {
        match self.pp.clone() {
            Value::Null => None,
            Value::Cons(car, cdr) => {
                self.pp = *cdr;
                Some(*car)
            },
            other => {
                self.pp = Value::Null;
                Some(other)
            },
        }
    }

    /// Reseat the program pointer.
    pub fn set_pp(&mut self, value: Value)
        ensures
            final(self)@ == (Core { pp: value@, ..old(self)@ }),
    {
        self.pp = value;
    }

    /// Pop the top of the stack, which must be an evaluated value.
    pub fn pop_value(&mut self) -> (r: Result<Value, crate::error::LispError>)
        ensures
            final(self)@.pp == old(self)@.pp,
            final(self)@.sp == old(self)@.sp,
            final(self)@.rr == old(self)@.rr,
            final(self)@.env == old(self)@.env,
            match r {
                Ok(v) => old(self)@.stack.len() > 0 && old(self)@.stack.last() == Slot::Val(v@)
                    && final(self)@.stack == old(self)@.stack.drop_last(),
                Err(e) => e == crate::error::LispError::SyntaxError && if old(
                    self,
                )@.stack.len() == 0 {
                    final(self)@.stack == old(self)@.stack
                } else {
                    !(old(self)@.stack.last() is Val) && final(self)@.stack == old(
                        self,
                    )@.stack.drop_last()
                },
            },
    {
        proof {
            if self.stack@.len() > 0 {
                assert(self.stack@.drop_last() =~= self.stack@.drop_last());
                sem::lemma_stack_model_index(self.stack@);
                sem::lemma_stack_model_index(self.stack@.drop_last());
            }
        }
        match self.stack.pop() {
            Some(StackData::Val(v)) => Ok(v),
            _ => Err(crate::error::LispError::SyntaxError),
        }
    }

    /// Push an evaluated value.
    pub fn push_value(&mut self, value: Value)
        ensures
            final(self)@ == (Core {
                stack: old(self)@.stack.push(Slot::Val(value@)),
                ..old(self)@
            }),
    {
        let ghost s0 = self.stack@;
        let ghost v0 = value@;
        self.stack.push(StackData::Val(value));
        proof {
            assert(self.stack@.drop_last() =~= s0);
            sem::lemma_stack_model_index(s0);
            sem::lemma_stack_model_index(self.stack@);
            assert(sem::stack_model(self.stack@) =~= sem::stack_model(s0).push(Slot::Val(v0)));
            assert(self@ =~= (Core { stack: old(self)@.stack.push(Slot::Val(v0)), ..old(self)@ }));
        }
    }

    /// Stage a second-phase special form: it will receive control as soon as
    /// the next argument has been reduced into its slot.
    pub fn eval_then(&mut self, op: SyntaxOp)
        ensures
            final(self)@ == (Core {
                stack: old(self)@.stack.push(Slot::Val(Datum::Syntax(op))),
                ..old(self)@
            }),
    {
        let ghost s0 = self.stack@;
        self.stack.push(StackData::Val(Value::Syntax(op)));
        proof {
            assert(self.stack@.drop_last() =~= s0);
            sem::lemma_stack_model_index(s0);
            sem::lemma_stack_model_index(self.stack@);
            assert(sem::stack_model(self.stack@) =~= sem::stack_model(s0).push(
                Slot::Val(Datum::Syntax(op)),
            ));
            assert(self@ =~= (Core {
                stack: old(self)@.stack.push(Slot::Val(Datum::Syntax(op))),
                ..old(self)@
            }));
        }
    }

    /// A closure closing over the current environment.
    pub fn new_closure(&self, params: Value, body: Value) -> (r: Value)
        ensures
            r@ == Datum::Closure(Box::new(params@), Box::new(body@), self@.env),
    {
        Value::Closure(Box::new(params), Box::new(body), self.env)
    }

    /// Bind `ident` in the innermost frame of the current environment.
    pub fn define(&self, heap: &mut ChainMap, ident: String, value: Value)
        ensures
            final(heap)@ =~= sem::store_insert(old(heap)@, self@.env, ident@, value@),
            old(heap).wf() ==> final(heap).wf(),
    {
        heap.insert(self.env, ident, value);
    }

    /// Drop every slot above the frame pointer; a pointer outside the stack
    /// drops nothing.
    pub fn truncate_stack(&mut self)
        ensures
            final(self)@ == (Core {
                stack: sem::trunc(old(self)@.stack, old(self)@.sp),
                ..old(self)@
            }),
    {
        proof {
            sem::lemma_stack_model_index(self.stack@);
        }
        if 0 <= self.sp && self.sp <= self.stack.len() as i128 {
            proof {
                sem::lemma_stack_model_take(self.stack@, self.sp as int);
            }
            self.stack.truncate(self.sp as usize);
        }
    }

    /// Dump the innermost frame of the current environment.
    pub fn print_env(&self, heap: &ChainMap) {
        heap.print(self.env);
    }
}

/// Bind a closure's parameters, left to right, each to the argument slot at
/// `pos` and following, into the fresh cell `ext`; a parameter with no slot
/// to bind is a syntax error. The walk stops at the first non-pair of the
/// parameter list.
fn bind_args(
    stack: &Vec<StackData>,
    heap: &mut ChainMap,
    ext: usize,
    params: Value,
    pos: usize,
) -> (r: Result<(), crate::error::LispError>)
    requires
        old(heap).wf(),
    ensures
        final(heap).wf(),
        ({
            let b = sem::bind_params(
                old(heap)@,
                ext as int,
                params@,
                sem::stack_model(stack@),
                pos as int,
            );
            match r {
                Ok(()) => b == sem::StoreOut::Good(final(heap)@),
                Err(e) => b == sem::StoreOut::Bad(final(heap)@, e),
            }
        }),
    decreases params,
{
    proof {
        sem::lemma_stack_model_index(stack@);
    }
    match params {
        Value::Cons(p, rest) => {
            let ghost pm = (*p)@;
            match *p {
                Value::Ident(name) => {
                    let ghost n0 = name@;
                    proof {
                        assert(pm == Datum::Ident(n0));
                    }
                    if pos >= stack.len() {
                        return Err(crate::error::LispError::SyntaxError);
                    }
                    match &stack[pos] {
                        StackData::Val(v) => {
                            let vv = v.clone();
                            heap.insert(ext, name, vv);
                            bind_args(stack, heap, ext, *rest, pos + 1)
                        },
                        _ => Err(crate::error::LispError::InternalError),
                    }
                },
                _ => Err(crate::error::LispError::SyntaxError),
            }
        },
        _ => Ok(()),
    }
}

/// Apply the closure in the callee slot: extend its captured cell, bind the
/// parameters to the argument slots, drop the call's slots and enter the
/// body, saving the current environment unless the call is in tail position.
fn closure_step(vm: &mut VM, heap: &mut ChainMap, ps: Value, body: Value, cenv: usize) -> (r:
    Result<(), crate::error::LispError>)
    requires
        old(heap).wf(),
        0 <= old(vm).sp < old(vm)@.stack.len(),
        old(vm)@.stack[old(vm)@.sp] == Slot::Val(
            Datum::Closure(Box::new(ps@), Box::new(body@), cenv as int),
        ),
    ensures
        final(heap).wf(),
        ({
            let m0 = (Mach { core: old(vm)@, cells: old(heap)@ });
            match r {
                Ok(()) => sem::apply_closure(m0) == Outcome::Next(
                    Mach { core: final(vm)@, cells: final(heap)@ },
                ),
                Err(e) => sem::apply_closure(m0) == Outcome::Fail(final(heap)@, e),
            }
        }),
{
    let ghost m0 = (Mach { core: vm@, cells: heap@ });
    proof {
        sem::lemma_cells_model_index(heap.cells@);
        sem::lemma_stack_model_index(vm.stack@);
    }
    if cenv >= heap.cells.len() {
        return Err(crate::error::LispError::InternalError);
    }
    let ext = heap.extend(cenv);
    let len = vm.stack.len();
    let pos = (vm.sp + 1) as usize;
    proof {
        assert(pos <= len);
    }
    match bind_args(&vm.stack, heap, ext, ps, pos) {
        Err(e) => {
            proof {
                assert(sem::apply_closure(m0) =~~= Outcome::Fail(heap@, e));
            }
            return Err(e);
        },
        Ok(()) => {},
    }
    vm.truncate_stack();
    vm.pp = body;
    proof {
        sem::lemma_stack_model_index(vm.stack@);
    }
    let tail_call = if vm.sp >= 1 {
        matches!(vm.stack[(vm.sp - 1) as usize], StackData::Env(_))
    } else {
        false
    };
    if tail_call {
        vm.env = ext;
    } else {
        let ghost s0 = vm.stack@;
        vm.stack.push(StackData::Env(vm.env));
        vm.env = ext;
        vm.sp = vm.sp + 1;
        proof {
            assert(vm.stack@.drop_last() =~= s0);
            sem::lemma_stack_model_index(s0);
            sem::lemma_stack_model_index(vm.stack@);
            assert(sem::stack_model(vm.stack@) =~= sem::stack_model(s0).push(
                Slot::Env(m0.core.env),
            ));
        }
    }
    proof {
        assert(sem::apply_closure(m0) =~~= Outcome::Next(Mach { core: vm@, cells: heap@ }));
    }
    Ok(())
}

/// Completion: runs whenever the program pointer is exhausted. Yields the
/// final value once the frame pointer has dropped below the stack bottom.
fn complete_step(vm: &mut VM, heap: &mut ChainMap) -> (r: Result<
    Option<Value>,
    crate::error::LispError,
>)
    requires
        old(heap).wf(),
    ensures
        final(heap).wf(),
        ({
            let m0 = (Mach { core: old(vm)@, cells: old(heap)@ });
            match r {
                Ok(None) => sem::complete(m0) == Outcome::Next(
                    Mach { core: final(vm)@, cells: final(heap)@ },
                ) && final(vm).sp >= -1,
                Ok(Some(v)) => sem::complete(m0) == Outcome::Done(final(heap)@, v@),
                Err(e) => sem::complete(m0) == Outcome::Fail(final(heap)@, e),
            }
        }),
{
    let ghost m0 = (Mach { core: vm@, cells: heap@ });
    proof {
        sem::lemma_stack_model_index(vm.stack@);
    }
    let len = vm.stack.len();
    if vm.sp == len as i128 {
        vm.rr = Value::Null;
        vm.sp = vm.sp - 1;
        return Ok(None);
    }
    if vm.sp < 0 {
        return Ok(Some(vm.rr.clone()));
    }
    if vm.sp > len as i128 {
        return Err(crate::error::LispError::InternalError);
    }
    let idx = vm.sp as usize;
    match vm.stack[idx].clone() {
        StackData::Val(Value::Closure(ps, body, cenv)) => {
            closure_step(vm, heap, *ps, *body, cenv)?;
            Ok(None)
        },
        StackData::Val(Value::Subr(op)) => {
            let argv = vm.args()?;
            let v = crate::builtins::subr_dispatch(op, &argv, heap, vm.env)?;
            vm.ret(v)?;
            Ok(None)
        },
        StackData::Val(Value::Cont(snap)) => {
            match vm.stack.pop() {
                Some(StackData::Val(arg)) => {
                    proof {
                        assert(m0.core.stack.last() == Slot::Val(arg@));
                    }
                    let s: VM = *snap;
                    if s.sp < 0 {
                        return Err(crate::error::LispError::InternalError);
                    }
                    vm.pp = s.pp;
                    vm.sp = s.sp;
                    vm.rr = arg;
                    vm.stack = s.stack;
                    vm.env = s.env;
                    vm.truncate_stack();
                    vm.sp = vm.sp - 1;
                    proof {
                        assert(sem::apply_cont(m0) =~~= Outcome::Next(
                            Mach { core: vm@, cells: heap@ },
                        ));
                    }
                    Ok(None)
                },
                _ => Err(crate::error::LispError::InternalError),
            }
        },
        StackData::Val(_) => Err(crate::error::LispError::InvalidApplication),
        StackData::Frame { next_sp, next_pp } => {
            vm.pp = next_pp;
            vm.sp = next_sp;
            let ghost s0 = vm.stack@;
            vm.stack.pop();
            let ghost s1 = vm.stack@;
            vm.stack.push(StackData::Val(vm.rr.clone()));
            proof {
                assert(s1 =~= s0.drop_last());
                assert(vm.stack@.drop_last() =~= s1);
                sem::lemma_stack_model_index(s0);
                sem::lemma_stack_model_index(s1);
                sem::lemma_stack_model_index(vm.stack@);
                assert(sem::stack_model(vm.stack@) =~= sem::stack_model(s0).drop_last().push(
                    Slot::Val(m0.core.rr),
                ));
            }
            if vm.sp < 0 || vm.sp >= vm.stack.len() as i128 {
                return Err(crate::error::LispError::InternalError);
            }
            let i2 = vm.sp as usize;
            let syn = match &vm.stack[i2] {
                StackData::Val(Value::Syntax(op)) => Some(*op),
                _ => None,
            };
            match syn {
                Some(op) => {
                    crate::builtins::syntax_dispatch(op, vm, heap)?;
                    Ok(None)
                },
                None => {
                    proof {
                        assert(sem::frame_done(m0) =~~= Outcome::Next(
                            Mach { core: vm@, cells: heap@ },
                        ));
                    }
                    Ok(None)
                },
            }
        },
        StackData::Env(e) => {
            let ghost s0 = vm.stack@;
            vm.stack.pop();
            vm.env = e;
            vm.sp = vm.sp - 1;
            proof {
                assert(vm.stack@ =~= s0.drop_last());
                sem::lemma_stack_model_index(s0);
                sem::lemma_stack_model_index(vm.stack@);
                assert(sem::stack_model(vm.stack@) =~= sem::stack_model(s0).drop_last());
            }
            Ok(None)
        },
    }
}

/// Relies on `writeln` to standard error: one line of diagnostic state,
/// best effort.
#[verifier::external_body]
fn emit_trace(sp: i128, env: usize, stack_len: usize, pp: &str, rr: &str) {
    let mut se = std::io::stderr();
    let _ = writeln!(se, "[TRACE] env:{}\tsp:{}\tstack:{}\tpp:{}\trr:{}", env, sp, stack_len, pp, rr);
}

/// Reduce `val` in environment `env` over the store `heap`, spending at most
/// `fuel` machine steps. With `trace` set, the machine state is written to
/// standard error before each step.
///
/// The contract follows the small-step semantics exactly: running the model
/// machine for `fuel` steps from the initial state either halts with the
/// value or error that this function returns and the store it leaves behind,
/// or is still going, in which case this function has spent its steps.
pub fn eval(val: Value, env: usize, heap: &mut ChainMap, fuel: u64, trace: bool) -> (r: Result<
    Value,
    crate::error::LispError,
>)
    requires
        old(heap).wf(),
    ensures
        final(heap).wf(),
        ({
            let out = sem::run_from(
                sem::init_mach(old(heap)@, env as int, val@),
                fuel as nat,
            );
            match r {
                Ok(v) => out matches Outcome::Done(cells, d) && cells == final(heap)@ && d
                    == v@,
                Err(e) => match out {
                    Outcome::Next(m) => e == crate::error::LispError::OutOfSteps && m.cells
                        == final(heap)@,
                    Outcome::Done(_, _) => false,
                    Outcome::Fail(cells, e2) => e == e2 && cells == final(heap)@,
                },
            }
        }),
{
    let mut vm = VM { pp: val, sp: 0, rr: Value::Null, stack: Vec::new(), env: env };
    let ghost init = sem::init_mach(old(heap)@, env as int, val@);
    proof {
        assert(init =~~= (Mach { core: vm@, cells: heap@ }));
    }
    let mut left: u64 = fuel;
    loop
        invariant
            heap.wf(),
            left <= fuel,
            vm.sp >= -1,
            init == sem::init_mach(old(heap)@, env as int, val@),
            sem::run_from(init, (fuel - left) as nat) == Outcome::Next(
                Mach { core: vm@, cells: heap@ },
            ),
        decreases left,
    {
        if left == 0 {
            return Err(crate::error::LispError::OutOfSteps);
        }
        left = left - 1;
        if trace {
            let pp_text = vm.pp.to_text();
            let rr_text = vm.rr.to_text();
            emit_trace(vm.sp, vm.env, vm.stack.len(), pp_text.as_str(), rr_text.as_str());
        }
        let ghost cur = (Mach { core: vm@, cells: heap@ });
        let ghost k = (fuel - left - 1) as nat;
        proof {
            sem::lemma_run_from_snoc(init, k, cur);
        }
        match vm.pp.clone() {
            Value::Cons(car, cdr) => {
                let ghost s0 = vm.stack@;
                vm.stack.push(StackData::Frame { next_sp: vm.sp, next_pp: *cdr });
                vm.sp = vm.stack.len() as i128;
                vm.pp = *car;
                proof {
                    assert(vm.stack@.drop_last() =~= s0);
                    sem::lemma_stack_model_index(s0);
                    sem::lemma_stack_model_index(vm.stack@);
                    assert(sem::stack_model(vm.stack@) =~= sem::stack_model(s0).push(
                        Slot::Frame { next_sp: cur.core.sp, next_pp: *cur.core.pp->Cons_1 },
                    ));
                    assert(sem::step(cur) =~~= Outcome::Next(
                        Mach { core: vm@, cells: heap@ },
                    ));
                }
            },
            pp0 => {
                match pp0 {
                    Value::Null => {},
                    Value::Ident(name) => {
                        match heap.get(vm.env, &name) {
                            Some(v) => {
                                let looked = v.clone();
                                vm.rr = looked;
                                vm.pp = Value::Null;
                                vm.sp = vm.sp - 1;
                            },
                            None => {
                                proof {
                                    assert(sem::step(cur) == Outcome::Fail(
                                        heap@,
                                        crate::error::LispError::UnboundVariable,
                                    ));
                                    sem::lemma_run_from_halted(
                                        init,
                                        (fuel - left) as nat,
                                        fuel as nat,
                                    );
                                }
                                return Err(crate::error::LispError::UnboundVariable);
                            },
                        }
                    },
                    other => {
                        vm.rr = other;
                        vm.pp = Value::Null;
                        vm.sp = vm.sp - 1;
                    },
                }
                let ghost mid = (Mach { core: vm@, cells: heap@ });
                proof {
                    assert(sem::step(cur) == sem::complete(mid));
                }
                match complete_step(&mut vm, heap) {
                    Ok(None) => {},
                    Ok(Some(v)) => {
                        proof {
                            sem::lemma_run_from_halted(init, (fuel - left) as nat, fuel as nat);
                        }
                        return Ok(v);
                    },
                    Err(e) => {
                        proof {
                            sem::lemma_run_from_halted(init, (fuel - left) as nat, fuel as nat);
                        }
                        return Err(e);
                    },
                }
            },
        }
    }
}

impl Clone for StackData {
    /// A deep copy; the copy has the same model as the original.
    fn clone(&self) -> (r: StackData)
        ensures
            r@ == self@,
        decreases self,
    {
        match self {
            StackData::Frame { next_sp, next_pp } => StackData::Frame {
                next_sp: *next_sp,
                next_pp: next_pp.clone(),
            },
            StackData::Val(v) => StackData::Val(v.clone()),
            StackData::Env(e) => StackData::Env(*e),
        }
    }
}

impl Clone for VM {
    /// A deep copy; the copy has the same model as the original.
    fn clone(&self) -> (r: VM)
        ensures
            r@ == self@,
        decreases self,
    {
        let mut copied: Vec<StackData> = Vec::new();
        let n = self.stack.len();
        let mut i: usize = 0;
        while i < n
            invariant
                i <= n,
                n == self.stack.len(),
                copied@.len() == i,
                forall|j: int| 0 <= j < i ==> copied@[j]@ == self.stack@[j]@,
            decreases n - i,
        {
            proof {
                assert(decreases_to!(self => self.stack@[i as int]));
            }
            copied.push(self.stack[i].clone());
            i = i + 1;
        }
        let r = VM {
            pp: self.pp.clone(),
            sp: self.sp,
            rr: self.rr.clone(),
            stack: copied,
            env: self.env,
        };
        proof {
            sem::lemma_stack_model_index(r.stack@);
            sem::lemma_stack_model_index(self.stack@);
            assert(sem::stack_model(r.stack@) =~= sem::stack_model(self.stack@));
        }
        r
    }
}

} // verus!
