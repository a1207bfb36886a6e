//! The evaluator: a stack machine executing one instruction at a time.
//!
//! The whole behaviour is pinned down by the specification interpreter
//! [`run`], a total function from machine model, instruction, force flag and
//! recursion budget to the resulting model.  The executable machine's
//! contract states that `process` computes exactly what `run` describes.
//!
//! Two execution forms exist for every instruction: lazy (the default —
//! function-like values are pushed as data) and forced (used when applying a
//! function reference and inside compositions, curried references and
//! repeats).  Commands always execute, whatever the flag.
//!
//! Evaluation may recurse through composed values, bound arguments and named
//! values without bound; a self-referential name would recurse forever.  The
//! host guard against that is an explicit nesting budget: each nested forced
//! execution spends one unit of [`MAX_DEPTH`], and exhausting the budget
//! fails the instruction with [`EvalError::RecursionLimit`].

use vstd::prelude::*;
use crate::numerics::{
    add_of, sub_of, mul_of, div_of, mod_of, lt_of, gt_of, eq_of, round_i64_of, double_of_u64,
    is_zero_bits, ONE_BITS, ZERO_BITS, add_bits, sub_bits, mul_bits, div_bits, mod_bits, lt_bits,
    gt_bits, eq_bits, round_bits, double_from_u64,
};
use crate::value::{
    V, Val, BinOp, StackOp, models, has_free_slot, render_val, lemma_models_len,
    lemma_models_index, can_take_argument, wf_val, wf_vals,
};
use crate::table::NameTable;

verus! {

/// Size of the register bank; indices `0..NUM_REGISTERS` are addressable.
pub const NUM_REGISTERS: usize = 266;

/// Registers `0..USER_REGISTER_COUNT` belong to user programs; the ones
/// above are scratch space reserved for the bootstrap library.
pub const USER_REGISTER_COUNT: usize = 256;

/// The nesting budget of one instruction: how deep forced execution may
/// recurse through composed values, references and names.
pub const MAX_DEPTH: u64 = 64;

/// Why an instruction failed.  Every failure leaves the operand stack as it
/// was before the failing instruction started to pop (see the restoration
/// discipline in [`run`]).
#[derive(Clone, Copy, Debug, PartialEq, Eq, Structural)]
pub enum EvalError {
    /// An operation needed more operands than the stack held; nothing was
    /// popped.
    StackUnderflow,
    /// An operand had the wrong shape; the popped operands were restored.
    TypeMismatch,
    /// A register address rounded outside `0..NUM_REGISTERS` (or had no
    /// integer value at all); the popped operands were restored.
    AddressOutOfRange,
    /// An identifier was read that the name table does not hold.
    NameNotFound,
    /// The nesting budget was exhausted.
    RecursionLimit,
}

impl EvalError {
    /// A short description of the failure, for the driver's error report.
    pub fn describe(&self) -> (r: &'static str)
        ensures
            r@ == self.description(),
    {
        match self {
            EvalError::StackUnderflow => "not enough elements on the stack",
            EvalError::TypeMismatch => "an operand had the wrong shape",
            EvalError::AddressOutOfRange => "register address out of range",
            EvalError::NameNotFound => "name not found",
            EvalError::RecursionLimit => "evaluation nested too deeply",
        }
    }

    pub open spec fn description(&self) -> Seq<char> {
        match self {
            EvalError::StackUnderflow => "not enough elements on the stack"@,
            EvalError::TypeMismatch => "an operand had the wrong shape"@,
            EvalError::AddressOutOfRange => "register address out of range"@,
            EvalError::NameNotFound => "name not found"@,
            EvalError::RecursionLimit => "evaluation nested too deeply"@,
        }
    }
}

/// What a successful instruction asks of the driver: carry on, or stop the
/// whole run (the quit command, which always succeeds).
#[derive(Clone, Copy, Debug, PartialEq, Eq, Structural)]
pub enum Flow {
    Continue,
    Quit,
}

/// The mathematical model of the machine state.
#[verifier::ext_equal]
pub struct MachineModel {
    /// The operand stack, bottom first.
    pub stack: Seq<Val>,
    /// The register bank: `NUM_REGISTERS` doubles, held as bit patterns.
    pub registers: Seq<u64>,
    /// The name table.
    pub vars: Map<Seq<char>, Val>,
    /// Lines written by the print commands, oldest first.
    pub output: Seq<Seq<char>>,
}

impl MachineModel {
    /// The state a fresh machine starts in: everything empty, registers zero.
    pub open spec fn init() -> MachineModel {
        MachineModel {
            stack: Seq::empty(),
            registers: Seq::new(NUM_REGISTERS as nat, |i: int| 0u64),
            vars: Map::empty(),
            output: Seq::empty(),
        }
    }

    pub open spec fn pushed(self, v: Val) -> MachineModel {
        MachineModel { stack: self.stack.push(v), ..self }
    }

    /// One value popped.
    pub open spec fn popped(self) -> MachineModel {
        MachineModel { stack: self.stack.drop_last(), ..self }
    }

    pub open spec fn with_register(self, i: int, bits: u64) -> MachineModel {
        MachineModel { registers: self.registers.update(i, bits), ..self }
    }

    pub open spec fn with_var(self, name: Seq<char>, v: Val) -> MachineModel {
        MachineModel { vars: self.vars.insert(name, v), ..self }
    }

    pub open spec fn with_line(self, line: Seq<char>) -> MachineModel {
        MachineModel { output: self.output.push(line), ..self }
    }

    pub open spec fn with_cleared_stack(self) -> MachineModel {
        MachineModel { stack: Seq::empty(), ..self }
    }
}

/// The model a step result left behind, whatever the outcome.
pub open spec fn state_of(r: StepRes) -> MachineModel {
    match r {
        StepRes::Next(m) => m,
        StepRes::Quit(m) => m,
        StepRes::Fail(_, m) => m,
    }
}

/// The structural invariant over a whole machine state: every value on the
/// stack and in the name table is well formed (see [`wf_val`]).
pub open spec fn wf_state(m: MachineModel) -> bool {
    &&& wf_vals(m.stack)
    &&& forall|k: Seq<char>| #[trigger] m.vars.contains_key(k) ==> wf_val(m.vars[k])
}

/// The outcome of executing one instruction against a model.
pub enum StepRes {
    /// The instruction succeeded.
    Next(MachineModel),
    /// The quit command ran; the driver must stop.
    Quit(MachineModel),
    /// The instruction failed; the model is the state it left behind.
    Fail(EvalError, MachineModel),
}

/// The result bits of a binary primitive on two operand bit patterns;
/// comparisons yield `1.0` for true and `0.0` for false.
pub open spec fn apply_binop(op: BinOp, a: u64, b: u64) -> u64 {
    match op {
        BinOp::Add => add_of(a, b),
        BinOp::Sub => sub_of(a, b),
        BinOp::Mul => mul_of(a, b),
        BinOp::Div => div_of(a, b),
        BinOp::Mod => mod_of(a, b),
        BinOp::LessThan => if lt_of(a, b) {
            ONE_BITS
        } else {
            ZERO_BITS
        },
        BinOp::GreaterThan => if gt_of(a, b) {
            ONE_BITS
        } else {
            ZERO_BITS
        },
        BinOp::Equal => if eq_of(a, b) {
            ONE_BITS
        } else {
            ZERO_BITS
        },
    }
}

/// The printed form of the whole stack, bottom first.
pub open spec fn render_items_to(s: Seq<Val>, n: int) -> Seq<char>
    decreases n,
{
    if n <= 0 {
        Seq::empty()
    } else if n == 1 {
        render_val(s[0])
    } else {
        render_items_to(s, n - 1) + ", "@ + render_val(s[n - 1])
    }
}

pub open spec fn render_stack(s: Seq<Val>) -> Seq<char> {
    "["@ + render_items_to(s, s.len() as int) + "]"@
}

/// The specification interpreter: what one instruction does to the machine.
///
/// `force` distinguishes the two execution forms.  `fuel` is the remaining
/// nesting budget; every nested forced execution runs with one unit less.
///
/// Conventions held throughout (stack listed deeper-to-shallower):
/// - an operator pops `[a, b]` and computes `a op b`;
/// - the conditional pops `[condition, then, else]`, a zero condition
///   selecting the else branch, any other number the then branch;
/// - store pops `[value, address]`, load pops `[address]`; an identifier
///   address names the table, a number address rounds to a register index;
/// - repeat pops `[value, count]` and force-executes the value `count`
///   (rounded, negatives as zero) times;
/// - curry pops `[target, argument]` and appends the argument to the
///   target's bound arguments when the target is a reference with a free
///   slot; a composed value or an identifier becomes a fresh reference with
///   that one argument bound; a saturated reference or a plain number
///   refuses, restoring both operands;
/// - compose pops `[a, b]` and pushes the composition applying `a` first.
///
/// Every multi-operand primitive checks the stack depth before popping, and
/// every shape failure restores the operands, so a failed instruction leaves
/// the stack exactly as it found it.
pub open spec fn run(m: MachineModel, v: Val, force: bool, fuel: nat) -> StepRes
    decreases fuel, 1int, 0int,
{
    if fuel == 0 {
        StepRes::Fail(EvalError::RecursionLimit, m)
    } else {
        let f1 = (fuel - 1) as nat;
        match v {
            Val::Number(_) => StepRes::Next(m.pushed(v)),
            Val::FunctionRef(inner, bound) => if !force {
                StepRes::Next(m.pushed(v))
            } else {
                run(MachineModel { stack: m.stack + bound, ..m }, *inner, true, f1)
            },
            Val::Composed(a, b) => if !force {
                StepRes::Next(m.pushed(v))
            } else {
                match run(m, *a, true, f1) {
                    StepRes::Next(m1) => run(m1, *b, true, f1),
                    other => other,
                }
            },
            Val::Identifier(name) => if !force {
                StepRes::Next(m.pushed(v))
            } else {
                if m.vars.contains_key(name) {
                    run(m, m.vars[name], true, f1)
                } else {
                    StepRes::Fail(EvalError::NameNotFound, m)
                }
            },
            Val::Operator(op) => if m.stack.len() < 2 {
                StepRes::Fail(EvalError::StackUnderflow, m)
            } else {
                let a = m.stack[m.stack.len() - 2];
                let b = m.stack[m.stack.len() - 1];
                if a is Number && b is Number {
                    StepRes::Next(
                        m.popped().popped().pushed(
                            Val::Number(apply_binop(op, a->Number_0, b->Number_0)),
                        ),
                    )
                } else {
                    StepRes::Fail(EvalError::TypeMismatch, m)
                }
            },
            Val::Conditional => if m.stack.len() < 3 {
                StepRes::Fail(EvalError::StackUnderflow, m)
            } else {
                let c = m.stack[m.stack.len() - 3];
                let a = m.stack[m.stack.len() - 2];
                let b = m.stack[m.stack.len() - 1];
                if c is Number {
                    StepRes::Next(
                        m.popped().popped().popped().pushed(
                            if is_zero_bits(c->Number_0) {
                                b
                            } else {
                                a
                            },
                        ),
                    )
                } else {
                    StepRes::Fail(EvalError::TypeMismatch, m)
                }
            },
            Val::StackOp(so) => match so {
                StackOp::Print => if m.stack.len() < 1 {
                    StepRes::Fail(EvalError::StackUnderflow, m)
                } else {
                    StepRes::Next(m.popped().with_line(render_val(m.stack.last())))
                },
                StackOp::PrintAll => StepRes::Next(m.with_line(render_stack(m.stack))),
                StackOp::Clear => StepRes::Next(m.with_cleared_stack()),
                StackOp::Quit => StepRes::Quit(m),
                StackOp::StackSize => StepRes::Next(
                    m.pushed(Val::Number(double_of_u64(m.stack.len() as u64))),
                ),
            },
            Val::Store => if m.stack.len() < 2 {
                StepRes::Fail(EvalError::StackUnderflow, m)
            } else {
                let value = m.stack[m.stack.len() - 2];
                let addr = m.stack[m.stack.len() - 1];
                match addr {
                    Val::Identifier(name) => StepRes::Next(
                        m.popped().popped().with_var(name, value),
                    ),
                    Val::Number(abits) => if value is Number {
                        match round_i64_of(abits) {
                            Some(i) => if 0 <= i && i < NUM_REGISTERS as i64 {
                                StepRes::Next(
                                    m.popped().popped().with_register(
                                        i as int,
                                        value->Number_0,
                                    ),
                                )
                            } else {
                                StepRes::Fail(EvalError::AddressOutOfRange, m)
                            },
                            None => StepRes::Fail(EvalError::AddressOutOfRange, m),
                        }
                    } else {
                        StepRes::Fail(EvalError::TypeMismatch, m)
                    },
                    _ => StepRes::Fail(EvalError::TypeMismatch, m),
                }
            },
            Val::Load => if m.stack.len() < 1 {
                StepRes::Fail(EvalError::StackUnderflow, m)
            } else {
                let addr = m.stack.last();
                match addr {
                    Val::Identifier(name) => if m.vars.contains_key(name) {
                        StepRes::Next(m.popped().pushed(m.vars[name]))
                    } else {
                        StepRes::Fail(EvalError::NameNotFound, m)
                    },
                    Val::Number(abits) => match round_i64_of(abits) {
                        Some(i) => if 0 <= i && i < NUM_REGISTERS as i64 {
                            StepRes::Next(m.popped().pushed(Val::Number(m.registers[i as int])))
                        } else {
                            StepRes::Fail(EvalError::AddressOutOfRange, m)
                        },
                        None => StepRes::Fail(EvalError::AddressOutOfRange, m),
                    },
                    _ => StepRes::Fail(EvalError::TypeMismatch, m),
                }
            },
            Val::Repeat => if m.stack.len() < 2 {
                StepRes::Fail(EvalError::StackUnderflow, m)
            } else {
                let value = m.stack[m.stack.len() - 2];
                let count = m.stack[m.stack.len() - 1];
                match count {
                    Val::Number(cbits) => match round_i64_of(cbits) {
                        Some(k) => run_repeat(
                            m.popped().popped(),
                            value,
                            if k < 0 {
                                0nat
                            } else {
                                k as nat
                            },
                            fuel,
                        ),
                        None => StepRes::Fail(EvalError::TypeMismatch, m),
                    },
                    _ => StepRes::Fail(EvalError::TypeMismatch, m),
                }
            },
            Val::Apply => if m.stack.len() < 1 {
                StepRes::Fail(EvalError::StackUnderflow, m)
            } else {
                run(m.popped(), m.stack.last(), true, f1)
            },
            Val::Curry => if m.stack.len() < 2 {
                StepRes::Fail(EvalError::StackUnderflow, m)
            } else {
                let target = m.stack[m.stack.len() - 2];
                let arg = m.stack[m.stack.len() - 1];
                match target {
                    Val::FunctionRef(inner, bound) => if has_free_slot(*inner, bound.len()) {
                        StepRes::Next(
                            m.popped().popped().pushed(Val::FunctionRef(inner, bound.push(arg))),
                        )
                    } else {
                        StepRes::Fail(EvalError::TypeMismatch, m)
                    },
                    Val::Composed(_, _) => StepRes::Next(
                        m.popped().popped().pushed(
                            Val::FunctionRef(Box::new(target), seq![arg]),
                        ),
                    ),
                    Val::Identifier(_) => StepRes::Next(
                        m.popped().popped().pushed(
                            Val::FunctionRef(Box::new(target), seq![arg]),
                        ),
                    ),
                    _ => StepRes::Fail(EvalError::TypeMismatch, m),
                }
            },
            Val::Compose => if m.stack.len() < 2 {
                StepRes::Fail(EvalError::StackUnderflow, m)
            } else {
                let a = m.stack[m.stack.len() - 2];
                let b = m.stack[m.stack.len() - 1];
                StepRes::Next(
                    m.popped().popped().pushed(Val::Composed(Box::new(a), Box::new(b))),
                )
            },
        }
    }
}

/// Force-executes `v` against the model `n` times, stopping at the first
/// failure or quit.
pub open spec fn run_repeat(m: MachineModel, v: Val, n: nat, fuel: nat) -> StepRes
    decreases fuel, 0int, n,
{
    if n == 0 {
        StepRes::Next(m)
    } else if fuel == 0 {
        StepRes::Fail(EvalError::RecursionLimit, m)
    } else {
        match run(m, v, true, (fuel - 1) as nat) {
            StepRes::Next(m1) => run_repeat(m1, v, (n - 1) as nat, fuel),
            other => other,
        }
    }
}

/// Lazily executes a whole instruction sequence in order, stopping at the
/// first failure or quit: the contract the line driver builds on.
pub open spec fn run_seq(m: MachineModel, instrs: Seq<Val>, fuel: nat) -> StepRes
    decreases instrs.len(),
{
    if instrs.len() == 0 {
        StepRes::Next(m)
    } else {
        match run(m, instrs[0], false, fuel) {
            StepRes::Next(m1) => run_seq(m1, instrs.skip(1), fuel),
            other => other,
        }
    }
}

/// How an executable outcome and final state correspond to a [`StepRes`].
pub open spec fn step_matches(res: StepRes, m: MachineModel, r: Result<Flow, EvalError>) -> bool {
    match res {
        StepRes::Next(m2) => r == Ok::<Flow, EvalError>(Flow::Continue) && m == m2,
        StepRes::Quit(m2) => r == Ok::<Flow, EvalError>(Flow::Quit) && m == m2,
        StepRes::Fail(e, m2) => r == Err::<Flow, EvalError>(e) && m == m2,
    }
}

/// The views of the output lines.
pub open spec fn outputs(s: Seq<String>) -> Seq<Seq<char>> {
    Seq::new(s.len(), |i: int| s[i]@)
}

/// The machine: operand stack, register bank, name table and the output
/// lines the print commands have produced (the driver drains and prints
/// them).  The stack and output are public so that a driver or test can
/// inspect what a program left behind.
pub struct Machine {
    pub stack: Vec<V>,
    registers: Vec<u64>,
    vars: NameTable,
    pub output: Vec<String>,
}

impl View for Machine {
    type V = MachineModel;

    closed spec fn view(&self) -> MachineModel {
        MachineModel {
            stack: models(self.stack@),
            registers: self.registers@,
            vars: self.vars@,
            output: outputs(self.output@),
        }
    }
}

impl Machine {
    /// The machine's internal validity: a full register bank and a sound
    /// name table.  `new` establishes it and every operation preserves it.
    pub closed spec fn wf(&self) -> bool {
        self.registers@.len() == NUM_REGISTERS && self.vars.wf()
    }

    /// A fresh machine: empty stack, zeroed registers, empty name table.
    pub fn new() -> (m: Machine)
        ensures
            m.wf(),
            m@ == MachineModel::init(),
    {
        let mut registers: Vec<u64> = Vec::new();
        let mut i: usize = 0;
        while i < NUM_REGISTERS
            invariant
                i <= NUM_REGISTERS,
                registers@.len() == i,
                forall|j: int| 0 <= j < i ==> registers@[j] == 0u64,
            decreases NUM_REGISTERS - i,
        {
            registers.push(0);
            i = i + 1;
        }
        let m = Machine { stack: Vec::new(), registers, vars: NameTable::new(), output: Vec::new() };
        proof {
            assert(m@.stack =~= MachineModel::init().stack);
            assert(m@.registers =~= MachineModel::init().registers);
            assert(m@.output =~= MachineModel::init().output);
            assert(m@ =~= MachineModel::init());
        }
        m
    }

    /// Processes one instruction lazily with a full nesting budget: the
    /// machine afterwards, and the outcome, are exactly what the
    /// specification interpreter [`run`] yields.
    pub fn process(&mut self, v: V) -> (r: Result<Flow, EvalError>)
        requires
            old(self).wf(),
        ensures
            final(self).wf(),
            step_matches(run(old(self)@, v@, false, MAX_DEPTH as nat), final(self)@, r),
    {
        self.process_at(v, false, MAX_DEPTH)
    }

    /// Pops the top of the stack.
    fn pop_top(&mut self) -> (x: V)
        requires
            old(self).wf(),
            old(self)@.stack.len() >= 1,
        ensures
            final(self).wf(),
            x@ == old(self)@.stack.last(),
            final(self)@ == old(self)@.popped(),
    {
        proof {
            lemma_models_len(self.stack@);
        }
        let x = self.stack.pop().unwrap();
        proof {
            lemma_models_len(self.stack@);
            assert(self.stack@ =~= old(self).stack@.drop_last());
            lemma_models_index(old(self).stack@, old(self).stack@.len() - 1);
            assert forall|j: int| 0 <= j < self.stack@.len() implies models(self.stack@)[j]
                == models(old(self).stack@).drop_last()[j] by {
                lemma_models_index(self.stack@, j);
                lemma_models_index(old(self).stack@, j);
                assert(self.stack@[j] == old(self).stack@[j]);
            }
            assert(models(self.stack@) =~= models(old(self).stack@).drop_last());
            assert(final(self)@ =~= old(self)@.popped());
        }
        x
    }

    /// Pushes a value.
    fn push_val(&mut self, x: V)
        requires
            old(self).wf(),
        ensures
            final(self).wf(),
            final(self)@ == old(self)@.pushed(x@),
    {
        self.stack.push(x);
        proof {
            lemma_models_len(self.stack@);
            lemma_models_len(old(self).stack@);
            assert forall|j: int| 0 <= j < self.stack@.len() implies models(self.stack@)[j]
                == models(old(self).stack@).push(x@)[j] by {
                lemma_models_index(self.stack@, j);
                if j < self.stack@.len() - 1 {
                    lemma_models_index(old(self).stack@, j);
                    assert(self.stack@[j] == old(self).stack@[j]);
                } else {
                    assert(self.stack@[j] == x);
                }
            }
            assert(models(self.stack@) =~= models(old(self).stack@).push(x@));
            assert(final(self)@ =~= old(self)@.pushed(x@));
        }
    }

    /// Renders the whole stack as one line.
    fn render_stack_line(&self) -> (r: String)
        ensures
            r@ == render_stack(models(self.stack@)),
    {
        proof {
            lemma_models_len(self.stack@);
        }
        let mut r = String::from_str("[");
        let n = self.stack.len();
        let mut i: usize = 0;
        while i < n
            invariant
                n == self.stack@.len(),
                i <= n,
                models(self.stack@).len() == n,
                r@ == "["@ + render_items_to(models(self.stack@), i as int),
            decreases n - i,
        {
            if i > 0 {
                r.append(", ");
            }
            let piece = self.stack[i].render();
            r.append(piece.as_str());
            proof {
                lemma_models_index(self.stack@, i as int);
            }
            i = i + 1;
        }
        r.append("]");
        r
    }

    /// Executes one instruction under the given force flag and budget,
    /// mirroring [`run`] arm by arm.
    #[verifier::loop_isolation(false)]
    fn process_at(&mut self, v: V, force: bool, fuel: u64) -> (r: Result<Flow, EvalError>)
        requires
            old(self).wf(),
        ensures
            final(self).wf(),
            step_matches(run(old(self)@, v@, force, fuel as nat), final(self)@, r),
        decreases fuel,
    {
        proof {
            lemma_models_len(self.stack@);
        }
        if fuel == 0 {
            return Err(EvalError::RecursionLimit);
        }
        match v {
            V::Number(b) => {
                self.push_val(V::Number(b));
                Ok(Flow::Continue)
            },
            V::FunctionRef(inner, bound) => {
                if !force {
                    self.push_val(V::FunctionRef(inner, bound));
                    Ok(Flow::Continue)
                } else {
                    let ghost m0 = self@;
                    let ghost bvals = models(bound@);
                    let n = bound.len();
                    let mut i: usize = 0;
                    while i < n
                        invariant
                            n == bound@.len(),
                            i <= n,
                            self.wf(),
                            self@ == (MachineModel { stack: m0.stack + bvals.take(i as int), ..m0 }),
                        decreases n - i,
                    {
                        let arg = bound[i].duplicate();
                        self.push_val(arg);
                        proof {
                            lemma_models_len(bound@);
                            lemma_models_index(bound@, i as int);
                            assert(bvals.take(i + 1) =~= bvals.take(i as int).push(bvals[i as int]));
                            assert(m0.stack + bvals.take(i + 1) =~= (m0.stack + bvals.take(
                                i as int,
                            )).push(bound@[i as int]@));
                        }
                        i = i + 1;
                    }
                    proof {
                        lemma_models_len(bound@);
                        assert(bvals.take(n as int) =~= bvals);
                    }
                    self.process_at(*inner, true, fuel - 1)
                }
            },
            V::Composed(a, b) => {
                if !force {
                    self.push_val(V::Composed(a, b));
                    Ok(Flow::Continue)
                } else {
                    match self.process_at(*a, true, fuel - 1) {
                        Ok(Flow::Continue) => self.process_at(*b, true, fuel - 1),
                        other => other,
                    }
                }
            },
            V::Identifier(name) => {
                if !force {
                    self.push_val(V::Identifier(name));
                    Ok(Flow::Continue)
                } else {
                    let stored = match self.vars.get(&name) {
                        Some(sv) => Some(sv.duplicate()),
                        None => None,
                    };
                    match stored {
                        Some(sv) => self.process_at(sv, true, fuel - 1),
                        None => Err(EvalError::NameNotFound),
                    }
                }
            },
            V::Operator(op) => {
                if self.stack.len() < 2 {
                    return Err(EvalError::StackUnderflow);
                }
                let bv = self.pop_top();
                let av = self.pop_top();
                match (av, bv) {
                    (V::Number(a), V::Number(b)) => {
                        let c = binop_bits(op, a, b);
                        self.push_val(V::Number(c));
                        Ok(Flow::Continue)
                    },
                    (x, y) => {
                        self.push_val(x);
                        self.push_val(y);
                        proof {
                            assert(self@.stack =~= old(self)@.stack);
                            assert(self@ =~= old(self)@);
                        }
                        Err(EvalError::TypeMismatch)
                    },
                }
            },
            V::Conditional => {
                if self.stack.len() < 3 {
                    return Err(EvalError::StackUnderflow);
                }
                let bv = self.pop_top();
                let av = self.pop_top();
                let cv = self.pop_top();
                match cv {
                    V::Number(cb) => {
                        if cb & 0x7FFF_FFFF_FFFF_FFFF == 0 {
                            self.push_val(bv);
                        } else {
                            self.push_val(av);
                        }
                        Ok(Flow::Continue)
                    },
                    other => {
                        self.push_val(other);
                        self.push_val(av);
                        self.push_val(bv);
                        proof {
                            assert(self@.stack =~= old(self)@.stack);
                            assert(self@ =~= old(self)@);
                        }
                        Err(EvalError::TypeMismatch)
                    },
                }
            },
            V::StackOp(so) => match so {
                StackOp::Print => {
                    if self.stack.len() < 1 {
                        return Err(EvalError::StackUnderflow);
                    }
                    let x = self.pop_top();
                    let line = x.render();
                    self.output.push(line);
                    proof {
                        assert(outputs(self.output@) =~= outputs(old(self).output@).push(
                            render_val(x@),
                        ));
                        assert(self@ =~= old(self)@.popped().with_line(
                            render_val(old(self)@.stack.last()),
                        ));
                    }
                    Ok(Flow::Continue)
                },
                StackOp::PrintAll => {
                    let line = self.render_stack_line();
                    self.output.push(line);
                    proof {
                        assert(outputs(self.output@) =~= outputs(old(self).output@).push(
                            render_stack(models(self.stack@)),
                        ));
                        assert(self@ =~= old(self)@.with_line(render_stack(old(self)@.stack)));
                    }
                    Ok(Flow::Continue)
                },
                StackOp::Clear => {
                    self.stack.clear();
                    proof {
                        assert(models(self.stack@) =~= Seq::<Val>::empty());
                        assert(self@ =~= old(self)@.with_cleared_stack());
                    }
                    Ok(Flow::Continue)
                },
                StackOp::Quit => Ok(Flow::Quit),
                StackOp::StackSize => {
                    let len = self.stack.len();
                    let bits = double_from_u64(len as u64);
                    self.push_val(V::Number(bits));
                    Ok(Flow::Continue)
                },
            },
            V::Store => {
                if self.stack.len() < 2 {
                    return Err(EvalError::StackUnderflow);
                }
                let addr = self.pop_top();
                let value = self.pop_top();
                match addr {
                    V::Identifier(name) => {
                        self.vars.insert(name, value);
                        proof {
                            assert(self@ =~= old(self)@.popped().popped().with_var(
                                old(self)@.stack.last()->Identifier_0,
                                old(self)@.stack[old(self)@.stack.len() - 2],
                            ));
                        }
                        Ok(Flow::Continue)
                    },
                    V::Number(abits) => {
                        match value {
                            V::Number(vbits) => {
                                match round_bits(abits) {
                                    Some(i) => {
                                        if 0 <= i && i < NUM_REGISTERS as i64 {
                                            self.registers.set(i as usize, vbits);
                                            proof {
                                                assert(self@ =~= old(
                                                    self,
                                                )@.popped().popped().with_register(
                                                    i as int,
                                                    vbits,
                                                ));
                                            }
                                            Ok(Flow::Continue)
                                        } else {
                                            self.push_val(V::Number(vbits));
                                            self.push_val(V::Number(abits));
                                            proof {
                                                assert(self@.stack =~= old(self)@.stack);
                                                assert(self@ =~= old(self)@);
                                            }
                                            Err(EvalError::AddressOutOfRange)
                                        }
                                    },
                                    None => {
                                        self.push_val(V::Number(vbits));
                                        self.push_val(V::Number(abits));
                                        proof {
                                            assert(self@.stack =~= old(self)@.stack);
                                            assert(self@ =~= old(self)@);
                                        }
                                        Err(EvalError::AddressOutOfRange)
                                    },
                                }
                            },
                            other => {
                                self.push_val(other);
                                self.push_val(V::Number(abits));
                                proof {
                                    assert(self@.stack =~= old(self)@.stack);
                                    assert(self@ =~= old(self)@);
                                }
                                Err(EvalError::TypeMismatch)
                            },
                        }
                    },
                    other_addr => {
                        self.push_val(value);
                        self.push_val(other_addr);
                        proof {
                            assert(self@.stack =~= old(self)@.stack);
                            assert(self@ =~= old(self)@);
                        }
                        Err(EvalError::TypeMismatch)
                    },
                }
            },
            V::Load => {
                if self.stack.len() < 1 {
                    return Err(EvalError::StackUnderflow);
                }
                let addr = self.pop_top();
                match addr {
                    V::Identifier(name) => {
                        let stored = match self.vars.get(&name) {
                            Some(sv) => Some(sv.duplicate()),
                            None => None,
                        };
                        match stored {
                            Some(sv) => {
                                self.push_val(sv);
                                Ok(Flow::Continue)
                            },
                            None => {
                                self.push_val(V::Identifier(name));
                                proof {
                                    assert(self@.stack =~= old(self)@.stack);
                                    assert(self@ =~= old(self)@);
                                }
                                Err(EvalError::NameNotFound)
                            },
                        }
                    },
                    V::Number(abits) => {
                        match round_bits(abits) {
                            Some(i) => {
                                if 0 <= i && i < NUM_REGISTERS as i64 {
                                    let rb = self.registers[i as usize];
                                    self.push_val(V::Number(rb));
                                    Ok(Flow::Continue)
                                } else {
                                    self.push_val(V::Number(abits));
                                    proof {
                                        assert(self@.stack =~= old(self)@.stack);
                                        assert(self@ =~= old(self)@);
                                    }
                                    Err(EvalError::AddressOutOfRange)
                                }
                            },
                            None => {
                                self.push_val(V::Number(abits));
                                proof {
                                    assert(self@.stack =~= old(self)@.stack);
                                    assert(self@ =~= old(self)@);
                                }
                                Err(EvalError::AddressOutOfRange)
                            },
                        }
                    },
                    other => {
                        self.push_val(other);
                        proof {
                            assert(self@.stack =~= old(self)@.stack);
                            assert(self@ =~= old(self)@);
                        }
                        Err(EvalError::TypeMismatch)
                    },
                }
            },
            V::Repeat => {
                if self.stack.len() < 2 {
                    return Err(EvalError::StackUnderflow);
                }
                let count = self.pop_top();
                let value = self.pop_top();
                match count {
                    V::Number(cb) => {
                        match round_bits(cb) {
                            Some(k) => {
                                let reps: u64 = if k < 0 {
                                    0
                                } else {
                                    k as u64
                                };
                                let ghost m1 = self@;
                                let ghost vm = value@;
                                let mut j: u64 = 0;
                                while j < reps
                                    invariant
                                        j <= reps,
                                        self.wf(),
                                        run_repeat(m1, vm, reps as nat, fuel as nat)
                                            == run_repeat(
                                            self@,
                                            vm,
                                            (reps - j) as nat,
                                            fuel as nat,
                                        ),
                                    decreases reps - j,
                                {
                                    let d = value.duplicate();
                                    match self.process_at(d, true, fuel - 1) {
                                        Ok(Flow::Continue) => {},
                                        Ok(Flow::Quit) => {
                                            return Ok(Flow::Quit);
                                        },
                                        Err(e) => {
                                            return Err(e);
                                        },
                                    }
                                    j = j + 1;
                                }
                                Ok(Flow::Continue)
                            },
                            None => {
                                self.push_val(value);
                                self.push_val(V::Number(cb));
                                proof {
                                    assert(self@.stack =~= old(self)@.stack);
                                    assert(self@ =~= old(self)@);
                                }
                                Err(EvalError::TypeMismatch)
                            },
                        }
                    },
                    other => {
                        self.push_val(value);
                        self.push_val(other);
                        proof {
                            assert(self@.stack =~= old(self)@.stack);
                            assert(self@ =~= old(self)@);
                        }
                        Err(EvalError::TypeMismatch)
                    },
                }
            },
            V::Apply => {
                if self.stack.len() < 1 {
                    return Err(EvalError::StackUnderflow);
                }
                let x = self.pop_top();
                self.process_at(x, true, fuel - 1)
            },
            V::Curry => {
                if self.stack.len() < 2 {
                    return Err(EvalError::StackUnderflow);
                }
                let arg = self.pop_top();
                let target = self.pop_top();
                match target {
                    V::FunctionRef(inner, mut bound) => {
                        proof {
                            lemma_models_len(bound@);
                        }
                        if can_take_argument(&inner, bound.len()) {
                            proof {
                                lemma_models_len(bound@);
                            }
                            let ghost b0 = bound@;
                            let ghost bvals = models(bound@);
                            bound.push(arg);
                            proof {
                                lemma_models_len(bound@);
                                lemma_models_len(b0);
                                assert forall|t: int| 0 <= t < bound@.len() implies models(
                                    bound@,
                                )[t] == bvals.push(arg@)[t] by {
                                    lemma_models_index(bound@, t);
                                    if t < bound@.len() - 1 {
                                        lemma_models_index(b0, t);
                                        assert(bound@[t] == b0[t]);
                                    } else {
                                        assert(bound@[t] == arg);
                                    }
                                }
                                assert(models(bound@) =~= bvals.push(arg@));
                            }
                            self.push_val(V::FunctionRef(inner, bound));
                            Ok(Flow::Continue)
                        } else {
                            self.push_val(V::FunctionRef(inner, bound));
                            self.push_val(arg);
                            proof {
                                assert(self@.stack =~= old(self)@.stack);
                                assert(self@ =~= old(self)@);
                            }
                            Err(EvalError::TypeMismatch)
                        }
                    },
                    V::Composed(ca, cb) => {
                        let mut b: Vec<V> = Vec::new();
                        b.push(arg);
                        proof {
                            reveal_with_fuel(models, 2);
                            assert(b@.len() == 1);
                            assert(b@.drop_last() =~= Seq::<V>::empty());
                            assert(b@.last() == arg);
                            assert(models(b@) =~= seq![arg@]);
                        }
                        self.push_val(V::FunctionRef(Box::new(V::Composed(ca, cb)), b));
                        Ok(Flow::Continue)
                    },
                    V::Identifier(name) => {
                        let mut b: Vec<V> = Vec::new();
                        b.push(arg);
                        proof {
                            reveal_with_fuel(models, 2);
                            assert(b@.len() == 1);
                            assert(b@.drop_last() =~= Seq::<V>::empty());
                            assert(b@.last() == arg);
                            assert(models(b@) =~= seq![arg@]);
                        }
                        self.push_val(V::FunctionRef(Box::new(V::Identifier(name)), b));
                        Ok(Flow::Continue)
                    },
                    other => {
                        self.push_val(other);
                        self.push_val(arg);
                        proof {
                            assert(self@.stack =~= old(self)@.stack);
                            assert(self@ =~= old(self)@);
                        }
                        Err(EvalError::TypeMismatch)
                    },
                }
            },
            V::Compose => {
                if self.stack.len() < 2 {
                    return Err(EvalError::StackUnderflow);
                }
                let b = self.pop_top();
                let a = self.pop_top();
                self.push_val(V::Composed(Box::new(a), Box::new(b)));
                Ok(Flow::Continue)
            },
        }
    }
}

/// The result bits of a binary primitive.
fn binop_bits(op: BinOp, a: u64, b: u64) -> (r: u64)
    ensures
        r == apply_binop(op, a, b),
{
    match op {
        BinOp::Add => add_bits(a, b),
        BinOp::Sub => sub_bits(a, b),
        BinOp::Mul => mul_bits(a, b),
        BinOp::Div => div_bits(a, b),
        BinOp::Mod => mod_bits(a, b),
        BinOp::LessThan => if lt_bits(a, b) {
            ONE_BITS
        } else {
            ZERO_BITS
        },
        BinOp::GreaterThan => if gt_bits(a, b) {
            ONE_BITS
        } else {
            ZERO_BITS
        },
        BinOp::Equal => if eq_bits(a, b) {
            ONE_BITS
        } else {
            ZERO_BITS
        },
    }
}

} // verus!
