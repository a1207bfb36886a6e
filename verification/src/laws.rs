//! The general laws of the interpreter, stated over the specification
//! interpreter and proved once and for all.  Each law quantifies over every
//! admissible input; the concrete scenarios live in the test suite.

use vstd::prelude::*;
use crate::machine::{
    MachineModel, StepRes, run, run_seq, run_repeat, apply_binop, NUM_REGISTERS, EvalError,
    state_of, wf_state,
};
use crate::numerics::{round_i64_of, is_zero_bits};
use crate::value::{
    Val, BinOp, wf_val, wf_vals, lemma_wf_vals_index, lemma_wf_vals_push, lemma_wf_vals_concat,
};

verus! {

/// The data-model invariant is preserved by every step: executing any well
/// formed instruction against a well formed machine state leaves a well
/// formed state, whatever the outcome.  In particular a function
/// reference's bound-argument count never comes to exceed the arity of the
/// primitive inside it: currying checks for a free slot and restores its
/// operands when there is none.
pub proof fn law_step_preserves_wf(m: MachineModel, v: Val, force: bool, fuel: nat)
    requires
        wf_state(m),
        wf_val(v),
    ensures
        wf_state(state_of(run(m, v, force, fuel))),
    decreases fuel, 1int, 0int,
{
    broadcast use lemma_wf_vals_index, lemma_wf_vals_push, lemma_wf_vals_concat;

    if fuel == 0 {
    } else {
        let f1 = (fuel - 1) as nat;
        match v {
            Val::Number(_) => {},
            Val::FunctionRef(inner, bound) => {
                if force {
                    let m2 = MachineModel { stack: m.stack + bound, ..m };
                    assert(wf_vals(m.stack + bound));
                    law_step_preserves_wf(m2, *inner, true, f1);
                }
            },
            Val::Composed(a, b) => {
                if force {
                    law_step_preserves_wf(m, *a, true, f1);
                    match run(m, *a, true, f1) {
                        StepRes::Next(m1) => {
                            law_step_preserves_wf(m1, *b, true, f1);
                        },
                        _ => {},
                    }
                }
            },
            Val::Identifier(name) => {
                if force && m.vars.contains_key(name) {
                    law_step_preserves_wf(m, m.vars[name], true, f1);
                }
            },
            Val::Operator(_) => {
                if m.stack.len() >= 2 {
                    assert(wf_vals(m.stack.drop_last()));
                    assert(wf_vals(m.stack.drop_last().drop_last()));
                }
            },
            Val::Conditional => {
                if m.stack.len() >= 3 && m.stack[m.stack.len() - 3] is Number {
                    assert(wf_vals(m.stack.drop_last()));
                    assert(wf_vals(m.stack.drop_last().drop_last()));
                    assert(wf_vals(m.stack.drop_last().drop_last().drop_last()));
                    assert(wf_val(m.stack.last()) && wf_val(m.stack[m.stack.len() - 2]));
                }
            },
            Val::StackOp(_) => {
                if m.stack.len() >= 1 {
                    assert(wf_vals(m.stack.drop_last()));
                }
            },
            Val::Store => {
                if m.stack.len() >= 2 {
                    assert(wf_vals(m.stack.drop_last()));
                    assert(wf_vals(m.stack.drop_last().drop_last()));
                    assert(wf_val(m.stack[m.stack.len() - 2]));
                    match m.stack.last() {
                        Val::Identifier(name) => {
                            let m2 = m.popped().popped().with_var(
                                name,
                                m.stack[m.stack.len() - 2],
                            );
                            assert forall|k: Seq<char>|
                                #[trigger] m2.vars.contains_key(k) implies wf_val(
                                m2.vars[k],
                            ) by {
                                if k != name {
                                    assert(m.vars.contains_key(k));
                                }
                            }
                        },
                        _ => {},
                    }
                }
            },
            Val::Load => {
                if m.stack.len() >= 1 {
                    assert(wf_vals(m.stack.drop_last()));
                    match m.stack.last() {
                        Val::Identifier(name) => {
                            if m.vars.contains_key(name) {
                                assert(wf_val(m.vars[name]));
                            }
                        },
                        _ => {},
                    }
                }
            },
            Val::Repeat => {
                if m.stack.len() >= 2 {
                    assert(wf_vals(m.stack.drop_last()));
                    assert(wf_vals(m.stack.drop_last().drop_last()));
                    let value = m.stack[m.stack.len() - 2];
                    assert(wf_val(value));
                    match m.stack.last() {
                        Val::Number(cbits) => {
                            match round_i64_of(cbits) {
                                Some(k) => {
                                    law_repeat_preserves_wf(
                                        m.popped().popped(),
                                        value,
                                        if k < 0 {
                                            0nat
                                        } else {
                                            k as nat
                                        },
                                        fuel,
                                    );
                                },
                                None => {},
                            }
                        },
                        _ => {},
                    }
                }
            },
            Val::Apply => {
                if m.stack.len() >= 1 {
                    assert(wf_vals(m.stack.drop_last()));
                    assert(wf_val(m.stack.last()));
                    law_step_preserves_wf(m.popped(), m.stack.last(), true, f1);
                }
            },
            Val::Curry => {
                if m.stack.len() >= 2 {
                    assert(wf_vals(m.stack.drop_last()));
                    assert(wf_vals(m.stack.drop_last().drop_last()));
                    let target = m.stack[m.stack.len() - 2];
                    let arg = m.stack.last();
                    assert(wf_val(target) && wf_val(arg));
                    match target {
                        Val::FunctionRef(inner, bound) => {
                            assert(wf_vals(bound.push(arg)));
                        },
                        Val::Composed(_, _) => {
                            assert(wf_vals(Seq::<Val>::empty().push(arg)));
                            assert(seq![arg] =~= Seq::<Val>::empty().push(arg));
                        },
                        Val::Identifier(_) => {
                            assert(wf_vals(Seq::<Val>::empty().push(arg)));
                            assert(seq![arg] =~= Seq::<Val>::empty().push(arg));
                        },
                        _ => {},
                    }
                }
            },
            Val::Compose => {
                if m.stack.len() >= 2 {
                    assert(wf_vals(m.stack.drop_last()));
                    assert(wf_vals(m.stack.drop_last().drop_last()));
                    assert(wf_val(m.stack[m.stack.len() - 2]) && wf_val(m.stack.last()));
                }
            },
        }
    }
}

/// A whole instruction sequence preserves the data-model invariant when
/// every instruction in it is well formed.
pub proof fn law_run_seq_preserves_wf(m: MachineModel, instrs: Seq<Val>, fuel: nat)
    requires
        wf_state(m),
        wf_vals(instrs),
    ensures
        wf_state(state_of(run_seq(m, instrs, fuel))),
    decreases instrs.len(),
{
    broadcast use lemma_wf_vals_index;

    if instrs.len() > 0 {
        law_step_preserves_wf(m, instrs[0], false, fuel);
        match run(m, instrs[0], false, fuel) {
            StepRes::Next(m1) => {
                assert(wf_vals(instrs.skip(1))) by {
                    lemma_wf_vals_skip(instrs, 1);
                }
                law_run_seq_preserves_wf(m1, instrs.skip(1), fuel);
            },
            _ => {},
        }
    }
}

/// Dropping a prefix keeps a sequence of well formed values well formed.
proof fn lemma_wf_vals_skip(s: Seq<Val>, k: int)
    requires
        wf_vals(s),
        0 <= k <= s.len(),
    ensures
        wf_vals(s.skip(k)),
    decreases s.len(),
{
    broadcast use lemma_wf_vals_index, lemma_wf_vals_push;

    if k == 0 {
        assert(s.skip(0) =~= s);
    } else if s.len() > 0 {
        if k == s.len() {
            assert(s.skip(k).len() == 0);
        } else {
            lemma_wf_vals_skip(s.drop_last(), k);
            assert(s.skip(k) =~= s.drop_last().skip(k).push(s.last()));
        }
    }
}

/// Everything the parser emits is well formed: a parsed line may be fed to
/// the machine without ever breaching the data-model invariant.
pub proof fn law_parse_emits_wf(s: Seq<char>, mode: bool, count: nat)
    ensures
        wf_vals(crate::parser::parse_loop(s, mode, count).0),
    decreases s.len(),
{
    broadcast use lemma_wf_vals_push, lemma_wf_vals_concat;

    let w = crate::parser::space_len(s);
    let t = s.skip(w);
    crate::parser::lemma_space_len_bounds(s);
    if t.len() == 0 {
    } else {
        crate::parser::lemma_token_step_bounds(t, mode, count);
        match crate::parser::token_step(t, mode, count) {
            Some(st) => {
                assert(wf_vals(st.emitted)) by {
                    lemma_token_emits_wf(t, mode, count);
                }
                law_parse_emits_wf(t.skip(st.consumed), st.mode, st.count);
            },
            None => {},
        }
    }
}

/// Every command a bare operator character denotes is well formed.
proof fn lemma_op_val_wf(c: char)
    requires
        crate::parser::op_val(c) is Some,
    ensures
        wf_val(crate::parser::op_val(c)->0),
{
    let v = crate::parser::op_val(c)->0;
    assert(!(v is FunctionRef) && !(v is Composed));
}

/// Each single token emits only well formed values: numbers, commands,
/// identifiers, and function references with no bound arguments.
proof fn lemma_token_emits_wf(t: Seq<char>, mode: bool, count: nat)
    requires
        crate::parser::token_step(t, mode, count) is Some,
    ensures
        wf_vals(crate::parser::token_step(t, mode, count)->0.emitted),
{
    broadcast use lemma_wf_vals_push;

    let st = crate::parser::token_step(t, mode, count)->0;
    let e = Seq::<Val>::empty();
    assert(wf_vals(e));
    if crate::parser::number_len(t) is Some {
        let num = Val::Number(
            crate::numerics::bits_of_literal(t.take(crate::parser::number_len(t)->0)),
        );
        if mode {
            assert(st.emitted =~= e.push(num).push(Val::Curry));
        } else {
            assert(st.emitted =~= e.push(num));
        }
    } else if t[0] == '\\' && t.len() >= 2 && crate::parser::op_val(t[1]) is Some {
        let f = Val::FunctionRef(Box::new(crate::parser::op_val(t[1])->0), e);
        lemma_op_val_wf(t[1]);
        assert(wf_val(f));
        assert(st.emitted =~= e.push(f));
    } else if crate::parser::op_val(t[0]) is Some && (!mode || crate::parser::op_val(t[0])->0
        == Val::Curry || crate::parser::op_val(t[0])->0 == Val::Compose) {
        assert(st.emitted =~= e.push(crate::parser::op_val(t[0])->0));
    } else if t[0] == '(' && crate::parser::alnum_len(t.skip(1)) >= 1 && 1
        + crate::parser::alnum_len(t.skip(1)) < t.len() && t[1 + crate::parser::alnum_len(
        t.skip(1),
    )] == ')' {
        let k = crate::parser::alnum_len(t.skip(1));
        assert(st.emitted =~= e.push(Val::Identifier(t.subrange(1, 1 + k))));
    } else if mode && crate::parser::op_val(t[0]) is Some {
        let f = Val::FunctionRef(Box::new(crate::parser::op_val(t[0])->0), e);
        lemma_op_val_wf(t[0]);
        assert(wf_val(f));
        if count >= 2 {
            assert(st.emitted =~= e.push(Val::Compose).push(f));
        } else {
            assert(st.emitted =~= e.push(f));
        }
    } else if t[0] == '}' {
        if count >= 2 {
            assert(st.emitted =~= e.push(Val::Compose));
        } else {
            assert(st.emitted =~= e);
        }
    } else {
        assert(st.emitted =~= e);
    }
}

/// The repeated force-executions of [`run_repeat`] preserve the data-model
/// invariant likewise.
pub proof fn law_repeat_preserves_wf(m: MachineModel, v: Val, n: nat, fuel: nat)
    requires
        wf_state(m),
        wf_val(v),
    ensures
        wf_state(state_of(run_repeat(m, v, n, fuel))),
    decreases fuel, 0int, n,
{
    if n == 0 || fuel == 0 {
    } else {
        law_step_preserves_wf(m, v, true, (fuel - 1) as nat);
        match run(m, v, true, (fuel - 1) as nat) {
            StepRes::Next(m1) => {
                law_repeat_preserves_wf(m1, v, (n - 1) as nat, fuel);
            },
            _ => {},
        }
    }
}

/// For all numbers `a`, `b` and every binary primitive: evaluating the
/// instructions of `"a b op"` against an empty stack leaves exactly one
/// value, the result of `a op b` (for the comparisons, one or zero), and
/// touches nothing else.  The operand order is fixed: the value pushed
/// first is the left operand.
pub proof fn law_binary_operator(m: MachineModel, a: u64, b: u64, op: BinOp, fuel: nat)
    requires
        m.stack.len() == 0,
        fuel >= 1,
    ensures
        run_seq(m, seq![Val::Number(a), Val::Number(b), Val::Operator(op)], fuel)
            == StepRes::Next(
            MachineModel { stack: seq![Val::Number(apply_binop(op, a, b))], ..m },
        ),
{
    let s = seq![Val::Number(a), Val::Number(b), Val::Operator(op)];
    let m1 = m.pushed(Val::Number(a));
    let m2 = m1.pushed(Val::Number(b));
    assert(run(m, s[0], false, fuel) == StepRes::Next(m1));
    assert(s.skip(1) =~= seq![Val::Number(b), Val::Operator(op)]);
    assert(s.skip(1).skip(1) =~= seq![Val::Operator(op)]);
    assert(s.skip(1).skip(1).skip(1) =~= Seq::<Val>::empty());
    assert(run(m1, Val::Number(b), false, fuel) == StepRes::Next(m2));
    assert(m2.stack.len() == 2);
    assert(m2.stack[0] == Val::Number(a) && m2.stack[1] == Val::Number(b));
    let m3 = m2.popped().popped().pushed(Val::Number(apply_binop(op, a, b)));
    assert(run(m2, Val::Operator(op), false, fuel) == StepRes::Next(m3));
    assert(m3.stack =~= seq![Val::Number(apply_binop(op, a, b))]);
    assert(m3 =~= (MachineModel { stack: seq![Val::Number(apply_binop(op, a, b))], ..m }));
    assert(run_seq(m, s, fuel) == run_seq(m1, s.skip(1), fuel));
    assert(run_seq(m1, s.skip(1), fuel) == run_seq(m2, s.skip(1).skip(1), fuel));
    assert(run_seq(m2, s.skip(1).skip(1), fuel) == run_seq(m3, s.skip(1).skip(1).skip(1), fuel));
    assert(run_seq(m3, s.skip(1).skip(1).skip(1), fuel) == StepRes::Next(m3));
}

/// Round trip through the name table: storing any number under a name and
/// loading that name back leaves the stack holding exactly that number
/// (and the name bound to it).
pub proof fn law_store_load_named(m: MachineModel, n: u64, name: Seq<char>, fuel: nat)
    requires
        m.stack.len() == 0,
        fuel >= 1,
    ensures
        run_seq(
            m,
            seq![
                Val::Number(n),
                Val::Identifier(name),
                Val::Store,
                Val::Identifier(name),
                Val::Load,
            ],
            fuel,
        ) == StepRes::Next(
            MachineModel {
                stack: seq![Val::Number(n)],
                vars: m.vars.insert(name, Val::Number(n)),
                ..m
            },
        ),
{
    let s = seq![
        Val::Number(n),
        Val::Identifier(name),
        Val::Store,
        Val::Identifier(name),
        Val::Load,
    ];
    let m1 = m.pushed(Val::Number(n));
    let m2 = m1.pushed(Val::Identifier(name));
    assert(s.skip(1) =~= seq![Val::Identifier(name), Val::Store, Val::Identifier(name), Val::Load]);
    assert(s.skip(1).skip(1) =~= seq![Val::Store, Val::Identifier(name), Val::Load]);
    assert(s.skip(1).skip(1).skip(1) =~= seq![Val::Identifier(name), Val::Load]);
    assert(s.skip(1).skip(1).skip(1).skip(1) =~= seq![Val::Load]);
    assert(s.skip(1).skip(1).skip(1).skip(1).skip(1) =~= Seq::<Val>::empty());
    assert(run(m, Val::Number(n), false, fuel) == StepRes::Next(m1));
    assert(run(m1, Val::Identifier(name), false, fuel) == StepRes::Next(m2));
    assert(m2.stack.len() == 2);
    assert(m2.stack[0] == Val::Number(n) && m2.stack[1] == Val::Identifier(name));
    let m3 = m2.popped().popped().with_var(name, Val::Number(n));
    assert(run(m2, Val::Store, false, fuel) == StepRes::Next(m3));
    let m4 = m3.pushed(Val::Identifier(name));
    assert(run(m3, Val::Identifier(name), false, fuel) == StepRes::Next(m4));
    assert(m4.stack.last() == Val::Identifier(name));
    assert(m4.vars.contains_key(name) && m4.vars[name] == Val::Number(n));
    let m5 = m4.popped().pushed(Val::Number(n));
    assert(run(m4, Val::Load, false, fuel) == StepRes::Next(m5));
    assert(m5.stack =~= seq![Val::Number(n)]);
    assert(m5 =~= (MachineModel {
        stack: seq![Val::Number(n)],
        vars: m.vars.insert(name, Val::Number(n)),
        ..m
    }));
    assert(run_seq(m, s, fuel) == run_seq(m1, s.skip(1), fuel));
    assert(run_seq(m1, s.skip(1), fuel) == run_seq(m2, s.skip(1).skip(1), fuel));
    assert(run_seq(m2, s.skip(1).skip(1), fuel) == run_seq(m3, s.skip(1).skip(1).skip(1), fuel));
    assert(run_seq(m3, s.skip(1).skip(1).skip(1), fuel) == run_seq(
        m4,
        s.skip(1).skip(1).skip(1).skip(1),
        fuel,
    ));
    assert(run_seq(m4, s.skip(1).skip(1).skip(1).skip(1), fuel) == run_seq(
        m5,
        s.skip(1).skip(1).skip(1).skip(1).skip(1),
        fuel,
    ));
    assert(run_seq(m5, s.skip(1).skip(1).skip(1).skip(1).skip(1), fuel) == StepRes::Next(m5));
}

/// Round trip through the register bank: storing any number at a valid
/// register address and loading the same address back leaves the stack
/// holding exactly that number (and the register holding its bits).
pub proof fn law_store_load_register(m: MachineModel, n: u64, addr: u64, i: i64, fuel: nat)
    requires
        m.stack.len() == 0,
        m.registers.len() == NUM_REGISTERS,
        round_i64_of(addr) == Some(i),
        0 <= i < NUM_REGISTERS as i64,
        fuel >= 1,
    ensures
        run_seq(
            m,
            seq![Val::Number(n), Val::Number(addr), Val::Store, Val::Number(addr), Val::Load],
            fuel,
        ) == StepRes::Next(
            MachineModel {
                stack: seq![Val::Number(n)],
                registers: m.registers.update(i as int, n),
                ..m
            },
        ),
{
    let s = seq![Val::Number(n), Val::Number(addr), Val::Store, Val::Number(addr), Val::Load];
    let m1 = m.pushed(Val::Number(n));
    let m2 = m1.pushed(Val::Number(addr));
    assert(s.skip(1) =~= seq![Val::Number(addr), Val::Store, Val::Number(addr), Val::Load]);
    assert(s.skip(1).skip(1) =~= seq![Val::Store, Val::Number(addr), Val::Load]);
    assert(s.skip(1).skip(1).skip(1) =~= seq![Val::Number(addr), Val::Load]);
    assert(s.skip(1).skip(1).skip(1).skip(1) =~= seq![Val::Load]);
    assert(s.skip(1).skip(1).skip(1).skip(1).skip(1) =~= Seq::<Val>::empty());
    assert(m2.stack.len() == 2);
    assert(m2.stack[0] == Val::Number(n) && m2.stack[1] == Val::Number(addr));
    let m3 = m2.popped().popped().with_register(i as int, n);
    assert(run(m2, Val::Store, false, fuel) == StepRes::Next(m3));
    let m4 = m3.pushed(Val::Number(addr));
    assert(m4.stack.last() == Val::Number(addr));
    assert(m4.registers[i as int] == n);
    let m5 = m4.popped().pushed(Val::Number(n));
    assert(run(m4, Val::Load, false, fuel) == StepRes::Next(m5));
    assert(m5.stack =~= seq![Val::Number(n)]);
    assert(m5 =~= (MachineModel {
        stack: seq![Val::Number(n)],
        registers: m.registers.update(i as int, n),
        ..m
    }));
    assert(run_seq(m, s, fuel) == run_seq(m1, s.skip(1), fuel));
    assert(run_seq(m1, s.skip(1), fuel) == run_seq(m2, s.skip(1).skip(1), fuel));
    assert(run_seq(m2, s.skip(1).skip(1), fuel) == run_seq(m3, s.skip(1).skip(1).skip(1), fuel));
    assert(run_seq(m3, s.skip(1).skip(1).skip(1), fuel) == run_seq(
        m4,
        s.skip(1).skip(1).skip(1).skip(1),
        fuel,
    ));
    assert(run_seq(m4, s.skip(1).skip(1).skip(1).skip(1), fuel) == run_seq(
        m5,
        s.skip(1).skip(1).skip(1).skip(1).skip(1),
        fuel,
    ));
    assert(run_seq(m5, s.skip(1).skip(1).skip(1).skip(1).skip(1), fuel) == StepRes::Next(m5));
}

/// Currying is the deferred form of direct application: binding `a` and
/// then `b` into a deferred binary primitive and forcing it with apply
/// computes exactly what evaluating `"a b op"` directly computes.
pub proof fn law_curry_matches_direct(m: MachineModel, a: u64, b: u64, op: BinOp, fuel: nat)
    requires
        m.stack.len() == 0,
        fuel >= 3,
    ensures
        run_seq(
            m,
            seq![
                Val::FunctionRef(Box::new(Val::Operator(op)), Seq::empty()),
                Val::Number(a),
                Val::Curry,
                Val::Number(b),
                Val::Curry,
                Val::Apply,
            ],
            fuel,
        ) == run_seq(m, seq![Val::Number(a), Val::Number(b), Val::Operator(op)], fuel),
        run_seq(
            m,
            seq![
                Val::FunctionRef(Box::new(Val::Operator(op)), Seq::empty()),
                Val::Number(a),
                Val::Curry,
                Val::Number(b),
                Val::Curry,
                Val::Apply,
            ],
            fuel,
        ) == StepRes::Next(
            MachineModel { stack: seq![Val::Number(apply_binop(op, a, b))], ..m },
        ),
{
    law_binary_operator(m, a, b, op, fuel);
    let f0 = Val::FunctionRef(Box::new(Val::Operator(op)), Seq::empty());
    let f1 = Val::FunctionRef(Box::new(Val::Operator(op)), seq![Val::Number(a)]);
    let f2 = Val::FunctionRef(Box::new(Val::Operator(op)), seq![Val::Number(a), Val::Number(b)]);
    let s = seq![f0, Val::Number(a), Val::Curry, Val::Number(b), Val::Curry, Val::Apply];
    assert(s.skip(1) =~= seq![Val::Number(a), Val::Curry, Val::Number(b), Val::Curry, Val::Apply]);
    assert(s.skip(1).skip(1) =~= seq![Val::Curry, Val::Number(b), Val::Curry, Val::Apply]);
    assert(s.skip(1).skip(1).skip(1) =~= seq![Val::Number(b), Val::Curry, Val::Apply]);
    assert(s.skip(1).skip(1).skip(1).skip(1) =~= seq![Val::Curry, Val::Apply]);
    assert(s.skip(1).skip(1).skip(1).skip(1).skip(1) =~= seq![Val::Apply]);
    assert(s.skip(1).skip(1).skip(1).skip(1).skip(1).skip(1) =~= Seq::<Val>::empty());
    let m1 = m.pushed(f0);
    let m2 = m1.pushed(Val::Number(a));
    assert(m2.stack.len() == 2 && m2.stack[0] == f0 && m2.stack[1] == Val::Number(a));
    let m3 = m2.popped().popped().pushed(f1);
    assert(Seq::<Val>::empty().push(Val::Number(a)) =~= seq![Val::Number(a)]);
    assert(run(m2, Val::Curry, false, fuel) == StepRes::Next(m3));
    let m4 = m3.pushed(Val::Number(b));
    assert(m4.stack.len() == 2 && m4.stack[0] == f1 && m4.stack[1] == Val::Number(b));
    let m5 = m4.popped().popped().pushed(f2);
    assert(seq![Val::Number(a)].push(Val::Number(b)) =~= seq![Val::Number(a), Val::Number(b)]);
    assert(run(m4, Val::Curry, false, fuel) == StepRes::Next(m5));
    // apply: pop the saturated reference and force it
    assert(m5.stack.len() == 1 && m5.stack.last() == f2);
    let m6 = m5.popped();
    assert(m6.stack.len() == 0);
    let pushed = MachineModel { stack: m6.stack + seq![Val::Number(a), Val::Number(b)], ..m6 };
    assert(run(m5, Val::Apply, false, fuel) == run(m6, f2, true, (fuel - 1) as nat));
    assert(run(m6, f2, true, (fuel - 1) as nat) == run(
        pushed,
        Val::Operator(op),
        true,
        (fuel - 2) as nat,
    ));
    assert(pushed.stack.len() == 2);
    assert(pushed.stack[0] == Val::Number(a) && pushed.stack[1] == Val::Number(b));
    let m7 = pushed.popped().popped().pushed(Val::Number(apply_binop(op, a, b)));
    assert(run(pushed, Val::Operator(op), true, (fuel - 2) as nat) == StepRes::Next(m7));
    assert(m7.stack =~= seq![Val::Number(apply_binop(op, a, b))]);
    assert(m7 =~= (MachineModel { stack: seq![Val::Number(apply_binop(op, a, b))], ..m }));
    assert(run_seq(m, s, fuel) == run_seq(m1, s.skip(1), fuel));
    assert(run_seq(m1, s.skip(1), fuel) == run_seq(m2, s.skip(1).skip(1), fuel));
    assert(run_seq(m2, s.skip(1).skip(1), fuel) == run_seq(m3, s.skip(1).skip(1).skip(1), fuel));
    assert(run_seq(m3, s.skip(1).skip(1).skip(1), fuel) == run_seq(
        m4,
        s.skip(1).skip(1).skip(1).skip(1),
        fuel,
    ));
    assert(run_seq(m4, s.skip(1).skip(1).skip(1).skip(1), fuel) == run_seq(
        m5,
        s.skip(1).skip(1).skip(1).skip(1).skip(1),
        fuel,
    ));
    assert(run_seq(m5, s.skip(1).skip(1).skip(1).skip(1).skip(1), fuel) == StepRes::Next(m7));
    assert(run_seq(
        m7,
        s.skip(1).skip(1).skip(1).skip(1).skip(1).skip(1),
        fuel,
    ) == StepRes::Next(m7));
}

/// Composition preserves left-to-right order: force-applying a composed
/// value is exactly force-applying its first part and then, if that
/// succeeded and did not quit, its second part against the resulting state.
pub proof fn law_composed_in_order(m: MachineModel, f: Val, g: Val, fuel: nat)
    requires
        fuel >= 1,
    ensures
        run(m, Val::Composed(Box::new(f), Box::new(g)), true, fuel) == (match run(
            m,
            f,
            true,
            (fuel - 1) as nat,
        ) {
            StepRes::Next(m1) => run(m1, g, true, (fuel - 1) as nat),
            other => other,
        }),
{
}

/// The conditional selects by the condition alone: a zero condition (either
/// sign of zero) yields the else branch, any other number the then branch;
/// the selected value is pushed as it is, unforced.
pub proof fn law_conditional_selects(m: MachineModel, cb: u64, force: bool, fuel: nat)
    requires
        m.stack.len() >= 3,
        m.stack[m.stack.len() - 3] == Val::Number(cb),
        fuel >= 1,
    ensures
        run(m, Val::Conditional, force, fuel) == StepRes::Next(
            m.popped().popped().popped().pushed(
                if is_zero_bits(cb) {
                    m.stack.last()
                } else {
                    m.stack[m.stack.len() - 2]
                },
            ),
        ),
{
}

/// Stack underflow never drops operands: a binary primitive against a
/// single-element stack fails with an underflow and the machine, its one
/// stack element included, is exactly as it was.
pub proof fn law_underflow_preserves_stack(m: MachineModel, op: BinOp, force: bool, fuel: nat)
    requires
        m.stack.len() == 1,
        fuel >= 1,
    ensures
        run(m, Val::Operator(op), force, fuel) == StepRes::Fail(EvalError::StackUnderflow, m),
{
}

} // verus!
