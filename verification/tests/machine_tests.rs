use rpncalc::machine::{EvalError, Flow, Machine};
use rpncalc::parser::parse;
use rpncalc::value::{BinOp, V};

fn num(x: f64) -> V {
    V::Number(x.to_bits())
}

/// Parses and runs one line against a fresh machine (no bootstrap library).
fn eval(raw: &str) -> Machine {
    let (vals, rest) = parse(raw);
    assert_eq!(rest, "", "parsing failed on {raw}");
    let mut machine = Machine::new();
    for v in vals {
        match machine.process(v) {
            Ok(Flow::Continue) => {}
            other => panic!("processing failed on {raw}: {other:?}"),
        }
    }
    machine
}

fn eval_stack(raw: &str) -> Vec<V> {
    eval(raw).stack
}

fn singleton(raw: &str) -> f64 {
    let stack = eval_stack(raw);
    match stack.as_slice() {
        [V::Number(b)] => f64::from_bits(*b),
        s => panic!("stack should be a single number but was {s:?}"),
    }
}

#[test]
fn arithmetic_scenarios() {
    assert_eq!(singleton("1 2+3-"), 0.0);
    assert_eq!(singleton("40 2+6/7*"), 49.0);
    assert_eq!(eval_stack("5 2/3+3"), vec![num(5.5), num(3.0)]);
    assert_eq!(singleton("7 3%"), 1.0);
    assert_eq!(singleton("5.5 2%"), 1.5);
}

#[test]
fn operand_order_is_left_to_right() {
    assert_eq!(singleton("8 2-"), 6.0);
    assert_eq!(singleton("8 2/"), 4.0);
}

#[test]
fn division_by_zero_is_infinite() {
    let stack = eval_stack("1 0/");
    match stack.as_slice() {
        [V::Number(b)] => assert!(f64::from_bits(*b).is_infinite()),
        s => panic!("unexpected stack {s:?}"),
    }
}

#[test]
fn register_store_load() {
    assert_eq!(singleton("2 0s0l"), 2.0);
    assert_eq!(singleton("10 0s 20 1s c 1l 1l + 0l -"), 30.0);
    // addresses round to the nearest register
    assert_eq!(singleton("7 0.4s 0l"), 7.0);
    assert_eq!(singleton("7 1.6s 2l"), 7.0);
}

#[test]
fn named_store_load() {
    assert_eq!(singleton("2 (two) s c (two) l"), 2.0);
    assert_eq!(
        eval_stack("\\- (minus) s (minus) l"),
        vec![V::FunctionRef(Box::new(V::Operator(BinOp::Sub)), vec![])]
    );
    assert_eq!(singleton("\\- (minus) s 2 1 (minus) $"), 1.0);
}

#[test]
fn delayed_and_partial_application() {
    assert_eq!(singleton("1 1 \\+ $"), 2.0);
    assert_eq!(singleton("1 1\\+ $"), 2.0);
    assert_eq!(singleton("1 \\+ 1 1 + @ $"), 3.0);
    assert_eq!(
        eval_stack("1 \\+ 2 @"),
        vec![
            num(1.0),
            V::FunctionRef(Box::new(V::Operator(BinOp::Add)), vec![num(2.0)]),
        ]
    );
}

#[test]
fn comparisons_push_one_or_zero() {
    assert_eq!(singleton("2 2 ="), 1.0);
    assert_eq!(singleton("2 4 ="), 0.0);
    assert_eq!(singleton("2 4 <"), 1.0);
    assert_eq!(singleton("2 4 >"), 0.0);
}

#[test]
fn conditional_selects() {
    assert_eq!(singleton("2 4 > 2 4 ?"), 4.0);
    assert_eq!(singleton("2 4 < 2 4 ?"), 2.0);
    // both zeros select the else branch; any other number the then branch
    assert_eq!(singleton("0 7 8 ?"), 8.0);
    assert_eq!(singleton("-0.0 7 8 ?"), 8.0);
    assert_eq!(singleton("0.5 7 8 ?"), 7.0);
}

#[test]
fn curried_conditional() {
    assert_eq!(singleton("\\? 1@ -1@ (positiveIfTrue)s 5 (positiveIfTrue)$"), 1.0);
    assert_eq!(singleton("\\? 1@ -1@ (positiveIfTrue)s 0 (positiveIfTrue)$"), -1.0);
}

#[test]
fn composed_functions() {
    assert_eq!(singleton("\\+ 1@ \\* 2@ | (plus1Times2)s 4 (plus1Times2)$"), 10.0);
}

#[test]
fn min_from_scratch_registers() {
    let stack = eval_stack(
        "\\s 256@ \\s257@ | \\l257@ | \\l256@ | \\< | \\l257@ | \\l256@ | \\? | (min)s 2 4 (min)$ 4 3 (min)$",
    );
    assert_eq!(stack, vec![num(2.0), num(3.0)]);
}

#[test]
fn stack_size_and_clear() {
    assert_eq!(eval_stack("1 2 S"), vec![num(1.0), num(2.0), num(2.0)]);
    assert_eq!(eval_stack("1 2 3 c"), vec![]);
}

#[test]
fn repeat_applies_n_times() {
    assert_eq!(singleton("1 2 3 4 \\+ 3r"), 10.0);
    // zero repetitions are a no-op
    assert_eq!(eval_stack("5 \\+ 0r"), vec![num(5.0)]);
}

#[test]
fn quit_reports_termination() {
    let (vals, rest) = parse("q");
    assert_eq!(rest, "");
    let mut machine = Machine::new();
    let mut vals = vals;
    assert_eq!(machine.process(vals.remove(0)), Ok(Flow::Quit));
}

#[test]
fn print_pops_and_records_a_line() {
    let machine = eval("1 2 p");
    assert_eq!(machine.stack, vec![num(1.0)]);
    assert_eq!(machine.output.len(), 1);
}

#[test]
fn print_all_keeps_the_stack() {
    let machine = eval("1 2 f");
    assert_eq!(machine.stack, vec![num(1.0), num(2.0)]);
    assert_eq!(machine.output.len(), 1);
    let line = &machine.output[0];
    assert!(line.starts_with('[') && line.ends_with(']'));
}

#[test]
fn underflow_keeps_operands() {
    let mut machine = Machine::new();
    assert_eq!(machine.process(num(1.0)), Ok(Flow::Continue));
    assert_eq!(
        machine.process(V::Operator(BinOp::Add)),
        Err(EvalError::StackUnderflow)
    );
    assert_eq!(machine.stack, vec![num(1.0)]);
}

#[test]
fn type_mismatch_restores_operands() {
    // currying into a number is refused and both operands stay
    let mut machine = Machine::new();
    assert_eq!(machine.process(num(1.0)), Ok(Flow::Continue));
    assert_eq!(machine.process(num(2.0)), Ok(Flow::Continue));
    assert_eq!(machine.process(V::Curry), Err(EvalError::TypeMismatch));
    assert_eq!(machine.stack, vec![num(1.0), num(2.0)]);

    // an operator over a function value is refused likewise
    let mut machine = Machine::new();
    assert_eq!(machine.process(num(1.0)), Ok(Flow::Continue));
    let f = V::FunctionRef(Box::new(V::Operator(BinOp::Add)), vec![]);
    assert_eq!(machine.process(f.duplicate()), Ok(Flow::Continue));
    assert_eq!(
        machine.process(V::Operator(BinOp::Add)),
        Err(EvalError::TypeMismatch)
    );
    assert_eq!(machine.stack, vec![num(1.0), f]);
}

#[test]
fn saturated_reference_cannot_curry_more() {
    let mut machine = Machine::new();
    let (vals, rest) = parse("\\+ 1@ 2@ 3@");
    assert_eq!(rest, "");
    let mut result = Ok(Flow::Continue);
    for v in vals {
        result = machine.process(v);
        if result.is_err() {
            break;
        }
    }
    assert_eq!(result, Err(EvalError::TypeMismatch));
    assert_eq!(
        machine.stack,
        vec![
            V::FunctionRef(
                Box::new(V::Operator(BinOp::Add)),
                vec![num(1.0), num(2.0)],
            ),
            num(3.0),
        ]
    );
}

#[test]
fn name_not_found() {
    let mut machine = Machine::new();
    let (vals, rest) = parse("(nothere)l");
    assert_eq!(rest, "");
    let mut vals = vals;
    assert_eq!(machine.process(vals.remove(0)), Ok(Flow::Continue));
    assert_eq!(machine.process(vals.remove(0)), Err(EvalError::NameNotFound));
    assert_eq!(machine.stack, vec![V::Identifier(String::from("nothere"))]);
}

#[test]
fn address_out_of_range() {
    let mut machine = Machine::new();
    for v in [num(1.0), num(300.0), V::Store] {
        match machine.process(v) {
            Ok(Flow::Continue) => {}
            Err(e) => {
                assert_eq!(e, EvalError::AddressOutOfRange);
                assert_eq!(machine.stack, vec![num(1.0), num(300.0)]);
                return;
            }
            other => panic!("unexpected {other:?}"),
        }
    }
    panic!("storing out of range should have failed");
}

#[test]
fn negative_address_is_out_of_range() {
    let mut machine = Machine::new();
    for v in [num(1.0), num(-5.0), V::Store] {
        match machine.process(v) {
            Ok(Flow::Continue) => {}
            Err(e) => {
                assert_eq!(e, EvalError::AddressOutOfRange);
                return;
            }
            other => panic!("unexpected {other:?}"),
        }
    }
    panic!("storing at a negative address should have failed");
}

#[test]
fn self_referential_name_hits_the_recursion_guard() {
    let mut machine = Machine::new();
    let (vals, rest) = parse("(loop) (loop)s (loop)$");
    assert_eq!(rest, "");
    let mut result = Ok(Flow::Continue);
    for v in vals {
        result = machine.process(v);
        if result.is_err() {
            break;
        }
    }
    assert_eq!(result, Err(EvalError::RecursionLimit));
}

#[test]
fn render_shows_values() {
    assert_eq!(num(2.5).render(), "2.5");
    assert_eq!(num(-3.0).render(), "-3");
    assert_eq!(V::Operator(BinOp::Add).render(), "+");
    assert_eq!(V::Identifier(String::from("avg")).render(), "avg");
    assert_eq!(
        V::FunctionRef(Box::new(V::Operator(BinOp::Add)), vec![num(2.0)]).render(),
        "2 +"
    );
    assert_eq!(
        V::Composed(Box::new(V::Store), Box::new(V::Load)).render(),
        "(s, l)"
    );
}

#[test]
fn print_all_renders_the_stack() {
    let machine = eval("2 3 f");
    assert_eq!(machine.output, vec![String::from("[2, 3]")]);
}
