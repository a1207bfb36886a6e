use rpncalc::machine::{Flow, Machine};
use rpncalc::parser::parse;
use rpncalc::stdlib::bootstrap;
use rpncalc::value::V;

/// Runs one line against a machine that holds the bootstrap library, and
/// expects a single numeric result.
fn expect_single_result(raw: &str) -> f64 {
    let mut machine = Machine::new();
    assert!(bootstrap(&mut machine), "the bootstrap library failed to load");
    let (vals, rest) = parse(raw);
    assert_eq!(rest, "", "parsing failed on {raw}");
    for v in vals {
        match machine.process(v) {
            Ok(Flow::Continue) => {}
            other => panic!("processing failed on {raw}: {other:?}"),
        }
    }
    match machine.stack.as_slice() {
        [V::Number(b)] => f64::from_bits(*b),
        s => panic!("stack should be a single value but was {s:?}"),
    }
}

#[test]
fn reduce() {
    assert_eq!(expect_single_result("1 2 3 4 5 6 7 8 \\+ (reduce)$"), 36.0);
}

#[test]
fn average() {
    assert_eq!(expect_single_result("1 2 3 4 5 6 7 8 (avg)$"), 4.5);
    assert_eq!(expect_single_result("1 -1 2 -2 0 0 (avg)$"), 0.0);
}

#[test]
fn minimum() {
    assert_eq!(expect_single_result("2 4 (min)$"), 2.0);
    assert_eq!(expect_single_result("4 2 (min)$"), 2.0);
    assert_eq!(expect_single_result("4 4 (min)$"), 4.0);
    assert_eq!(expect_single_result("2 -2 (min)$"), -2.0);
    assert_eq!(expect_single_result("0 0.00001 (min)$"), 0.0);
}

#[test]
fn maximum() {
    assert_eq!(expect_single_result("2 4 (max)$"), 4.0);
    assert_eq!(expect_single_result("4 2 (max)$"), 4.0);
    assert_eq!(expect_single_result("4 4 (max)$"), 4.0);
    assert_eq!(expect_single_result("2 -2 (max)$"), 2.0);
    assert_eq!(expect_single_result("0 0.00001 (max)$"), 0.00001);
}

#[test]
fn sum() {
    assert_eq!(expect_single_result("1 2 3 4 (sum)$"), 10.0);
}

#[test]
fn bootstrap_leaves_user_registers_untouched() {
    // a library call may scribble on the scratch registers, never on the
    // user's: register 0 keeps its value across an avg invocation
    let mut machine = Machine::new();
    assert!(bootstrap(&mut machine));
    let (vals, rest) = parse("9 0s 1 2 3 4 (avg)$ 0l");
    assert_eq!(rest, "");
    for v in vals {
        assert_eq!(machine.process(v), Ok(Flow::Continue));
    }
    let nums: Vec<f64> = machine
        .stack
        .iter()
        .map(|v| match v {
            V::Number(b) => f64::from_bits(*b),
            other => panic!("unexpected {other:?}"),
        })
        .collect();
    assert_eq!(nums, vec![2.5, 9.0]);
}
