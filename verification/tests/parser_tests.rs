use rpncalc::parser::parse;
use rpncalc::value::{BinOp, StackOp, V};

fn num(x: f64) -> V {
    V::Number(x.to_bits())
}

fn fun(op: V) -> V {
    V::FunctionRef(Box::new(op), vec![])
}

fn assert_parses_as(s: &str, expected: Vec<V>) {
    let (vals, rest) = parse(s);
    assert_eq!(rest, "");
    assert_eq!(vals, expected);
}

#[test]
fn parse_comment() {
    assert_parses_as(
        "1 2+#gibberish",
        vec![num(1.0), num(2.0), V::Operator(BinOp::Add)],
    );
    assert_parses_as(
        "1 2+      #--#+234     more  gibberish",
        vec![num(1.0), num(2.0), V::Operator(BinOp::Add)],
    );
}

#[test]
fn parse_expression() {
    assert_parses_as(
        "1 2+3-",
        vec![
            num(1.0),
            num(2.0),
            V::Operator(BinOp::Add),
            num(3.0),
            V::Operator(BinOp::Sub),
        ],
    );
    assert_parses_as(
        "1 1-2--3",
        vec![
            num(1.0),
            num(1.0),
            num(-2.0),
            V::Operator(BinOp::Sub),
            num(-3.0),
        ],
    );
    assert_parses_as(".5.5", vec![num(0.5), num(0.5)]);
    assert_parses_as(
        "4 4 +4",
        vec![num(4.0), num(4.0), V::Operator(BinOp::Add), num(4.0)],
    );
    let operators = format!("{}{}{}{}", "fcqS", "p$", "+-*/%slr<>=|@", "?");
    assert_parses_as(
        &operators,
        vec![
            V::StackOp(StackOp::PrintAll),
            V::StackOp(StackOp::Clear),
            V::StackOp(StackOp::Quit),
            V::StackOp(StackOp::StackSize),
            V::StackOp(StackOp::Print),
            V::Apply,
            V::Operator(BinOp::Add),
            V::Operator(BinOp::Sub),
            V::Operator(BinOp::Mul),
            V::Operator(BinOp::Div),
            V::Operator(BinOp::Mod),
            V::Store,
            V::Load,
            V::Repeat,
            V::Operator(BinOp::LessThan),
            V::Operator(BinOp::GreaterThan),
            V::Operator(BinOp::Equal),
            V::Compose,
            V::Curry,
            V::Conditional,
        ],
    );
}

#[test]
fn parse_identifiers() {
    assert_parses_as(
        "(asd)(sdf2)",
        vec![
            V::Identifier(String::from("asd")),
            V::Identifier(String::from("sdf2")),
        ],
    );
}

#[test]
fn partial_parsing() {
    assert_parses_as(
        "\\++",
        vec![fun(V::Operator(BinOp::Add)), V::Operator(BinOp::Add)],
    );
    assert_parses_as("\\-", vec![fun(V::Operator(BinOp::Sub))]);
}

#[test]
fn function_mode() {
    assert_parses_as("{*2", vec![fun(V::Operator(BinOp::Mul)), num(2.0), V::Curry]);
    assert_parses_as("{+2}", vec![fun(V::Operator(BinOp::Add)), num(2.0), V::Curry]);
    assert_parses_as(
        "{?+@-@}",
        vec![
            fun(V::Conditional),
            fun(V::Operator(BinOp::Add)),
            V::Curry,
            V::Compose,
            fun(V::Operator(BinOp::Sub)),
            V::Curry,
            V::Compose,
        ],
    );
}

#[test]
fn float_literal_forms() {
    assert_parses_as("1", vec![num(1.0)]);
    assert_parses_as("1.0", vec![num(1.0)]);
    assert_parses_as("1.", vec![num(1.0)]);
    assert_parses_as("01.00", vec![num(1.0)]);
    assert_parses_as(".5", vec![num(0.5)]);
    assert_parses_as("0.5", vec![num(0.5)]);
    assert_parses_as("-3.25", vec![num(-3.25)]);
}

#[test]
fn rejects_unrecognized_input() {
    let (vals, rest) = parse("abc");
    assert!(vals.is_empty());
    assert_eq!(rest, "abc");

    let (vals, rest) = parse("1 2+ &nope");
    assert_eq!(
        vals,
        vec![num(1.0), num(2.0), V::Operator(BinOp::Add)]
    );
    assert_eq!(rest, "&nope");

    // a lone dot is not a number
    let (vals, rest) = parse(".");
    assert!(vals.is_empty());
    assert_eq!(rest, ".");
}

#[test]
fn trailing_whitespace_is_consumed() {
    let (vals, rest) = parse("1 2+   ");
    assert_eq!(vals, vec![num(1.0), num(2.0), V::Operator(BinOp::Add)]);
    assert_eq!(rest, "");
}

#[test]
fn plus_is_never_part_of_a_number() {
    let (vals, rest) = parse("+5");
    assert_eq!(vals, vec![V::Operator(BinOp::Add), num(5.0)]);
    assert_eq!(rest, "");
}
