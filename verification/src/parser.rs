//! The lexer/parser: one line of text in, an ordered sequence of
//! instructions out.
//!
//! The grammar is pinned down by the specification functions below
//! ([`parse_line`], [`token_step`]); the executable [`parse`] is proven to
//! compute exactly what they describe.  Alternatives are tried in order and
//! the first match wins:
//!
//! 1. a number literal (optional leading `-`, digits with at most one `.`,
//!    and at least one digit; a leading `+` is never part of a number);
//! 2. `\` followed by one operator character: a deferred function reference;
//! 3. a bare operator character, executing immediately — unless a
//!    function-literal block is open, in which case only curry and compose
//!    stay eager;
//! 4. `(` alphanumeric run `)`: an identifier;
//! 5. inside an open block, an operator character as its deferred reference,
//!    chained with compose from the third one on;
//! 6. `}` closes a block, appending a final compose when the block produced
//!    at least two references; `{` opens one;
//! 7. `#` starts a comment that swallows the rest of the line.
//!
//! Whitespace between tokens (and after the last one) is insignificant.
//! Inside an open block every number literal is followed by an implicit
//! curry instruction.  An unrecognized character stops the parse; what
//! remains is handed back as the unconsumed rest.

use vstd::prelude::*;
use crate::value::{V, Val, BinOp, StackOp, models};
use crate::numerics::{bits_of_literal, is_literal_text, literal_bits, literal_digits_around_dot,
    lemma_literal_text};

verus! {

/// Whitespace: space, tab, carriage return, line feed.
pub open spec fn is_space(c: char) -> bool {
    c == ' ' || c == '\t' || c == '\r' || c == '\n'
}

/// An ASCII decimal digit.
pub open spec fn is_digit(c: char) -> bool {
    48 <= c as u32 <= 57
}

/// An ASCII letter or digit.
pub open spec fn is_alnum(c: char) -> bool {
    is_digit(c) || 65 <= c as u32 <= 90 || 97 <= c as u32 <= 122
}

/// Length of the leading whitespace run.
pub open spec fn space_len(s: Seq<char>) -> int
    decreases s.len(),
{
    if s.len() > 0 && is_space(s[0]) {
        1 + space_len(s.skip(1))
    } else {
        0
    }
}

/// Length of the leading digit run.
pub open spec fn digit_len(s: Seq<char>) -> int
    decreases s.len(),
{
    if s.len() > 0 && is_digit(s[0]) {
        1 + digit_len(s.skip(1))
    } else {
        0
    }
}

/// Length of the leading alphanumeric run.
pub open spec fn alnum_len(s: Seq<char>) -> int
    decreases s.len(),
{
    if s.len() > 0 && is_alnum(s[0]) {
        1 + alnum_len(s.skip(1))
    } else {
        0
    }
}

/// The command a bare operator character denotes, if any.
pub open spec fn op_val(c: char) -> Option<Val> {
    if c == '+' {
        Some(Val::Operator(BinOp::Add))
    } else if c == '-' {
        Some(Val::Operator(BinOp::Sub))
    } else if c == '*' {
        Some(Val::Operator(BinOp::Mul))
    } else if c == '/' {
        Some(Val::Operator(BinOp::Div))
    } else if c == '%' {
        Some(Val::Operator(BinOp::Mod))
    } else if c == '<' {
        Some(Val::Operator(BinOp::LessThan))
    } else if c == '>' {
        Some(Val::Operator(BinOp::GreaterThan))
    } else if c == '=' {
        Some(Val::Operator(BinOp::Equal))
    } else if c == '?' {
        Some(Val::Conditional)
    } else if c == 's' {
        Some(Val::Store)
    } else if c == 'l' {
        Some(Val::Load)
    } else if c == 'r' {
        Some(Val::Repeat)
    } else if c == '$' {
        Some(Val::Apply)
    } else if c == '@' {
        Some(Val::Curry)
    } else if c == '|' {
        Some(Val::Compose)
    } else if c == 'p' {
        Some(Val::StackOp(StackOp::Print))
    } else if c == 'f' {
        Some(Val::StackOp(StackOp::PrintAll))
    } else if c == 'c' {
        Some(Val::StackOp(StackOp::Clear))
    } else if c == 'q' {
        Some(Val::StackOp(StackOp::Quit))
    } else if c == 'S' {
        Some(Val::StackOp(StackOp::StackSize))
    } else {
        None
    }
}

/// How many characters the number literal at the head of `t` spans, if one
/// starts there: an optional `-`, a digit run, optionally a dot and a second
/// digit run, at least one digit in all.
pub open spec fn number_len(t: Seq<char>) -> Option<int> {
    let neg: int = if t.len() > 0 && t[0] == '-' {
        1int
    } else {
        0int
    };
    let d1 = digit_len(t.skip(neg));
    let p = neg + d1;
    if p < t.len() && t[p] == '.' {
        let d2 = digit_len(t.skip(p + 1));
        if d1 + d2 > 0 {
            Some(p + 1 + d2)
        } else {
            None
        }
    } else {
        if d1 > 0 {
            Some(p)
        } else {
            None
        }
    }
}

/// What one token does: the instructions it emits, how many characters it
/// consumes, and the lexer state it leaves (function-literal mode, and the
/// count of references the open block has produced).
pub struct TokenOut {
    pub emitted: Seq<Val>,
    pub consumed: int,
    pub mode: bool,
    pub count: nat,
}

/// Reads one token at the head of the (nonempty, whitespace-free) input.
pub open spec fn token_step(t: Seq<char>, mode: bool, count: nat) -> Option<TokenOut> {
    if number_len(t) is Some {
        let len = number_len(t)->0;
        let num = Val::Number(bits_of_literal(t.take(len)));
        Some(
            TokenOut {
                emitted: if mode {
                    seq![num, Val::Curry]
                } else {
                    seq![num]
                },
                consumed: len,
                mode,
                count,
            },
        )
    } else if t[0] == '\\' && t.len() >= 2 && op_val(t[1]) is Some {
        Some(
            TokenOut {
                emitted: seq![
                    Val::FunctionRef(Box::new(op_val(t[1])->0), Seq::empty()),
                ],
                consumed: 2,
                mode,
                count,
            },
        )
    } else if op_val(t[0]) is Some && (!mode || op_val(t[0])->0 == Val::Curry || op_val(t[0])->0
        == Val::Compose) {
        Some(TokenOut { emitted: seq![op_val(t[0])->0], consumed: 1, mode, count })
    } else if t[0] == '(' && alnum_len(t.skip(1)) >= 1 && 1 + alnum_len(t.skip(1)) < t.len() && t[1
        + alnum_len(t.skip(1))] == ')' {
        let k = alnum_len(t.skip(1));
        Some(
            TokenOut {
                emitted: seq![Val::Identifier(t.subrange(1, 1 + k))],
                consumed: k + 2,
                mode,
                count,
            },
        )
    } else if mode && op_val(t[0]) is Some {
        let f = Val::FunctionRef(Box::new(op_val(t[0])->0), Seq::empty());
        Some(
            TokenOut {
                emitted: if count >= 2 {
                    seq![Val::Compose, f]
                } else {
                    seq![f]
                },
                consumed: 1,
                mode,
                count: count + 1,
            },
        )
    } else if t[0] == '}' {
        Some(
            TokenOut {
                emitted: if count >= 2 {
                    seq![Val::Compose]
                } else {
                    Seq::empty()
                },
                consumed: 1,
                mode: false,
                count,
            },
        )
    } else if t[0] == '{' {
        Some(TokenOut { emitted: Seq::empty(), consumed: 1, mode: true, count: 0 })
    } else if t[0] == '#' {
        Some(TokenOut { emitted: Seq::empty(), consumed: t.len() as int, mode, count })
    } else {
        None
    }
}

/// A token consumes at least one character and never more than there are.
pub proof fn lemma_token_step_bounds(t: Seq<char>, mode: bool, count: nat)
    requires
        t.len() > 0,
    ensures
        match token_step(t, mode, count) {
            Some(st) => 1 <= st.consumed <= t.len(),
            None => true,
        },
{
    lemma_digit_len_bounds(t.skip(if t.len() > 0 && t[0] == '-' {
        1int
    } else {
        0int
    }));
    if number_len(t) is Some {
        let neg: int = if t[0] == '-' {
            1int
        } else {
            0int
        };
        let d1 = digit_len(t.skip(neg));
        let p = neg + d1;
        if p < t.len() && t[p] == '.' {
            lemma_digit_len_bounds(t.skip(p + 1));
        }
    }
    lemma_alnum_len_bounds(t.skip(1));
}

/// A digit run lies within its sequence.
pub proof fn lemma_digit_len_bounds(s: Seq<char>)
    ensures
        0 <= digit_len(s) <= s.len(),
    decreases s.len(),
{
    if s.len() > 0 && is_digit(s[0]) {
        lemma_digit_len_bounds(s.skip(1));
    }
}

/// An alphanumeric run lies within its sequence.
pub proof fn lemma_alnum_len_bounds(s: Seq<char>)
    ensures
        0 <= alnum_len(s) <= s.len(),
    decreases s.len(),
{
    if s.len() > 0 && is_alnum(s[0]) {
        lemma_alnum_len_bounds(s.skip(1));
    }
}

/// A whitespace run lies within its sequence.
pub proof fn lemma_space_len_bounds(s: Seq<char>)
    ensures
        0 <= space_len(s) <= s.len(),
    decreases s.len(),
{
    if s.len() > 0 && is_space(s[0]) {
        lemma_space_len_bounds(s.skip(1));
    }
}

/// Parses from the given lexer state: the instructions of every token the
/// grammar recognizes, and the unconsumed rest (empty when the whole line,
/// trailing whitespace included, was recognized).
pub open spec fn parse_loop(s: Seq<char>, mode: bool, count: nat) -> (Seq<Val>, Seq<char>)
    decreases s.len(),
{
    let w = space_len(s);
    let t = s.skip(w);
    if t.len() == 0 {
        (Seq::empty(), Seq::empty())
    } else {
        proof {
            lemma_space_len_bounds(s);
            lemma_token_step_bounds(t, mode, count);
        }
        match token_step(t, mode, count) {
            Some(st) => {
                let rest = parse_loop(t.skip(st.consumed), st.mode, st.count);
                (st.emitted + rest.0, rest.1)
            },
            None => (Seq::empty(), t),
        }
    }
}

/// A whole input line, parsed from the initial lexer state.
pub open spec fn parse_line(s: Seq<char>) -> (Seq<Val>, Seq<char>) {
    parse_loop(s, false, 0)
}

/// A run-length characterisation: if the first `k` characters satisfy the
/// class and the next one (if any) does not, the run length is `k`.
proof fn lemma_space_len_is(s: Seq<char>, k: int)
    requires
        0 <= k <= s.len(),
        forall|j: int| 0 <= j < k ==> is_space(#[trigger] s[j]),
        k < s.len() ==> !is_space(s[k]),
    ensures
        space_len(s) == k,
    decreases k,
{
    if k == 0 {
    } else {
        lemma_space_len_is(s.skip(1), k - 1);
    }
}

proof fn lemma_digit_len_is(s: Seq<char>, k: int)
    requires
        0 <= k <= s.len(),
        forall|j: int| 0 <= j < k ==> is_digit(#[trigger] s[j]),
        k < s.len() ==> !is_digit(s[k]),
    ensures
        digit_len(s) == k,
    decreases k,
{
    if k == 0 {
    } else {
        lemma_digit_len_is(s.skip(1), k - 1);
    }
}

proof fn lemma_alnum_len_is(s: Seq<char>, k: int)
    requires
        0 <= k <= s.len(),
        forall|j: int| 0 <= j < k ==> is_alnum(#[trigger] s[j]),
        k < s.len() ==> !is_alnum(s[k]),
    ensures
        alnum_len(s) == k,
    decreases k,
{
    if k == 0 {
    } else {
        lemma_alnum_len_is(s.skip(1), k - 1);
    }
}

/// Scans the whitespace run starting at `from`.
fn space_span(input: &str, from: usize) -> (j: usize)
    requires
        from <= input@.len(),
    ensures
        from <= j <= input@.len(),
        space_len(input@.skip(from as int)) == j - from,
{
    let n = input.unicode_len();
    let mut j = from;
    while j < n
        invariant
            from <= j <= n,
            n == input@.len(),
            forall|k: int| from <= k < j ==> is_space(#[trigger] input@[k]),
        ensures
            from <= j <= n,
            forall|k: int| from <= k < j ==> is_space(#[trigger] input@[k]),
            j < n ==> !is_space(input@[j as int]),
        decreases n - j,
    {
        let c = input.get_char(j);
        if !(c == ' ' || c == '\t' || c == '\r' || c == '\n') {
            break ;
        }
        j = j + 1;
    }
    proof {
        assert forall|k: int| 0 <= k < j - from implies is_space(
            #[trigger] input@.skip(from as int)[k],
        ) by {
            assert(input@.skip(from as int)[k] == input@[from + k]);
        }
        if j < input@.len() {
            assert(input@.skip(from as int)[j - from] == input@[j as int]);
        }
        lemma_space_len_is(input@.skip(from as int), j - from);
    }
    j
}

/// Scans the digit run starting at `from`.
fn digit_span(input: &str, from: usize) -> (j: usize)
    requires
        from <= input@.len(),
    ensures
        from <= j <= input@.len(),
        digit_len(input@.skip(from as int)) == j - from,
        forall|k: int| from <= k < j ==> is_digit(#[trigger] input@[k]),
{
    let n = input.unicode_len();
    let mut j = from;
    while j < n
        invariant
            from <= j <= n,
            n == input@.len(),
            forall|k: int| from <= k < j ==> is_digit(#[trigger] input@[k]),
        ensures
            from <= j <= n,
            forall|k: int| from <= k < j ==> is_digit(#[trigger] input@[k]),
            j < n ==> !is_digit(input@[j as int]),
        decreases n - j,
    {
        let c = input.get_char(j);
        if !(c as u32 >= 48 && c as u32 <= 57) {
            break ;
        }
        j = j + 1;
    }
    proof {
        assert forall|k: int| 0 <= k < j - from implies is_digit(
            #[trigger] input@.skip(from as int)[k],
        ) by {
            assert(input@.skip(from as int)[k] == input@[from + k]);
        }
        if j < input@.len() {
            assert(input@.skip(from as int)[j - from] == input@[j as int]);
        }
        lemma_digit_len_is(input@.skip(from as int), j - from);
    }
    j
}

/// Scans the alphanumeric run starting at `from`.
fn alnum_span(input: &str, from: usize) -> (j: usize)
    requires
        from <= input@.len(),
    ensures
        from <= j <= input@.len(),
        alnum_len(input@.skip(from as int)) == j - from,
{
    let n = input.unicode_len();
    let mut j = from;
    while j < n
        invariant
            from <= j <= n,
            n == input@.len(),
            forall|k: int| from <= k < j ==> is_alnum(#[trigger] input@[k]),
        ensures
            from <= j <= n,
            forall|k: int| from <= k < j ==> is_alnum(#[trigger] input@[k]),
            j < n ==> !is_alnum(input@[j as int]),
        decreases n - j,
    {
        let c = input.get_char(j);
        let u = c as u32;
        if !((u >= 48 && u <= 57) || (u >= 65 && u <= 90) || (u >= 97 && u <= 122)) {
            break ;
        }
        j = j + 1;
    }
    proof {
        assert forall|k: int| 0 <= k < j - from implies is_alnum(
            #[trigger] input@.skip(from as int)[k],
        ) by {
            assert(input@.skip(from as int)[k] == input@[from + k]);
        }
        if j < input@.len() {
            assert(input@.skip(from as int)[j - from] == input@[j as int]);
        }
        lemma_alnum_len_is(input@.skip(from as int), j - from);
    }
    j
}

/// The executable form of [`op_val`].
fn op_char(c: char) -> (r: Option<V>)
    ensures
        match r {
            Some(v) => op_val(c) == Some(v@),
            None => op_val(c) is None,
        },
{
    match c {
        '+' => Some(V::Operator(BinOp::Add)),
        '-' => Some(V::Operator(BinOp::Sub)),
        '*' => Some(V::Operator(BinOp::Mul)),
        '/' => Some(V::Operator(BinOp::Div)),
        '%' => Some(V::Operator(BinOp::Mod)),
        '<' => Some(V::Operator(BinOp::LessThan)),
        '>' => Some(V::Operator(BinOp::GreaterThan)),
        '=' => Some(V::Operator(BinOp::Equal)),
        '?' => Some(V::Conditional),
        's' => Some(V::Store),
        'l' => Some(V::Load),
        'r' => Some(V::Repeat),
        '$' => Some(V::Apply),
        '@' => Some(V::Curry),
        '|' => Some(V::Compose),
        'p' => Some(V::StackOp(StackOp::Print)),
        'f' => Some(V::StackOp(StackOp::PrintAll)),
        'c' => Some(V::StackOp(StackOp::Clear)),
        'q' => Some(V::StackOp(StackOp::Quit)),
        'S' => Some(V::StackOp(StackOp::StackSize)),
        _ => None,
    }
}

/// Finds the number literal starting at `from`, with its character count.
fn number_span(input: &str, from: usize) -> (r: Option<usize>)
    requires
        from < input@.len(),
    ensures
        match r {
            Some(len) => {
                &&& number_len(input@.skip(from as int)) == Some(len as int)
                &&& 1 <= len
                &&& from + len <= input@.len()
                &&& is_literal_text(input@.subrange(from as int, from + len))
            },
            None => number_len(input@.skip(from as int)) is None,
        },
{
    let n = input.unicode_len();
    let ghost t = input@.skip(from as int);
    let c = input.get_char(from);
    proof {
        assert(t[0] == c);
    }
    let neg: usize = if c == '-' {
        1
    } else {
        0
    };
    let ds = from + neg;
    let p = digit_span(input, ds);
    let d1 = p - ds;
    proof {
        assert(t.skip(neg as int) =~= input@.skip(ds as int));
    }
    let r: Option<usize>;
    let ghost dot: bool;
    if p < n && input.get_char(p) == '.' {
        proof {
            dot = true;
            assert(t[(neg + d1) as int] == input@[p as int]);
        }
        let e = digit_span(input, p + 1);
        let d2 = e - (p + 1);
        proof {
            assert(t.skip((neg + d1 + 1) as int) =~= input@.skip((p + 1) as int));
        }
        if d1 + d2 > 0 {
            r = Some(e - from);
        } else {
            r = None;
        }
    } else {
        proof {
            dot = false;
            if p < input@.len() {
                assert(t[(neg + d1) as int] == input@[p as int]);
            }
        }
        if d1 > 0 {
            r = Some(p - from);
        } else {
            r = None;
        }
    }
    proof {
        if r is Some {
            let len = r->0 as int;
            let lit = input@.subrange(from as int, from + len);
            let tt = if lit[0] == '-' {
                lit.skip(1)
            } else {
                lit
            };
            let k: int = d1 as int;
            assert(lit[0] == input@[from as int]);
            assert(tt.len() == len - neg);
            if dot {
                assert(len == neg + d1 + 1 + (len - neg - d1 - 1));
            } else {
                assert(len - neg == d1);
            }
            assert forall|i: int| 0 <= i < tt.len() && i != k implies 48 <= (
            #[trigger] tt[i]) as u32 <= 57 by {
                assert(tt[i] == input@[from + neg + i]);
                if i < k {
                    assert(is_digit(input@[ds + i]));
                } else {
                    assert(is_digit(input@[p + 1 + (i - k - 1)]));
                }
            }
            if k < tt.len() {
                assert(tt[k] == input@[from + neg + k]);
            }
            assert(literal_digits_around_dot(tt, k));
            assert(0 <= k <= tt.len());
            assert(tt == (if lit.len() > 0 && lit[0] == '-' {
                lit.skip(1)
            } else {
                lit
            }));
            lemma_literal_text(lit, k);
        }
    }
    r
}

/// The models of a list grow by the pushed value's model.
proof fn lemma_models_after_push(prev: Seq<V>, now: Seq<V>, x: V)
    requires
        now == prev.push(x),
    ensures
        models(now) == models(prev) + seq![x@],
{
    assert(now.drop_last() =~= prev);
    assert(now.last() == x);
    assert(models(prev).push(x@) =~= models(prev) + seq![x@]);
}

/// Unfolds one parsing step: when the token at the head of the
/// whitespace-stripped input is recognized, the parse is that token's
/// output followed by the parse of what is left.
proof fn lemma_advance(
    input: Seq<char>,
    i: int,
    j: int,
    mode: bool,
    count: nat,
    out0: Seq<Val>,
    out1: Seq<Val>,
    target: (Seq<Val>, Seq<char>),
    i2: int,
    mode2: bool,
    count2: nat,
)
    requires
        0 <= i <= j <= input.len(),
        space_len(input.skip(i)) == j - i,
        input.skip(j).len() > 0,
        token_step(input.skip(j), mode, count) is Some,
        ({
            let st = token_step(input.skip(j), mode, count)->0;
            &&& out1 == out0 + st.emitted
            &&& i2 == j + st.consumed
            &&& mode2 == st.mode
            &&& count2 == st.count
        }),
        target.0 == out0 + parse_loop(input.skip(i), mode, count).0,
        target.1 == parse_loop(input.skip(i), mode, count).1,
    ensures
        i <= i2 <= input.len(),
        target.0 == out1 + parse_loop(input.skip(i2), mode2, count2).0,
        target.1 == parse_loop(input.skip(i2), mode2, count2).1,
{
    let rem = input.skip(i);
    let t = input.skip(j);
    lemma_token_step_bounds(t, mode, count);
    assert(rem.skip(space_len(rem)) =~= t);
    let st = token_step(t, mode, count)->0;
    assert(t.skip(st.consumed) =~= input.skip(i2));
    assert(parse_loop(rem, mode, count).0 == st.emitted + parse_loop(
        input.skip(i2),
        mode2,
        count2,
    ).0);
    assert(out0 + (st.emitted + parse_loop(input.skip(i2), mode2, count2).0) =~= (out0
        + st.emitted) + parse_loop(input.skip(i2), mode2, count2).0);
}

/// Parses one line: the instructions of every recognized token in order,
/// and the unconsumed rest of the line (empty when everything, trailing
/// whitespace included, was recognized).  The caller decides what to do
/// with the instructions already parsed when the rest is not empty.
#[verifier::loop_isolation(false)]
#[verifier::rlimit(80)]
pub fn parse(input: &str) -> (r: (Vec<V>, String))
    ensures
        models(r.0@) == parse_line(input@).0,
        r.1@ == parse_line(input@).1,
{
    let n = input.unicode_len();
    let mut out: Vec<V> = Vec::new();
    let mut i: usize = 0;
    let mut mode: bool = false;
    let mut count: usize = 0;
    proof {
        assert(input@.skip(0) =~= input@);
    }
    loop
        invariant
            i <= n,
            count <= i,
            parse_line(input@).0 == models(out@) + parse_loop(
                input@.skip(i as int),
                mode,
                count as nat,
            ).0,
            parse_line(input@).1 == parse_loop(input@.skip(i as int), mode, count as nat).1,
        decreases n - i,
    {
        let ghost rem = input@.skip(i as int);
        let j = space_span(input, i);
        let ghost t = input@.skip(j as int);
        let ghost target = parse_line(input@);
        proof {
            lemma_space_len_bounds(rem);
            assert(rem.skip(space_len(rem)) =~= t);
        }
        if j == n {
            proof {
                assert(t.len() == 0);
                assert(models(out@) + Seq::<Val>::empty() =~= models(out@));
            }
            return (out, String::new());
        }
        proof {
            lemma_token_step_bounds(t, mode, count as nat);
        }
        let ghost out0 = models(out@);
        let c = input.get_char(j);
        proof {
            assert(t[0] == c);
        }
        // a number literal?
        let isnum = c == '-' || c == '.' || (c as u32 >= 48 && c as u32 <= 57);
        let num = if isnum {
            number_span(input, j)
        } else {
            proof {
                assert(!is_digit(c) && c != '-' && c != '.');
                assert(digit_len(t) == 0);
                assert(number_len(t) is None);
            }
            None
        };
        match num {
            Some(len) => {
                let lit = input.substring_char(j, j + len);
                proof {
                    assert(lit@ =~= t.take(len as int));
                    assert(input@.subrange(j as int, j + len) =~= t.take(len as int));
                }
                let bits = literal_bits(lit);
                let ghost p0 = out@;
                out.push(V::Number(bits));
                if mode {
                    let ghost p1 = out@;
                    out.push(V::Curry);
                    proof {
                        lemma_models_after_push(p0, p1, V::Number(bits));
                        lemma_models_after_push(p1, out@, V::Curry);
                        assert(models(out@) =~= out0 + seq![
                            Val::Number(bits_of_literal(t.take(len as int))),
                            Val::Curry,
                        ]);
                    }
                } else {
                    proof {
                        lemma_models_after_push(p0, out@, V::Number(bits));
                        assert(models(out@) =~= out0 + seq![
                            Val::Number(bits_of_literal(t.take(len as int))),
                        ]);
                    }
                }
                proof {
                    lemma_advance(
                        input@,
                        i as int,
                        j as int,
                        mode,
                        count as nat,
                        out0,
                        models(out@),
                        target,
                        j + len,
                        mode,
                        count as nat,
                    );
                }
                i = j + len;
                continue ;
            },
            None => {},
        }
        if c == '\\' && j + 1 < n {
            let c2 = input.get_char(j + 1);
            proof {
                assert(t[1] == c2);
            }
            match op_char(c2) {
                Some(opv) => {
                    let f = V::FunctionRef(Box::new(opv), Vec::new());
                    let ghost p0 = out@;
                    out.push(f);
                    proof {
                        assert(f@ == Val::FunctionRef(Box::new(op_val(c2)->0), models(
                            Seq::<V>::empty(),
                        )));
                        assert(models(Seq::<V>::empty()) =~= Seq::<Val>::empty());
                        lemma_models_after_push(p0, out@, f);
                        assert(models(out@) =~= out0 + seq![
                            Val::FunctionRef(Box::new(op_val(t[1])->0), Seq::empty()),
                        ]);
                        lemma_advance(
                            input@,
                            i as int,
                            j as int,
                            mode,
                            count as nat,
                            out0,
                            models(out@),
                            target,
                            j + 2,
                            mode,
                            count as nat,
                        );
                    }
                    i = j + 2;
                    continue ;
                },
                None => {},
            }
        }
        // a bare operator, eager unless a block is open
        let mut advanced = false;
        match op_char(c) {
            Some(opv) => {
                let eager = !mode || c == '@' || c == '|';
                proof {
                    assert((op_val(c)->0 == Val::Curry || op_val(c)->0 == Val::Compose) <==> (c
                        == '@' || c == '|'));
                }
                if eager {
                    let ghost p0 = out@;
                    out.push(opv);
                    proof {
                        lemma_models_after_push(p0, out@, opv);
                        assert(models(out@) =~= out0 + seq![op_val(t[0])->0]);
                        lemma_advance(
                            input@,
                            i as int,
                            j as int,
                            mode,
                            count as nat,
                            out0,
                            models(out@),
                            target,
                            j + 1,
                            mode,
                            count as nat,
                        );
                    }
                    i = j + 1;
                    advanced = true;
                }
            },
            None => {},
        }
        if advanced {
            continue ;
        }
        if c == '(' {
            let k = alnum_span(input, j + 1);
            let klen = k - (j + 1);
            proof {
                assert(t.skip(1) =~= input@.skip(j + 1));
            }
            if klen >= 1 && k < n && input.get_char(k) == ')' {
                proof {
                    assert(t[1 + klen] == input@[k as int]);
                }
                let name = input.substring_char(j + 1, k);
                proof {
                    assert(name@ =~= t.subrange(1, 1 + klen));
                }
                let ghost p0 = out@;
                let ident = V::Identifier(name.to_owned());
                out.push(ident);
                proof {
                    lemma_models_after_push(p0, out@, ident);
                    assert(models(out@) =~= out0 + seq![Val::Identifier(t.subrange(1, 1 + klen))]);
                    lemma_advance(
                        input@,
                        i as int,
                        j as int,
                        mode,
                        count as nat,
                        out0,
                        models(out@),
                        target,
                        j + klen + 2,
                        mode,
                        count as nat,
                    );
                }
                i = j + klen + 2;
                continue ;
            }
        }
        // inside a block, an operator becomes a deferred reference
        if mode {
            match op_char(c) {
                Some(opv) => {
                    let f = V::FunctionRef(Box::new(opv), Vec::new());
                    proof {
                        assert(f@ == Val::FunctionRef(Box::new(op_val(c)->0), models(
                            Seq::<V>::empty(),
                        )));
                        assert(models(Seq::<V>::empty()) =~= Seq::<Val>::empty());
                    }
                    if count >= 2 {
                        let ghost p0 = out@;
                        out.push(V::Compose);
                        let ghost p1 = out@;
                        out.push(f);
                        proof {
                            lemma_models_after_push(p0, p1, V::Compose);
                            lemma_models_after_push(p1, out@, f);
                            assert(models(out@) =~= out0 + seq![
                                Val::Compose,
                                Val::FunctionRef(Box::new(op_val(t[0])->0), Seq::empty()),
                            ]);
                        }
                    } else {
                        let ghost p0 = out@;
                        out.push(f);
                        proof {
                            lemma_models_after_push(p0, out@, f);
                            assert(models(out@) =~= out0 + seq![
                                Val::FunctionRef(Box::new(op_val(t[0])->0), Seq::empty()),
                            ]);
                        }
                    }
                    proof {
                        lemma_advance(
                            input@,
                            i as int,
                            j as int,
                            mode,
                            count as nat,
                            out0,
                            models(out@),
                            target,
                            j + 1,
                            mode,
                            (count + 1) as nat,
                        );
                    }
                    count = count + 1;
                    i = j + 1;
                    continue ;
                },
                None => {},
            }
        }
        if c == '}' {
            if count >= 2 {
                let ghost p0 = out@;
                out.push(V::Compose);
                proof {
                    lemma_models_after_push(p0, out@, V::Compose);
                    assert(models(out@) =~= out0 + seq![Val::Compose]);
                }
            } else {
                proof {
                    assert(models(out@) =~= out0 + Seq::<Val>::empty());
                }
            }
            proof {
                lemma_advance(
                    input@,
                    i as int,
                    j as int,
                    mode,
                    count as nat,
                    out0,
                    models(out@),
                    target,
                    j + 1,
                    false,
                    count as nat,
                );
            }
            mode = false;
            i = j + 1;
            continue ;
        }
        if c == '{' {
            proof {
                assert(models(out@) =~= out0 + Seq::<Val>::empty());
                lemma_advance(
                    input@,
                    i as int,
                    j as int,
                    mode,
                    count as nat,
                    out0,
                    models(out@),
                    target,
                    j + 1,
                    true,
                    0,
                );
            }
            mode = true;
            count = 0;
            i = j + 1;
            continue ;
        }
        if c == '#' {
            proof {
                assert(models(out@) =~= out0 + Seq::<Val>::empty());
                lemma_advance(
                    input@,
                    i as int,
                    j as int,
                    mode,
                    count as nat,
                    out0,
                    models(out@),
                    target,
                    n as int,
                    mode,
                    count as nat,
                );
            }
            i = n;
            continue ;
        }
        // nothing matched: hand back the rest
        let rest = input.substring_char(j, n);
        proof {
            assert(rest@ =~= t);
            assert(token_step(t, mode, count as nat) is None);
            assert(models(out@) + Seq::<Val>::empty() =~= models(out@));
        }
        return (out, rest.to_owned());
    }
}

} // verus!
