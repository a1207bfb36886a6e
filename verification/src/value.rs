//! The tagged-union value type that flows through the stack, the registers
//! and the name table, together with its mathematical model.
//!
//! `V` is the executable type; `Val` is its view, with `Seq` in place of
//! `Vec` and `Seq<char>` in place of `String`, so that contracts can state
//! structural equality extensionally.

use vstd::prelude::*;
use crate::numerics::rendered_of;

verus! {

/// A binary arithmetic or comparison primitive; arity 2.
#[derive(Clone, Copy, Debug, PartialEq, Eq, Structural)]
pub enum BinOp {
    Add,
    Sub,
    Mul,
    Div,
    Mod,
    LessThan,
    GreaterThan,
    Equal,
}

/// An arity-0 stack primitive with a side effect.
#[derive(Clone, Copy, Debug, PartialEq, Eq, Structural)]
pub enum StackOp {
    Print,
    PrintAll,
    Clear,
    Quit,
    StackSize,
}

/// The single recursive sum type of the language: both the instructions the
/// parser emits and the data values the machine stacks and stores.
///
/// A `Number` holds the IEEE-754 bit pattern of a double.  A `FunctionRef`
/// holds a deferred inner value together with the ordered list of arguments
/// bound into it so far; its bound count never exceeds the arity of a
/// primitive inner value (see [`curry_arity`]).  A `Composed` applies its
/// first part and then its second, both under force semantics.
#[derive(Debug, PartialEq)]
pub enum V {
    Number(u64),
    Operator(BinOp),
    Conditional,
    StackOp(StackOp),
    Store,
    Load,
    Repeat,
    Apply,
    Curry,
    Compose,
    FunctionRef(Box<V>, Vec<V>),
    Composed(Box<V>, Box<V>),
    Identifier(String),
}

/// The mathematical model of a [`V`] value.
pub enum Val {
    Number(u64),
    Operator(BinOp),
    Conditional,
    StackOp(StackOp),
    Store,
    Load,
    Repeat,
    Apply,
    Curry,
    Compose,
    FunctionRef(Box<Val>, Seq<Val>),
    Composed(Box<Val>, Box<Val>),
    Identifier(Seq<char>),
}

impl V {
    /// The mathematical model of this value.
    pub open spec fn model(&self) -> Val
        decreases self,
    {
        match self {
            V::Number(b) => Val::Number(*b),
            V::Operator(op) => Val::Operator(*op),
            V::Conditional => Val::Conditional,
            V::StackOp(so) => Val::StackOp(*so),
            V::Store => Val::Store,
            V::Load => Val::Load,
            V::Repeat => Val::Repeat,
            V::Apply => Val::Apply,
            V::Curry => Val::Curry,
            V::Compose => Val::Compose,
            V::FunctionRef(inner, bound) => {
                proof {
                    assert(decreases_to!(self => *bound));
                    assert(decreases_to!(*bound => bound@));
                }
                Val::FunctionRef(Box::new(inner.model()), models(bound@))
            },
            V::Composed(a, b) => Val::Composed(Box::new(a.model()), Box::new(b.model())),
            V::Identifier(s) => Val::Identifier(s@),
        }
    }
}

/// The models of a sequence of values, element by element.
pub open spec fn models(s: Seq<V>) -> Seq<Val>
    decreases s,
{
    if s.len() == 0 {
        Seq::empty()
    } else {
        models(s.drop_last()).push(s.last().model())
    }
}

pub broadcast proof fn lemma_models_len(s: Seq<V>)
    ensures
        (#[trigger] models(s)).len() == s.len(),
    decreases s,
{
    if s.len() != 0 {
        lemma_models_len(s.drop_last());
    }
}

pub broadcast proof fn lemma_models_index(s: Seq<V>, i: int)
    requires
        0 <= i < s.len(),
    ensures
        #[trigger] models(s)[i] == s[i].model(),
    decreases s,
{
    lemma_models_len(s);
    if i < s.len() - 1 {
        lemma_models_index(s.drop_last(), i);
    }
}

impl View for V {
    type V = Val;

    open spec fn view(&self) -> Val {
        self.model()
    }
}

impl DeepView for V {
    type V = Val;

    open spec fn deep_view(&self) -> Val {
        self.model()
    }
}

/// How many arguments may be curried into a function reference around
/// `inner`: the arity of a primitive, and no bound at all (`None`) for the
/// function-like values (a reference, a composition, an identifier).
///
/// The arities follow the data model: operators take 2 operands, the
/// conditional 3, the stack primitives 0, store 2, load 1, repeat 2, apply 1,
/// curry 2 and compose 2.  A number is no function; giving it arity 0 makes
/// every attempt to curry into it fail.
pub open spec fn curry_arity(inner: Val) -> Option<nat> {
    match inner {
        Val::Operator(_) => Some(2nat),
        Val::Conditional => Some(3nat),
        Val::StackOp(_) => Some(0nat),
        Val::Store => Some(2nat),
        Val::Load => Some(1nat),
        Val::Repeat => Some(2nat),
        Val::Apply => Some(1nat),
        Val::Curry => Some(2nat),
        Val::Compose => Some(2nat),
        Val::Number(_) => Some(0nat),
        Val::FunctionRef(_, _) => None,
        Val::Composed(_, _) => None,
        Val::Identifier(_) => None,
    }
}

/// Whether a function reference around `inner` with `bound` arguments bound
/// already has a free slot for one more.
pub open spec fn has_free_slot(inner: Val, bound: nat) -> bool {
    match curry_arity(inner) {
        Some(n) => bound < n,
        None => true,
    }
}

/// The structural invariant of a value: everywhere inside it, a function
/// reference around a primitive holds at most that primitive's arity of
/// bound arguments.  Parsing only produces references with no bound
/// arguments, and the machine preserves this shape (see the laws).
pub open spec fn wf_val(v: Val) -> bool
    decreases v,
{
    match v {
        Val::FunctionRef(inner, bound) => {
            &&& (curry_arity(*inner) matches Some(n) ==> bound.len() <= n)
            &&& wf_val(*inner)
            &&& wf_vals(bound)
        },
        Val::Composed(a, b) => wf_val(*a) && wf_val(*b),
        _ => true,
    }
}

/// Every value of the sequence is well formed.
pub open spec fn wf_vals(s: Seq<Val>) -> bool
    decreases s,
{
    s.len() == 0 || (wf_vals(s.drop_last()) && wf_val(s.last()))
}

pub broadcast proof fn lemma_wf_vals_index(s: Seq<Val>, i: int)
    requires
        wf_vals(s),
        0 <= i < s.len(),
    ensures
        wf_val(#[trigger] s[i]),
    decreases s,
{
    if i < s.len() - 1 {
        lemma_wf_vals_index(s.drop_last(), i);
    }
}

pub broadcast proof fn lemma_wf_vals_push(s: Seq<Val>, x: Val)
    requires
        wf_vals(s),
        wf_val(x),
    ensures
        #[trigger] wf_vals(s.push(x)),
{
    assert(s.push(x).drop_last() =~= s);
    assert(s.push(x).last() == x);
}

pub broadcast proof fn lemma_wf_vals_concat(s: Seq<Val>, t: Seq<Val>)
    requires
        wf_vals(s),
        wf_vals(t),
    ensures
        #[trigger] wf_vals(s + t),
    decreases t.len(),
{
    if t.len() == 0 {
        assert(s + t =~= s);
    } else {
        lemma_wf_vals_concat(s, t.drop_last());
        assert((s + t).drop_last() =~= s + t.drop_last());
        assert((s + t).last() == t.last());
    }
}

/// Whether one more argument can be curried into a reference around `inner`
/// that holds `bound` arguments already.
pub(crate) fn can_take_argument(inner: &V, bound: usize) -> (r: bool)
    ensures
        r == has_free_slot(inner@, bound as nat),
{
    match inner {
        V::Operator(_) => bound < 2,
        V::Conditional => bound < 3,
        V::StackOp(_) => false,
        V::Store => bound < 2,
        V::Load => bound < 1,
        V::Repeat => bound < 2,
        V::Apply => bound < 1,
        V::Curry => bound < 2,
        V::Compose => bound < 2,
        V::Number(_) => false,
        V::FunctionRef(_, _) => true,
        V::Composed(_, _) => true,
        V::Identifier(_) => true,
    }
}

/// An exact deep copy; the machine duplicates a value when an instruction
/// reads it without consuming it (a load, a lookup, a repeat).
impl V {
    #[verifier::loop_isolation(false)]
    pub fn duplicate(&self) -> (r: V)
        ensures
            r@ == self@,
        decreases self,
    {
        match self {
            V::Number(b) => V::Number(*b),
            V::Operator(op) => V::Operator(*op),
            V::Conditional => V::Conditional,
            V::StackOp(so) => V::StackOp(*so),
            V::Store => V::Store,
            V::Load => V::Load,
            V::Repeat => V::Repeat,
            V::Apply => V::Apply,
            V::Curry => V::Curry,
            V::Compose => V::Compose,
            V::FunctionRef(inner, bound) => {
                let mut args: Vec<V> = Vec::new();
                let mut i: usize = 0;
                while i < bound.len()
                    invariant
                        i <= bound.len(),
                        args@.len() == i,
                        forall|j: int| 0 <= j < i ==> args@[j].model() == bound@[j].model(),
                    decreases bound.len() - i,
                {
                    proof {
                        assert(decreases_to!(self => *bound));
                        assert(decreases_to!(*bound => bound@));
                        assert(decreases_to!(bound@ => bound@[i as int]));
                    }
                    args.push(bound[i].duplicate());
                    i = i + 1;
                }
                let r = V::FunctionRef(Box::new(inner.duplicate()), args);
                proof {
                    broadcast use lemma_models_len, lemma_models_index;

                    assert(models(args@) =~= models(bound@));
                }
                r
            },
            V::Composed(a, b) => V::Composed(Box::new(a.duplicate()), Box::new(b.duplicate())),
            V::Identifier(s) => V::Identifier(String::from_str(s.as_str())),
        }
    }
}

/// The rendering of a value, as the machine prints it: operators as their
/// source characters, commands as words, a function reference as its bound
/// arguments in binding order followed by its inner value, a composition as
/// a parenthesised pair, and a number as its decimal text.
pub open spec fn render_val(v: Val) -> Seq<char>
    decreases v, 1int,
{
    match v {
        Val::Number(b) => rendered_of(b),
        Val::Operator(op) => match op {
            BinOp::Add => "+"@,
            BinOp::Sub => "-"@,
            BinOp::Mul => "*"@,
            BinOp::Div => "/"@,
            BinOp::Mod => "%"@,
            BinOp::LessThan => "<"@,
            BinOp::GreaterThan => ">"@,
            BinOp::Equal => "="@,
        },
        Val::Conditional => "?"@,
        Val::StackOp(so) => match so {
            StackOp::Print => "Print"@,
            StackOp::PrintAll => "PrintAll"@,
            StackOp::Clear => "Clear"@,
            StackOp::Quit => "Quit"@,
            StackOp::StackSize => "StackSize"@,
        },
        Val::Store => "s"@,
        Val::Load => "l"@,
        Val::Repeat => "Repeat"@,
        Val::Apply => "$"@,
        Val::Curry => "Curry"@,
        Val::Compose => "Compose"@,
        Val::FunctionRef(inner, bound) => render_bound(bound) + render_val(*inner),
        Val::Composed(a, b) => "("@ + render_val(*a) + ", "@ + render_val(*b) + ")"@,
        Val::Identifier(s) => s,
    }
}

/// The renderings of bound arguments, each followed by a space.
pub open spec fn render_bound(s: Seq<Val>) -> Seq<char>
    decreases s, 0int,
{
    if s.len() == 0 {
        Seq::empty()
    } else {
        render_val(s[0]) + " "@ + render_bound(s.skip(1))
    }
}

impl V {
    /// Builds the rendering of this value.
    #[verifier::loop_isolation(false)]
    pub fn render(&self) -> (r: String)
        ensures
            r@ == render_val(self@),
        decreases self,
    {
        match self {
            V::Number(b) => crate::numerics::number_text(*b),
            V::Operator(op) => match op {
                BinOp::Add => str_owned("+"),
                BinOp::Sub => str_owned("-"),
                BinOp::Mul => str_owned("*"),
                BinOp::Div => str_owned("/"),
                BinOp::Mod => str_owned("%"),
                BinOp::LessThan => str_owned("<"),
                BinOp::GreaterThan => str_owned(">"),
                BinOp::Equal => str_owned("="),
            },
            V::Conditional => str_owned("?"),
            V::StackOp(so) => match so {
                StackOp::Print => str_owned("Print"),
                StackOp::PrintAll => str_owned("PrintAll"),
                StackOp::Clear => str_owned("Clear"),
                StackOp::Quit => str_owned("Quit"),
                StackOp::StackSize => str_owned("StackSize"),
            },
            V::Store => str_owned("s"),
            V::Load => str_owned("l"),
            V::Repeat => str_owned("Repeat"),
            V::Apply => str_owned("$"),
            V::Curry => str_owned("Curry"),
            V::Compose => str_owned("Compose"),
            V::FunctionRef(inner, bound) => {
                let mut r = String::new();
                let mut i: usize = 0;
                while i < bound.len()
                    invariant
                        i <= bound.len(),
                        r@ == render_bound_prefix(models(bound@), i as int),
                    decreases bound.len() - i,
                {
                    proof {
                        assert(decreases_to!(self => *bound));
                        assert(decreases_to!(*bound => bound@));
                        assert(decreases_to!(bound@ => bound@[i as int]));
                    }
                    let piece = bound[i].render();
                    r.append(piece.as_str());
                    r.append(" ");
                    proof {
                        broadcast use lemma_models_len, lemma_models_index;

                        lemma_render_bound_prefix_step(models(bound@), i as int);
                    }
                    i = i + 1;
                }
                proof {
                    broadcast use lemma_models_len;

                    lemma_render_bound_prefix_full(models(bound@));
                }
                r.append(inner.render().as_str());
                r
            },
            V::Composed(a, b) => {
                let mut r = str_owned("(");
                r.append(a.render().as_str());
                r.append(", ");
                r.append(b.render().as_str());
                r.append(")");
                r
            },
            V::Identifier(s) => String::from_str(s.as_str()),
        }
    }
}

/// The rendering of the first `n` bound arguments.
pub open spec fn render_bound_prefix(s: Seq<Val>, n: int) -> Seq<char>
    decreases n,
{
    if n <= 0 {
        Seq::empty()
    } else {
        render_bound_prefix(s, n - 1) + render_val(s[n - 1]) + " "@
    }
}

proof fn lemma_render_bound_prefix_step(s: Seq<Val>, i: int)
    requires
        0 <= i < s.len(),
    ensures
        render_bound_prefix(s, i + 1) == render_bound_prefix(s, i) + render_val(s[i]) + " "@,
{
}

/// The two ways of accumulating the renderings agree on the whole sequence.
proof fn lemma_render_bound_prefix_full(s: Seq<Val>)
    ensures
        render_bound_prefix(s, s.len() as int) == render_bound(s),
    decreases s.len(),
{
    if s.len() == 0 {
        assert(render_bound_prefix(s, 0) =~= render_bound(s));
    } else {
        lemma_render_bound_agree(s, 0);
        assert(s.skip(0) =~= s);
        assert(render_bound_prefix(s, 0) + render_bound(s) =~= render_bound(s));
    }
}

/// Accumulating from the front (`render_bound` on a suffix) matches
/// accumulating from the back (`render_bound_prefix`).
proof fn lemma_render_bound_agree(s: Seq<Val>, i: int)
    requires
        0 <= i <= s.len(),
    ensures
        render_bound_prefix(s, s.len() as int) == render_bound_prefix(s, i) + render_bound(
            s.skip(i),
        ),
    decreases s.len() - i,
{
    if i == s.len() {
        assert(render_bound(s.skip(i)) =~= Seq::<char>::empty());
        assert(render_bound_prefix(s, i) + Seq::<char>::empty() =~= render_bound_prefix(s, i));
    } else {
        lemma_render_bound_agree(s, i + 1);
        assert(s.skip(i).len() > 0);
        assert(s.skip(i)[0] == s[i]);
        assert(s.skip(i).skip(1) =~= s.skip(i + 1));
        assert(render_bound(s.skip(i)) == render_val(s[i]) + " "@ + render_bound(s.skip(i + 1)));
        assert(render_bound_prefix(s, i + 1) == render_bound_prefix(s, i) + render_val(s[i])
            + " "@);
        assert(render_bound_prefix(s, i) + (render_val(s[i]) + " "@ + render_bound(s.skip(i + 1)))
            =~= (render_bound_prefix(s, i) + render_val(s[i]) + " "@) + render_bound(s.skip(i + 1)));
    }
}

/// An owned copy of a string literal.
fn str_owned(s: &str) -> (r: String)
    ensures
        r@ == s@,
{
    String::from_str(s)
}

} // verus!
