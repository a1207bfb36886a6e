//! The bootstrap library: a fixed list of source lines in the language
//! itself, evaluated once at startup through the same parse-and-process
//! pipeline as user input.  They populate the name table with `min`, `max`,
//! `reduce`, `sum` and `avg`, using the reserved scratch registers (indices
//! at and above `USER_REGISTER_COUNT`) so that invoking a library function
//! never clobbers user register state.
//!
//! A failure here indicates a packaging defect, not a user error: the driver
//! treats a `false` from [`bootstrap`] as fatal.

use vstd::prelude::*;
use crate::machine::{
    Machine, MachineModel, StepRes, run_seq, MAX_DEPTH,
};
use crate::parser::{parse, parse_line};
use crate::value::{models, lemma_models_index, lemma_models_len};

verus! {

/// The five library definitions, in evaluation order.
pub open spec fn stdlib_sources() -> Seq<Seq<char>> {
    seq![
        "{ s256 s257 l257 l256 < l257 l256 ? }(min)s"@,
        "{ s256 s257 l257 l256 > l257 l256 ? }(max)s"@,
        "{ S - 2 r }(reduce)s"@,
        "(reduce)l \\+@  (sum)s"@,
        "\\S \\s 256@ | (sum)l | \\l256@ | \\/ |(avg)s"@,
    ]
}

/// One line, parsed and evaluated: succeeds when the whole line parses and
/// every instruction runs through.
pub open spec fn run_line(m: MachineModel, line: Seq<char>, fuel: nat) -> (bool, MachineModel) {
    let p = parse_line(line);
    if p.1.len() != 0 {
        (false, m)
    } else {
        match run_seq(m, p.0, fuel) {
            StepRes::Next(m2) => (true, m2),
            StepRes::Quit(m2) => (false, m2),
            StepRes::Fail(_, m2) => (false, m2),
        }
    }
}

/// A list of lines, stopping at the first that fails.
pub open spec fn run_lines(m: MachineModel, lines: Seq<Seq<char>>, fuel: nat) -> (
    bool,
    MachineModel,
)
    decreases lines.len(),
{
    if lines.len() == 0 {
        (true, m)
    } else {
        let r = run_line(m, lines[0], fuel);
        if !r.0 {
            r
        } else {
            run_lines(r.1, lines.skip(1), fuel)
        }
    }
}

/// Parses one source line and processes each of its instructions in order,
/// computing exactly what [`run_line`] describes.
#[verifier::loop_isolation(false)]
pub fn run_source(m: &mut Machine, line: &str) -> (ok: bool)
    requires
        old(m).wf(),
    ensures
        final(m).wf(),
        ({
            let r = run_line(old(m)@, line@, MAX_DEPTH as nat);
            ok == r.0 && final(m)@ == r.1
        }),
{
    let (vals, rest) = parse(line);
    if !rest.as_str().is_empty() {
        return false;
    }
    let ghost instrs = models(vals@);
    let ghost m0 = m@;
    proof {
        lemma_models_len(vals@);
        assert(instrs.skip(0) =~= instrs);
    }
    let n = vals.len();
    let mut i: usize = 0;
    while i < n
        invariant
            i <= n,
            n == vals@.len(),
            m.wf(),
            instrs == models(vals@),
            instrs.len() == n,
            run_seq(m0, instrs, MAX_DEPTH as nat) == run_seq(
                m@,
                instrs.skip(i as int),
                MAX_DEPTH as nat,
            ),
        decreases n - i,
    {
        let v = vals[i].duplicate();
        let ghost m_pre = m@;
        proof {
            lemma_models_index(vals@, i as int);
            assert(instrs.skip(i as int)[0] == instrs[i as int]);
            assert(instrs.skip(i as int).skip(1) =~= instrs.skip(i + 1));
        }
        match m.process(v) {
            Ok(crate::machine::Flow::Continue) => {},
            _ => {
                proof {
                    assert(run_seq(m0, instrs, MAX_DEPTH as nat) == run_seq(
                        m_pre,
                        instrs.skip(i as int),
                        MAX_DEPTH as nat,
                    ));
                    assert(!(run_seq(m0, instrs, MAX_DEPTH as nat) is Next));
                    assert(run_line(old(m)@, line@, MAX_DEPTH as nat) == (false, m@));
                }
                return false;
            },
        }
        i = i + 1;
    }
    proof {
        assert(instrs.skip(n as int).len() == 0);
    }
    true
}

/// Evaluates the whole bootstrap library against a (typically fresh)
/// machine; `true` exactly when every line went through, the machine then
/// holding what [`run_lines`] describes.
pub fn bootstrap(m: &mut Machine) -> (ok: bool)
    requires
        old(m).wf(),
    ensures
        final(m).wf(),
        ({
            let r = run_lines(old(m)@, stdlib_sources(), MAX_DEPTH as nat);
            ok == r.0 && final(m)@ == r.1
        }),
{
    let ghost srcs = stdlib_sources();
    let ghost m0 = m@;
    proof {
        assert(srcs.skip(1) =~= seq![
            "{ s256 s257 l257 l256 > l257 l256 ? }(max)s"@,
            "{ S - 2 r }(reduce)s"@,
            "(reduce)l \\+@  (sum)s"@,
            "\\S \\s 256@ | (sum)l | \\l256@ | \\/ |(avg)s"@,
        ]);
        assert(srcs.skip(1).skip(1) =~= seq![
            "{ S - 2 r }(reduce)s"@,
            "(reduce)l \\+@  (sum)s"@,
            "\\S \\s 256@ | (sum)l | \\l256@ | \\/ |(avg)s"@,
        ]);
        assert(srcs.skip(1).skip(1).skip(1) =~= seq![
            "(reduce)l \\+@  (sum)s"@,
            "\\S \\s 256@ | (sum)l | \\l256@ | \\/ |(avg)s"@,
        ]);
        assert(srcs.skip(1).skip(1).skip(1).skip(1) =~= seq![
            "\\S \\s 256@ | (sum)l | \\l256@ | \\/ |(avg)s"@,
        ]);
        assert(srcs.skip(1).skip(1).skip(1).skip(1).skip(1) =~= Seq::<Seq<char>>::empty());
    }
    let ok1 = run_source(m, "{ s256 s257 l257 l256 < l257 l256 ? }(min)s");
    let ghost m1 = m@;
    proof {
        assert(run_line(m0, srcs[0], MAX_DEPTH as nat) == (ok1, m1));
    }
    if !ok1 {
        proof {
            assert(run_lines(m0, srcs, MAX_DEPTH as nat) == (false, m1));
        }
        return false;
    }
    proof {
        assert(run_lines(m0, srcs, MAX_DEPTH as nat) == run_lines(
            m1,
            srcs.skip(1),
            MAX_DEPTH as nat,
        ));
    }
    let ok2 = run_source(m, "{ s256 s257 l257 l256 > l257 l256 ? }(max)s");
    let ghost m2 = m@;
    proof {
        assert(run_line(m1, srcs.skip(1)[0], MAX_DEPTH as nat) == (ok2, m2));
    }
    if !ok2 {
        proof {
            assert(run_lines(m1, srcs.skip(1), MAX_DEPTH as nat) == (false, m2));
        }
        return false;
    }
    proof {
        assert(run_lines(m1, srcs.skip(1), MAX_DEPTH as nat) == run_lines(
            m2,
            srcs.skip(1).skip(1),
            MAX_DEPTH as nat,
        ));
    }
    let ok3 = run_source(m, "{ S - 2 r }(reduce)s");
    let ghost m3 = m@;
    proof {
        assert(run_line(m2, srcs.skip(1).skip(1)[0], MAX_DEPTH as nat) == (ok3, m3));
    }
    if !ok3 {
        proof {
            assert(run_lines(m2, srcs.skip(1).skip(1), MAX_DEPTH as nat) == (false, m3));
        }
        return false;
    }
    proof {
        assert(run_lines(m2, srcs.skip(1).skip(1), MAX_DEPTH as nat) == run_lines(
            m3,
            srcs.skip(1).skip(1).skip(1),
            MAX_DEPTH as nat,
        ));
    }
    let ok4 = run_source(m, "(reduce)l \\+@  (sum)s");
    let ghost m4 = m@;
    proof {
        assert(run_line(m3, srcs.skip(1).skip(1).skip(1)[0], MAX_DEPTH as nat) == (ok4, m4));
    }
    if !ok4 {
        proof {
            assert(run_lines(m3, srcs.skip(1).skip(1).skip(1), MAX_DEPTH as nat) == (false, m4));
        }
        return false;
    }
    proof {
        assert(run_lines(m3, srcs.skip(1).skip(1).skip(1), MAX_DEPTH as nat) == run_lines(
            m4,
            srcs.skip(1).skip(1).skip(1).skip(1),
            MAX_DEPTH as nat,
        ));
    }
    let ok5 = run_source(m, "\\S \\s 256@ | (sum)l | \\l256@ | \\/ |(avg)s");
    let ghost m5 = m@;
    proof {
        assert(run_line(m4, srcs.skip(1).skip(1).skip(1).skip(1)[0], MAX_DEPTH as nat) == (
            ok5,
            m5,
        ));
    }
    if !ok5 {
        proof {
            assert(run_lines(m4, srcs.skip(1).skip(1).skip(1).skip(1), MAX_DEPTH as nat) == (
                false,
                m5,
            ));
        }
        return false;
    }
    proof {
        assert(run_lines(m4, srcs.skip(1).skip(1).skip(1).skip(1), MAX_DEPTH as nat)
            == run_lines(m5, srcs.skip(1).skip(1).skip(1).skip(1).skip(1), MAX_DEPTH as nat));
        assert(run_lines(m5, srcs.skip(1).skip(1).skip(1).skip(1).skip(1), MAX_DEPTH as nat) == (
            true,
            m5,
        ));
    }
    true
}

} // verus!
