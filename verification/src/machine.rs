//! The mathematical model of the evaluator: a small-step machine over the
//! program, its jump table, a byte tape, a cursor, a stream of input bytes
//! and an output log.  The executable evaluators are proved to follow this
//! machine step by step.

use crate::jumps::InvalidProgramError;
use crate::jumps::OP_CLOSE;
use crate::jumps::OP_OPEN;
use crate::jumps::jump_map;
use crate::jumps::spec_jumps_err;
use vstd::prelude::*;

verus! {

/// Byte value of `>`: move the cursor right.
pub const OP_RIGHT: u8 = 62;

/// Byte value of `<`: move the cursor left.
pub const OP_LEFT: u8 = 60;

/// Byte value of `+`: increment the current cell, wrapping modulo 256.
pub const OP_INC: u8 = 43;

/// Byte value of `-`: decrement the current cell, wrapping modulo 256.
pub const OP_DEC: u8 = 45;

/// Byte value of `.`: write the current cell to the output.
pub const OP_OUT: u8 = 46;

/// Byte value of `,`: read one byte into the current cell, leaving it
/// unchanged when no input is left.
pub const OP_IN: u8 = 44;

/// A machine state: instruction pointer, cursor, tape contents, the input
/// bytes not yet consumed, and the output bytes written so far.
pub ghost struct MState {
    pub pc: int,
    pub cur: int,
    pub tape: Seq<u8>,
    pub ins: Seq<u8>,
    pub out: Seq<u8>,
}

/// The state a run starts from: everything at zero, a fresh all-zero tape of
/// length `mem`, the whole input pending and no output yet.
pub open spec fn init_state(mem: nat, ins: Seq<u8>) -> MState {
    MState { pc: 0, cur: 0, tape: Seq::new(mem, |i: int| 0u8), ins, out: Seq::empty() }
}

/// Increment wrapping modulo 256.
pub open spec fn inc_cell(v: u8) -> u8 {
    if v == 255 {
        0
    } else {
        (v + 1) as u8
    }
}

/// Decrement wrapping modulo 256.
pub open spec fn dec_cell(v: u8) -> u8 {
    if v == 0 {
        255
    } else {
        (v - 1) as u8
    }
}

/// One step of the machine at `s.pc`, which must be inside the program.
/// `None` is the fatal out-of-bounds path: the cursor would leave
/// `[0, tape length)`.  The cursor itself never wraps.  A taken branch lands
/// on the matching bracket and the usual advance by one then applies, so the
/// new `pc` is one past the jump target.  Unrecognized bytes are comments.
pub open spec fn step(p: Seq<u8>, j: Map<usize, usize>, s: MState) -> Option<MState>
    recommends
        0 <= s.pc < p.len(),
        0 <= s.cur < s.tape.len(),
{
    let c = p[s.pc];
    if c == OP_RIGHT {
        if s.cur + 1 < s.tape.len() {
            Some(MState { pc: s.pc + 1, cur: s.cur + 1, tape: s.tape, ins: s.ins, out: s.out })
        } else {
            None
        }
    } else if c == OP_LEFT {
        if s.cur >= 1 {
            Some(MState { pc: s.pc + 1, cur: s.cur - 1, tape: s.tape, ins: s.ins, out: s.out })
        } else {
            None
        }
    } else if c == OP_INC {
        Some(
            MState {
                pc: s.pc + 1,
                cur: s.cur,
                tape: s.tape.update(s.cur, inc_cell(s.tape[s.cur])),
                ins: s.ins,
                out: s.out,
            },
        )
    } else if c == OP_DEC {
        Some(
            MState {
                pc: s.pc + 1,
                cur: s.cur,
                tape: s.tape.update(s.cur, dec_cell(s.tape[s.cur])),
                ins: s.ins,
                out: s.out,
            },
        )
    } else if c == OP_OUT {
        Some(
            MState {
                pc: s.pc + 1,
                cur: s.cur,
                tape: s.tape,
                ins: s.ins,
                out: s.out.push(s.tape[s.cur]),
            },
        )
    } else if c == OP_IN {
        if s.ins.len() == 0 {
            Some(MState { pc: s.pc + 1, cur: s.cur, tape: s.tape, ins: s.ins, out: s.out })
        } else {
            Some(
                MState {
                    pc: s.pc + 1,
                    cur: s.cur,
                    tape: s.tape.update(s.cur, s.ins[0]),
                    ins: s.ins.drop_first(),
                    out: s.out,
                },
            )
        }
    } else if c == OP_OPEN {
        if s.tape[s.cur] == 0 {
            Some(
                MState {
                    pc: j[s.pc as usize] + 1,
                    cur: s.cur,
                    tape: s.tape,
                    ins: s.ins,
                    out: s.out,
                },
            )
        } else {
            Some(MState { pc: s.pc + 1, cur: s.cur, tape: s.tape, ins: s.ins, out: s.out })
        }
    } else if c == OP_CLOSE {
        if s.tape[s.cur] != 0 {
            Some(
                MState {
                    pc: j[s.pc as usize] + 1,
                    cur: s.cur,
                    tape: s.tape,
                    ins: s.ins,
                    out: s.out,
                },
            )
        } else {
            Some(MState { pc: s.pc + 1, cur: s.cur, tape: s.tape, ins: s.ins, out: s.out })
        }
    } else {
        Some(MState { pc: s.pc + 1, cur: s.cur, tape: s.tape, ins: s.ins, out: s.out })
    }
}

/// The machine after at most `n` steps from `s`.  A state whose `pc` has
/// reached the end of the program is final and absorbs further steps; `None`
/// records that the fatal out-of-bounds path was taken.
pub open spec fn run_n(p: Seq<u8>, j: Map<usize, usize>, s: MState, n: nat) -> Option<MState>
    decreases n,
{
    if n == 0 {
        Some(s)
    } else {
        match run_n(p, j, s, (n - 1) as nat) {
            None => None,
            Some(t) => if t.pc >= p.len() {
                Some(t)
            } else {
                step(p, j, t)
            },
        }
    }
}

/// What evaluating program `p` on a fresh tape of length `mem` with input
/// `ins` comes to within `fuel` machine steps.
pub ghost enum EvalOutcome {
    /// The program is structurally invalid; nothing was executed.
    Invalid(InvalidProgramError),
    /// The fatal path: the tape has no cell for the cursor, either because
    /// it is empty or because a move left the range `[0, length)`.
    OutOfBounds,
    /// The instruction pointer ran off the end of the program: the one
    /// success terminal state, with the final tape and the output written.
    Halted { tape: Seq<u8>, out: Seq<u8> },
    /// Still running after `fuel` steps.
    Running,
}

/// The meaning of an evaluation call: validate the brackets, reject an empty
/// tape, then run the machine for at most `fuel` steps.
pub open spec fn spec_eval(p: Seq<u8>, mem: nat, ins: Seq<u8>, fuel: nat) -> EvalOutcome {
    match spec_jumps_err(p) {
        Some(e) => EvalOutcome::Invalid(e),
        None => if mem == 0 {
            EvalOutcome::OutOfBounds
        } else {
            match run_n(p, jump_map(p), init_state(mem, ins), fuel) {
                None => EvalOutcome::OutOfBounds,
                Some(t) => if t.pc >= p.len() {
                    EvalOutcome::Halted { tape: t.tape, out: t.out }
                } else {
                    EvalOutcome::Running
                },
            }
        },
    }
}

/// The program halts on this tape length and input, with these final tape
/// contents and this output byte sequence.
pub open spec fn halts_with(p: Seq<u8>, mem: nat, ins: Seq<u8>, tape: Seq<u8>, out: Seq<u8>) -> bool {
    exists|fuel: nat| spec_eval(p, mem, ins, fuel) == (EvalOutcome::Halted { tape, out })
}

/// The program takes the fatal out-of-bounds path on this tape length and
/// input.
pub open spec fn faults(p: Seq<u8>, mem: nat, ins: Seq<u8>) -> bool {
    exists|fuel: nat| spec_eval(p, mem, ins, fuel) == EvalOutcome::OutOfBounds
}

/// After `k` steps on input `ins`, the machine stands on one of the two I/O
/// instructions.  An I/O failure can only abort a run in such a state.
pub open spec fn at_io_instruction(p: Seq<u8>, mem: nat, ins: Seq<u8>, k: nat) -> bool {
    match run_n(p, jump_map(p), init_state(mem, ins), k) {
        Some(t) => 0 <= t.pc < p.len() && (p[t.pc] == OP_OUT || p[t.pc] == OP_IN),
        None => false,
    }
}

/// A final state absorbs any further fuel.
pub(crate) proof fn lemma_run_halt_absorbing(p: Seq<u8>, j: Map<usize, usize>, s: MState, n: nat, m: nat)
    requires
        n <= m,
        match run_n(p, j, s, n) {
            Some(t) => t.pc >= p.len(),
            None => false,
        },
    ensures
        run_n(p, j, s, m) == run_n(p, j, s, n),
    decreases m,
{
    if m > n {
        lemma_run_halt_absorbing(p, j, s, n, (m - 1) as nat);
    }
}

/// The fatal path absorbs any further fuel.
pub(crate) proof fn lemma_run_fault_absorbing(p: Seq<u8>, j: Map<usize, usize>, s: MState, n: nat, m: nat)
    requires
        n <= m,
        run_n(p, j, s, n) is None,
    ensures
        run_n(p, j, s, m) is None,
    decreases m,
{
    if m > n {
        lemma_run_fault_absorbing(p, j, s, n, (m - 1) as nat);
    }
}

/// Law: evaluation is deterministic.  Two runs of the same program with
/// fresh tapes of the same length and the same input that both halt — with
/// whatever step budgets — halt with the same final tape and the same output
/// byte sequence.
pub proof fn lemma_eval_deterministic(p: Seq<u8>, mem: nat, ins: Seq<u8>, f1: nat, f2: nat)
    requires
        spec_eval(p, mem, ins, f1) is Halted,
        spec_eval(p, mem, ins, f2) is Halted,
    ensures
        spec_eval(p, mem, ins, f1) == spec_eval(p, mem, ins, f2),
{
    let s = init_state(mem, ins);
    let j = jump_map(p);
    if f1 <= f2 {
        lemma_run_halt_absorbing(p, j, s, f1, f2);
    } else {
        lemma_run_halt_absorbing(p, j, s, f2, f1);
    }
}

/// Two states that agree on everything but their pending input.
pub open spec fn eq_mod_ins(a: MState, b: MState) -> bool {
    a.pc == b.pc && a.cur == b.cur && a.tape == b.tape && a.out == b.out
}

/// A program without the input instruction never looks at the pending
/// input: runs from states that differ only there stay in lockstep.
pub proof fn lemma_run_ignores_input(p: Seq<u8>, j: Map<usize, usize>, a: MState, b: MState, n: nat)
    requires
        forall|i: int| 0 <= i < p.len() ==> p[i] != OP_IN,
        eq_mod_ins(a, b),
        0 <= a.pc,
    ensures
        match (run_n(p, j, a, n), run_n(p, j, b, n)) {
            (Some(x), Some(y)) => eq_mod_ins(x, y) && 0 <= x.pc,
            (None, None) => true,
            _ => false,
        },
    decreases n,
{
    if n > 0 {
        lemma_run_ignores_input(p, j, a, b, (n - 1) as nat);
        match (run_n(p, j, a, (n - 1) as nat), run_n(p, j, b, (n - 1) as nat)) {
            (Some(x), Some(y)) => {
                if x.pc < p.len() {
                    assert(p[x.pc] != OP_IN);
                    assert(match (step(p, j, x), step(p, j, y)) {
                        (Some(u), Some(v)) => eq_mod_ins(u, v) && 0 <= u.pc,
                        (None, None) => true,
                        _ => false,
                    });
                }
            },
            _ => {},
        }
    }
}

/// Law: a program that never reads input is deterministic outright: two
/// halting runs on fresh tapes of the same length agree on the final tape
/// and the output, however their input streams and step budgets differ.
pub proof fn lemma_closed_program_deterministic(
    p: Seq<u8>,
    mem: nat,
    ins1: Seq<u8>,
    ins2: Seq<u8>,
    f1: nat,
    f2: nat,
)
    requires
        forall|i: int| 0 <= i < p.len() ==> p[i] != OP_IN,
        spec_eval(p, mem, ins1, f1) is Halted,
        spec_eval(p, mem, ins2, f2) is Halted,
    ensures
        spec_eval(p, mem, ins1, f1) == spec_eval(p, mem, ins2, f2),
{
    let j = jump_map(p);
    let fmax = if f1 <= f2 {
        f2
    } else {
        f1
    };
    lemma_run_halt_absorbing(p, j, init_state(mem, ins1), f1, fmax);
    lemma_run_halt_absorbing(p, j, init_state(mem, ins2), f2, fmax);
    lemma_run_ignores_input(p, j, init_state(mem, ins1), init_state(mem, ins2), fmax);
}

/// Law: a run that halts never takes the fatal out-of-bounds path, whatever
/// the step budget: the cursor is checked at every move, never wrapped.
pub proof fn lemma_halted_excludes_fault(p: Seq<u8>, mem: nat, ins: Seq<u8>, f1: nat, f2: nat)
    requires
        spec_eval(p, mem, ins, f1) is Halted,
    ensures
        !(spec_eval(p, mem, ins, f2) is OutOfBounds),
{
    let s = init_state(mem, ins);
    let j = jump_map(p);
    if f2 <= f1 {
        if run_n(p, j, s, f2) is None {
            lemma_run_fault_absorbing(p, j, s, f2, f1);
        }
    } else {
        lemma_run_halt_absorbing(p, j, s, f1, f2);
    }
}

} // verus!
