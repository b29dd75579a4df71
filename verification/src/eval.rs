//! The evaluator: executes a program against a fresh zero-initialized tape,
//! using the jump resolver's table for the two branch instructions.
//!
//! [`bf_eval_on`] is the pure core: it takes the input bytes and a step
//! budget as arguments and is proved to return exactly what the machine
//! model of [`crate::machine`] computes.  [`bf_eval`] runs the same loop
//! against the process's standard input and output, as large a step budget
//! as can be counted, and is proved to halt only in states the machine can
//! reach for some input.

use crate::jumps::InvalidProgramError;
use crate::jumps::OP_CLOSE;
use crate::jumps::OP_OPEN;
use crate::jumps::bf_jumps;
use crate::jumps::jump_map;
use crate::jumps::lemma_jump_map_total;
use crate::jumps::program_valid;
use crate::jumps::spec_jumps_err;
use crate::machine::EvalOutcome;
use crate::machine::MState;
use crate::machine::at_io_instruction;
use crate::machine::faults;
use crate::machine::halts_with;
use crate::machine::OP_DEC;
use crate::machine::OP_IN;
use crate::machine::OP_INC;
use crate::machine::OP_LEFT;
use crate::machine::OP_OUT;
use crate::machine::OP_RIGHT;
use crate::machine::init_state;
use crate::machine::lemma_run_fault_absorbing;
use crate::machine::lemma_run_halt_absorbing;
use crate::machine::run_n;
use crate::machine::spec_eval;
use crate::machine::step;
use vstd::prelude::*;

verus! {

#[verifier::external_type_specification]
#[verifier::external_body]
pub struct ExIoError(std::io::Error);

/// Everything that can stop an evaluation short of a normal halt.
#[derive(Debug)]
pub enum BFEvalError {
    /// The bracket scan rejected the program; nothing was executed.
    InvalidProgramError(InvalidProgramError),
    /// A read from standard input or a write to standard output failed at
    /// the operating-system level; the tape state is abandoned.
    IOError(std::io::Error),
    /// The fatal out-of-bounds path: the tape has no cell for the cursor,
    /// either because the requested tape is empty or because a move would
    /// take the cursor outside `[0, length)`.
    OutOfBoundsAccess,
    /// The step budget ran out before the program halted.
    StepLimitExceeded,
}

impl core::convert::From<InvalidProgramError> for BFEvalError {
    fn from(err: InvalidProgramError) -> (r: BFEvalError) {
        BFEvalError::InvalidProgramError(err)
    }
}

impl vstd::std_specs::convert::FromSpecImpl<InvalidProgramError> for BFEvalError {
    open spec fn obeys_from_spec() -> bool {
        true
    }

    open spec fn from_spec(err: InvalidProgramError) -> BFEvalError {
        BFEvalError::InvalidProgramError(err)
    }
}

impl core::convert::From<std::io::Error> for BFEvalError {
    fn from(err: std::io::Error) -> (r: BFEvalError) {
        BFEvalError::IOError(err)
    }
}

impl vstd::std_specs::convert::FromSpecImpl<std::io::Error> for BFEvalError {
    open spec fn obeys_from_spec() -> bool {
        true
    }

    open spec fn from_spec(err: std::io::Error) -> BFEvalError {
        BFEvalError::IOError(err)
    }
}

/// What a halted evaluation hands back: the full tape at the moment the
/// instruction pointer left the program, and every byte the program wrote.
#[derive(Debug)]
pub struct EvalOutput {
    pub tape: Vec<u8>,
    pub output: Vec<u8>,
}

/// Evaluates `program` on a fresh tape of `mem_size` zero cells, reading
/// input from `input` (a `,` past its end leaves the cell unchanged) and
/// collecting output, for at most `max_steps` instructions.
///
/// The result is exactly what the machine model computes: the final tape and
/// output on a normal halt, the structural error when the brackets do not
/// match, the fatal out-of-bounds report when the tape is empty or the
/// cursor would leave it, and the budget report when the program is still
/// running after `max_steps` steps.
#[verifier::loop_isolation(false)]
pub fn bf_eval_on(program: &[u8], mem_size: usize, input: &[u8], max_steps: u64) -> (r: Result<
    EvalOutput,
    BFEvalError,
>)
    ensures
        match r {
            Ok(o) => o.tape@.len() == mem_size && spec_eval(
                program@,
                mem_size as nat,
                input@,
                max_steps as nat,
            ) == (EvalOutcome::Halted { tape: o.tape@, out: o.output@ }),
            Err(BFEvalError::InvalidProgramError(e)) => spec_eval(
                program@,
                mem_size as nat,
                input@,
                max_steps as nat,
            ) == EvalOutcome::Invalid(e),
            Err(BFEvalError::OutOfBoundsAccess) => spec_eval(
                program@,
                mem_size as nat,
                input@,
                max_steps as nat,
            ) == EvalOutcome::OutOfBounds,
            Err(BFEvalError::StepLimitExceeded) => spec_eval(
                program@,
                mem_size as nat,
                input@,
                max_steps as nat,
            ) == EvalOutcome::Running,
            Err(BFEvalError::IOError(_)) => false,
        },
{
    broadcast use vstd::std_specs::hash::group_hash_axioms;

    let ghost p = program@;
    let n = program.len();
    let jumps = match bf_jumps(program) {
        Ok(jumps) => jumps,
        Err(e) => {
            return Err(BFEvalError::InvalidProgramError(e));
        },
    };
    if mem_size == 0 {
        return Err(BFEvalError::OutOfBoundsAccess);
    }
    let ghost j = jump_map(p);
    proof {
        lemma_jump_map_total(p);
    }

    let mut mem: Vec<u8> = Vec::new();
    let mut fill: usize = 0;
    while fill < mem_size
        invariant
            fill <= mem_size,
            mem@.len() == fill,
            forall|x: int| 0 <= x < fill ==> mem@[x] == 0u8,
        decreases mem_size - fill,
    {
        mem.push(0);
        fill = fill + 1;
    }
    assert(mem@ =~= Seq::new(mem_size as nat, |i: int| 0u8));

    let ghost s0 = init_state(mem_size as nat, input@);
    proof {
        assert(input@.skip(0) =~= input@);
    }
    let mut ptr: usize = 0;
    let mut pc: usize = 0;
    let mut ipos: usize = 0;
    let mut out: Vec<u8> = Vec::new();
    let mut fuel: u64 = max_steps;
    let ghost mut k: nat = 0;
    while pc < n
        invariant
            pc <= n,
            ptr < mem_size,
            mem@.len() == mem_size,
            ipos <= input@.len(),
            fuel <= max_steps,
            k == max_steps - fuel,
            run_n(p, j, s0, k) == Some(
                MState {
                    pc: pc as int,
                    cur: ptr as int,
                    tape: mem@,
                    ins: input@.skip(ipos as int),
                    out: out@,
                },
            ),
        decreases fuel,
    {
        if fuel == 0 {
            return Err(BFEvalError::StepLimitExceeded);
        }
        fuel = fuel - 1;
        let ghost st = MState {
            pc: pc as int,
            cur: ptr as int,
            tape: mem@,
            ins: input@.skip(ipos as int),
            out: out@,
        };
        proof {
            assert(run_n(p, j, s0, k + 1) == step(p, j, st));
        }
        let c = program[pc];
        if c == OP_RIGHT {
            if ptr + 1 < mem_size {
                ptr = ptr + 1;
            } else {
                proof {
                    lemma_run_fault_absorbing(p, j, s0, k + 1, max_steps as nat);
                }
                return Err(BFEvalError::OutOfBoundsAccess);
            }
        } else if c == OP_LEFT {
            if ptr >= 1 {
                ptr = ptr - 1;
            } else {
                proof {
                    lemma_run_fault_absorbing(p, j, s0, k + 1, max_steps as nat);
                }
                return Err(BFEvalError::OutOfBoundsAccess);
            }
        } else if c == OP_INC {
            let v = mem[ptr];
            let nv = if v == 255 {
                0
            } else {
                v + 1
            };
            mem.set(ptr, nv);
        } else if c == OP_DEC {
            let v = mem[ptr];
            let nv = if v == 0 {
                255
            } else {
                v - 1
            };
            mem.set(ptr, nv);
        } else if c == OP_OUT {
            let v = mem[ptr];
            out.push(v);
        } else if c == OP_IN {
            if ipos < input.len() {
                let b = input[ipos];
                mem.set(ptr, b);
                ipos = ipos + 1;
                proof {
                    assert(input@.skip(ipos - 1).drop_first() =~= input@.skip(ipos as int));
                }
            } else {
                proof {
                    assert(input@.skip(ipos as int).len() == 0);
                }
            }
        } else if c == OP_OPEN {
            let v = mem[ptr];
            if v == 0 {
                match jumps.get(&pc) {
                    Some(target) => {
                        pc = *target;
                    },
                    None => {
                        proof {
                            assert(j.dom().contains(pc));
                            assert(false);
                        }
                    },
                }
            }
        } else if c == OP_CLOSE {
            let v = mem[ptr];
            if v != 0 {
                match jumps.get(&pc) {
                    Some(target) => {
                        pc = *target;
                    },
                    None => {
                        proof {
                            assert(j.dom().contains(pc));
                            assert(false);
                        }
                    },
                }
            }
        }
        pc = pc + 1;
        proof {
            k = k + 1;
        }
    }
    proof {
        lemma_run_halt_absorbing(p, j, s0, k, max_steps as nat);
    }
    Ok(EvalOutput { tape: mem, output: out })
}

/// Relies on `std::io::Write::write_all` on standard output to write the one
/// byte given, and on nothing about its effect.
#[verifier::external_body]
fn write_stdout_byte(b: u8) -> (r: Result<(), std::io::Error>) {
    std::io::Write::write_all(&mut std::io::stdout(), std::slice::from_ref(&b))
}

/// Relies on `std::io::Write::flush` on standard output.
#[verifier::external_body]
fn flush_stdout() -> (r: Result<(), std::io::Error>) {
    std::io::Write::flush(&mut std::io::stdout())
}

/// Relies on `std::io::Read::read` on standard input: it fills at most the
/// one-byte buffer handed to it, so the result is the byte read, or `cell`
/// unchanged at end of input.  Which of the two came back is deliberately
/// not stated: the caller must be correct for every returned byte.
#[verifier::external_body]
fn read_stdin_cell(cell: u8) -> (r: Result<u8, std::io::Error>) {
    let mut b = cell;
    match std::io::Read::read(&mut std::io::stdin(), std::slice::from_mut(&mut b)) {
        Ok(_) => Ok(b),
        Err(e) => Err(e),
    }
}

/// Evaluates `program` on a fresh tape of `mem_size` zero cells against the
/// process's standard input and output: `.` writes one byte and flushes at
/// once, `,` reads one byte and leaves the cell unchanged at end of input.
///
/// On a normal halt the returned tape, together with the bytes that were
/// read, is exactly a halting run of the machine model: for some input
/// stream the machine halts with this tape.  Structural errors are reported
/// before anything runs; the fatal out-of-bounds path aborts the run, and an
/// I/O failure can do so only while the machine stands on `.` or `,`.  The
/// step budget only exists to bound the loop; it admits more steps than any
/// physical run performs.
///
/// For a program that holds neither `.` nor `,` nothing outside decides, so
/// the whole outcome is owed: the result is exactly what the machine model
/// computes on the empty input, as with [`bf_eval_on`], and an I/O error is
/// impossible.
#[verifier::loop_isolation(false)]
pub fn bf_eval(program: &[u8], mem_size: usize) -> (r: Result<Vec<u8>, BFEvalError>)
    ensures
        match r {
            Ok(tape) => tape@.len() == mem_size && exists|ins: Seq<u8>, out: Seq<u8>|
                halts_with(program@, mem_size as nat, ins, tape@, out),
            Err(BFEvalError::InvalidProgramError(e)) => spec_jumps_err(program@) == Some(e),
            Err(BFEvalError::OutOfBoundsAccess) => program_valid(program@) && (mem_size == 0
                || exists|ins: Seq<u8>| faults(program@, mem_size as nat, ins)),
            Err(BFEvalError::IOError(_)) => program_valid(program@) && mem_size > 0 && exists|
                ins: Seq<u8>,
                k: nat,
            | at_io_instruction(program@, mem_size as nat, ins, k),
            Err(BFEvalError::StepLimitExceeded) => program_valid(program@) && mem_size > 0
                && exists|ins: Seq<u8>| spec_eval(program@, mem_size as nat, ins, u64::MAX as nat)
                == EvalOutcome::Running,
        },
        (forall|i: int| 0 <= i < program@.len() ==> program@[i] != OP_OUT && program@[i] != OP_IN)
            ==> match r {
            Ok(tape) => spec_eval(program@, mem_size as nat, Seq::empty(), u64::MAX as nat) == (
            EvalOutcome::Halted { tape: tape@, out: Seq::empty() }),
            Err(BFEvalError::InvalidProgramError(e)) => spec_jumps_err(program@) == Some(e),
            Err(BFEvalError::OutOfBoundsAccess) => mem_size == 0 || spec_eval(
                program@,
                mem_size as nat,
                Seq::empty(),
                u64::MAX as nat,
            ) == EvalOutcome::OutOfBounds,
            Err(BFEvalError::IOError(_)) => false,
            Err(BFEvalError::StepLimitExceeded) => spec_eval(
                program@,
                mem_size as nat,
                Seq::empty(),
                u64::MAX as nat,
            ) == EvalOutcome::Running,
        },
{
    broadcast use vstd::std_specs::hash::group_hash_axioms;

    let ghost p = program@;
    let ghost msz = mem_size as nat;
    let ghost noio = forall|i: int| 0 <= i < p.len() ==> p[i] != OP_OUT && p[i] != OP_IN;
    let n = program.len();
    let jumps = match bf_jumps(program) {
        Ok(jumps) => jumps,
        Err(e) => {
            return Err(BFEvalError::InvalidProgramError(e));
        },
    };
    if mem_size == 0 {
        return Err(BFEvalError::OutOfBoundsAccess);
    }
    let ghost j = jump_map(p);
    proof {
        lemma_jump_map_total(p);
    }

    let mut mem: Vec<u8> = Vec::new();
    let mut fill: usize = 0;
    while fill < mem_size
        invariant
            fill <= mem_size,
            mem@.len() == fill,
            forall|x: int| 0 <= x < fill ==> mem@[x] == 0u8,
        decreases mem_size - fill,
    {
        mem.push(0);
        fill = fill + 1;
    }
    assert(mem@ =~= Seq::new(msz, |i: int| 0u8));

    let mut ptr: usize = 0;
    let mut pc: usize = 0;
    let mut fuel: u64 = u64::MAX;
    let ghost mut k: nat = 0;
    let ghost mut log: Seq<u8> = Seq::empty();
    let ghost mut out_log: Seq<u8> = Seq::empty();
    proof {
        assert forall|extra: Seq<u8>| #[trigger] run_n(p, j, init_state(msz, log + extra), 0)
            == Some(
            MState { pc: pc as int, cur: ptr as int, tape: mem@, ins: extra, out: out_log },
        ) by {
            assert(log + extra =~= extra);
        }
    }
    while pc < n
        invariant
            pc <= n,
            ptr < mem_size,
            mem@.len() == mem_size,
            k == u64::MAX - fuel,
            noio ==> log == Seq::<u8>::empty() && out_log == Seq::<u8>::empty(),
            forall|extra: Seq<u8>| #[trigger] run_n(p, j, init_state(msz, log + extra), k) == Some(
                MState { pc: pc as int, cur: ptr as int, tape: mem@, ins: extra, out: out_log },
            ),
        decreases fuel,
    {
        if fuel == 0 {
            proof {
                assert(log + Seq::<u8>::empty() =~= log);
                assert(run_n(p, j, init_state(msz, log), k) == Some(
                    MState {
                        pc: pc as int,
                        cur: ptr as int,
                        tape: mem@,
                        ins: Seq::empty(),
                        out: out_log,
                    },
                ));
                assert(spec_eval(p, msz, log, u64::MAX as nat) == EvalOutcome::Running);
            }
            return Err(BFEvalError::StepLimitExceeded);
        }
        fuel = fuel - 1;
        let ghost tape0 = mem@;
        let ghost log0 = log;
        let ghost out0 = out_log;
        proof {
            assert forall|extra: Seq<u8>| #[trigger] run_n(p, j, init_state(msz, log0 + extra), k + 1)
                == step(
                p,
                j,
                MState { pc: pc as int, cur: ptr as int, tape: tape0, ins: extra, out: out0 },
            ) by {
                assert(run_n(p, j, init_state(msz, log0 + extra), k) == Some(
                    MState { pc: pc as int, cur: ptr as int, tape: tape0, ins: extra, out: out0 },
                ));
            }
        }
        let c = program[pc];
        if c == OP_RIGHT {
            if ptr + 1 < mem_size {
                ptr = ptr + 1;
            } else {
                proof {
                    assert(log0 + Seq::<u8>::empty() =~= log0);
                    assert(run_n(p, j, init_state(msz, log0), k + 1) is None);
                    assert(spec_eval(p, msz, log0, k + 1) == EvalOutcome::OutOfBounds);
                    assert(faults(p, msz, log0));
                    lemma_run_fault_absorbing(
                        p,
                        j,
                        init_state(msz, log0),
                        (k + 1) as nat,
                        u64::MAX as nat,
                    );
                    assert(spec_eval(p, msz, log0, u64::MAX as nat) == EvalOutcome::OutOfBounds);
                }
                return Err(BFEvalError::OutOfBoundsAccess);
            }
        } else if c == OP_LEFT {
            if ptr >= 1 {
                ptr = ptr - 1;
            } else {
                proof {
                    assert(log0 + Seq::<u8>::empty() =~= log0);
                    assert(run_n(p, j, init_state(msz, log0), k + 1) is None);
                    assert(spec_eval(p, msz, log0, k + 1) == EvalOutcome::OutOfBounds);
                    assert(faults(p, msz, log0));
                    lemma_run_fault_absorbing(
                        p,
                        j,
                        init_state(msz, log0),
                        (k + 1) as nat,
                        u64::MAX as nat,
                    );
                    assert(spec_eval(p, msz, log0, u64::MAX as nat) == EvalOutcome::OutOfBounds);
                }
                return Err(BFEvalError::OutOfBoundsAccess);
            }
        } else if c == OP_INC {
            let v = mem[ptr];
            let nv = if v == 255 {
                0
            } else {
                v + 1
            };
            mem.set(ptr, nv);
        } else if c == OP_DEC {
            let v = mem[ptr];
            let nv = if v == 0 {
                255
            } else {
                v - 1
            };
            mem.set(ptr, nv);
        } else if c == OP_OUT {
            let v = mem[ptr];
            match write_stdout_byte(v) {
                Ok(_) => {},
                Err(e) => {
                    proof {
                        assert(log0 + Seq::<u8>::empty() =~= log0);
                        assert(run_n(p, j, init_state(msz, log0), k) == Some(
                            MState {
                                pc: pc as int,
                                cur: ptr as int,
                                tape: tape0,
                                ins: Seq::empty(),
                                out: out0,
                            },
                        ));
                        assert(at_io_instruction(p, msz, log0, k));
                    }
                    return Err(BFEvalError::IOError(e));
                },
            }
            match flush_stdout() {
                Ok(_) => {},
                Err(e) => {
                    proof {
                        assert(log0 + Seq::<u8>::empty() =~= log0);
                        assert(run_n(p, j, init_state(msz, log0), k) == Some(
                            MState {
                                pc: pc as int,
                                cur: ptr as int,
                                tape: tape0,
                                ins: Seq::empty(),
                                out: out0,
                            },
                        ));
                        assert(at_io_instruction(p, msz, log0, k));
                    }
                    return Err(BFEvalError::IOError(e));
                },
            }
            proof {
                out_log = out_log.push(v);
            }
        } else if c == OP_IN {
            let v = mem[ptr];
            match read_stdin_cell(v) {
                Ok(b) => {
                    mem.set(ptr, b);
                    proof {
                        log = log.push(b);
                        assert forall|extra: Seq<u8>| #[trigger] run_n(
                            p,
                            j,
                            init_state(msz, log + extra),
                            k + 1,
                        ) == Some(
                            MState {
                                pc: pc as int + 1,
                                cur: ptr as int,
                                tape: mem@,
                                ins: extra,
                                out: out_log,
                            },
                        ) by {
                            let e2 = seq![b] + extra;
                            assert(log0 + e2 =~= log + extra);
                            assert(run_n(p, j, init_state(msz, log0 + e2), k + 1) == step(
                                p,
                                j,
                                MState {
                                    pc: pc as int,
                                    cur: ptr as int,
                                    tape: tape0,
                                    ins: e2,
                                    out: out_log,
                                },
                            ));
                            assert(e2[0] == b);
                            assert(e2.drop_first() =~= extra);
                        }
                    }
                },
                Err(e) => {
                    proof {
                        assert(log0 + Seq::<u8>::empty() =~= log0);
                        assert(run_n(p, j, init_state(msz, log0), k) == Some(
                            MState {
                                pc: pc as int,
                                cur: ptr as int,
                                tape: tape0,
                                ins: Seq::empty(),
                                out: out0,
                            },
                        ));
                        assert(at_io_instruction(p, msz, log0, k));
                    }
                    return Err(BFEvalError::IOError(e));
                },
            }
        } else if c == OP_OPEN {
            let v = mem[ptr];
            if v == 0 {
                match jumps.get(&pc) {
                    Some(target) => {
                        pc = *target;
                    },
                    None => {
                        proof {
                            assert(j.dom().contains(pc));
                            assert(false);
                        }
                    },
                }
            }
        } else if c == OP_CLOSE {
            let v = mem[ptr];
            if v != 0 {
                match jumps.get(&pc) {
                    Some(target) => {
                        pc = *target;
                    },
                    None => {
                        proof {
                            assert(j.dom().contains(pc));
                            assert(false);
                        }
                    },
                }
            }
        }
        pc = pc + 1;
        proof {
            k = k + 1;
        }
    }
    proof {
        assert(log + Seq::<u8>::empty() =~= log);
        assert(run_n(p, j, init_state(msz, log), k) == Some(
            MState { pc: pc as int, cur: ptr as int, tape: mem@, ins: Seq::empty(), out: out_log },
        ));
        assert(spec_eval(p, msz, log, k) == (EvalOutcome::Halted { tape: mem@, out: out_log }));
        assert(halts_with(p, msz, log, mem@, out_log));
        assert(exists|ins: Seq<u8>, out: Seq<u8>| halts_with(p, msz, ins, mem@, out));
        lemma_run_halt_absorbing(p, j, init_state(msz, log), k, u64::MAX as nat);
        assert(spec_eval(p, msz, log, u64::MAX as nat) == (EvalOutcome::Halted {
            tape: mem@,
            out: out_log,
        }));
    }
    Ok(mem)
}

} // verus!
