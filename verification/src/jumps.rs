//! The jump resolver: a single left-to-right scan that validates bracket
//! nesting and builds the bidirectional jump table used by the evaluator.

use std::collections::HashMap;
use vstd::prelude::*;

verus! {

/// Byte value of `[`, the loop-opening instruction.
pub const OP_OPEN: u8 = 91;

/// Byte value of `]`, the loop-closing instruction.
pub const OP_CLOSE: u8 = 93;

/// A structural defect of a program, detected before any instruction runs.
/// Each variant carries the raw byte position that triggered it.
#[derive(Debug, PartialEq, Eq, Structural)]
pub enum InvalidProgramError {
    /// One or more `[` were left unmatched at the end of the scan; the
    /// position is the most recently opened (innermost) unmatched `[`.
    ExcessiveOpeningBrackets(usize),
    /// A `]` was met while no `[` was pending.
    UnexpectedClosingBracket(usize),
}

/// The state of the bracket scan after some prefix of the program:
/// the positions of the still-unmatched `[`s (innermost last) and the
/// jump table entries recorded so far.
pub ghost struct ScanState {
    pub stack: Seq<usize>,
    pub jumps: Map<usize, usize>,
}

/// The scan state after reading the first `n` bytes of `p`.  A `]` that finds
/// the stack empty is left in place here; `first_bad_close` reports it.
pub open spec fn scan(p: Seq<u8>, n: int) -> ScanState
    decreases n,
{
    if n <= 0 {
        ScanState { stack: Seq::empty(), jumps: Map::empty() }
    } else {
        let s = scan(p, n - 1);
        let i = (n - 1) as usize;
        if p[n - 1] == OP_OPEN {
            ScanState { stack: s.stack.push(i), jumps: s.jumps }
        } else if p[n - 1] == OP_CLOSE {
            if s.stack.len() == 0 {
                s
            } else {
                ScanState {
                    stack: s.stack.drop_last(),
                    jumps: s.jumps.insert(i, s.stack.last()).insert(s.stack.last(), i),
                }
            }
        } else {
            s
        }
    }
}

/// The first position in `p[..n]` where a `]` appears while no `[` is
/// pending, if any.
pub open spec fn first_bad_close(p: Seq<u8>, n: int) -> Option<usize>
    decreases n,
{
    if n <= 0 {
        None
    } else if first_bad_close(p, n - 1) is Some {
        first_bad_close(p, n - 1)
    } else if p[n - 1] == OP_CLOSE && scan(p, n - 1).stack.len() == 0 {
        Some((n - 1) as usize)
    } else {
        None
    }
}

/// Every `]` in `p` had a pending `[`.
pub open spec fn closes_ok(p: Seq<u8>) -> bool {
    first_bad_close(p, p.len() as int) is None
}

/// The program's brackets are balanced and properly nested.
pub open spec fn program_valid(p: Seq<u8>) -> bool {
    closes_ok(p) && scan(p, p.len() as int).stack.len() == 0
}

/// The jump table of `p`: for a valid program, a symmetric map holding every
/// bracket position, each mapped to its structural match.
pub open spec fn jump_map(p: Seq<u8>) -> Map<usize, usize> {
    scan(p, p.len() as int).jumps
}

pub open spec fn is_bracket(c: u8) -> bool {
    c == OP_OPEN || c == OP_CLOSE
}

/// The error the jump resolver reports for `p`, or `None` for a valid
/// program.  An unexpected `]` wins over unmatched `[`s because the scan
/// stops at it.
pub open spec fn spec_jumps_err(p: Seq<u8>) -> Option<InvalidProgramError> {
    let n = p.len() as int;
    match first_bad_close(p, n) {
        Some(i) => Some(InvalidProgramError::UnexpectedClosingBracket(i)),
        None => if scan(p, n).stack.len() > 0 {
            Some(InvalidProgramError::ExcessiveOpeningBrackets(scan(p, n).stack.last()))
        } else {
            None
        },
    }
}

/// Once the scan has found an unexpected `]`, reading further bytes reports
/// the same position.
proof fn lemma_first_bad_close_extend(p: Seq<u8>, m: int, k: int)
    requires
        0 <= m <= k,
        first_bad_close(p, m) is Some,
    ensures
        first_bad_close(p, k) == first_bad_close(p, m),
    decreases k,
{
    if k > m {
        lemma_first_bad_close_extend(p, m, k - 1);
    }
}

/// Structural facts that hold of every scan state: table entries and pending
/// positions all lie below `n`, pending positions are strictly increasing
/// `[`s that are not yet in the table, the table holds brackets only, and the
/// table is symmetric.
pub open spec fn scan_wf(p: Seq<u8>, n: int) -> bool {
    let s = scan(p, n);
    &&& forall|k: usize| #[trigger] s.jumps.dom().contains(k) ==> k < n && is_bracket(p[k as int])
    &&& forall|k: usize| #[trigger] s.jumps.dom().contains(k) ==> s.jumps.dom().contains(s.jumps[k])
        && s.jumps[s.jumps[k]] == k
    &&& forall|k: usize| #[trigger] s.jumps.dom().contains(k) ==> (p[k as int] == OP_OPEN ==> k
        < s.jumps[k]) && (p[k as int] == OP_CLOSE ==> s.jumps[k] < k)
    &&& forall|i: int| 0 <= i < s.stack.len() ==> (#[trigger] s.stack[i] as int) < n
        && p[s.stack[i] as int] == OP_OPEN
    &&& forall|i: int| 0 <= i < s.stack.len() ==> !s.jumps.dom().contains(#[trigger] s.stack[i])
    &&& forall|i: int, j: int| 0 <= i < j < s.stack.len() ==> s.stack[i] < s.stack[j]
}

pub proof fn lemma_scan_wf(p: Seq<u8>, n: int)
    requires
        n <= usize::MAX,
    ensures
        scan_wf(p, n),
    decreases n,
{
    if n > 0 {
        lemma_scan_wf(p, n - 1);
        let s = scan(p, n - 1);
        let t = scan(p, n);
        let i = (n - 1) as usize;
        if p[n - 1] == OP_CLOSE && s.stack.len() > 0 {
            let a = s.stack.last();
            assert(s.stack.contains(a));
            assert(!s.jumps.dom().contains(a));
            assert(!s.jumps.dom().contains(i));
            assert forall|k: usize| #[trigger] t.jumps.dom().contains(k) implies t.jumps.dom()
                .contains(t.jumps[k]) && t.jumps[t.jumps[k]] == k by {
                if k != i && k != a {
                    assert(s.jumps.dom().contains(k));
                    assert(s.jumps.dom().contains(s.jumps[k]));
                    assert(t.jumps[k] == s.jumps[k]);
                    assert(t.jumps[t.jumps[k]] == s.jumps[s.jumps[k]]);
                }
            }
            assert forall|x: int| 0 <= x < t.stack.len() implies !t.jumps.dom().contains(
                #[trigger] t.stack[x],
            ) by {
                assert(t.stack[x] == s.stack[x]);
                assert(s.stack[x] < a);
                assert((s.stack[x] as int) < n - 1);
            }
        }
    }
}

/// As long as no unexpected `]` has been met, every bracket position scanned
/// so far is either in the table or still pending on the stack.
pub open spec fn scan_covers(p: Seq<u8>, n: int) -> bool {
    let s = scan(p, n);
    forall|k: usize| k < n && is_bracket(p[k as int]) ==> s.jumps.dom().contains(k)
        || s.stack.contains(k)
}

pub proof fn lemma_scan_covers(p: Seq<u8>, n: int)
    requires
        n <= usize::MAX,
        first_bad_close(p, n) is None,
    ensures
        scan_covers(p, n),
    decreases n,
{
    if n > 0 {
        lemma_scan_covers(p, n - 1);
        lemma_scan_wf(p, n - 1);
        let s = scan(p, n - 1);
        let t = scan(p, n);
        let i = (n - 1) as usize;
        if p[n - 1] == OP_OPEN {
            assert forall|k: usize| k < n && is_bracket(p[k as int]) implies t.jumps.dom().contains(
                k,
            ) || t.stack.contains(k) by {
                if k < n - 1 {
                    if s.stack.contains(k) {
                        let x = choose|x: int| 0 <= x < s.stack.len() && s.stack[x] == k;
                        assert(t.stack[x] == k);
                    }
                } else {
                    assert(t.stack.last() == i);
                }
            }
        } else if p[n - 1] == OP_CLOSE {
            let a = s.stack.last();
            assert(s.stack.len() > 0);
            assert(s.stack.contains(a));
            assert forall|k: usize| k < n && is_bracket(p[k as int]) implies t.jumps.dom().contains(
                k,
            ) || t.stack.contains(k) by {
                if k < n - 1 {
                    if s.stack.contains(k) && k != a {
                        let x = choose|x: int| 0 <= x < s.stack.len() && s.stack[x] == k;
                        assert(x < s.stack.len() - 1);
                        assert(t.stack[x] == k);
                    }
                }
            }
        } else {
            assert forall|k: usize| k < n && is_bracket(p[k as int]) implies t.jumps.dom().contains(
                k,
            ) || t.stack.contains(k) by {
                if k < n - 1 && s.stack.contains(k) {
                    let x = choose|x: int| 0 <= x < s.stack.len() && s.stack[x] == k;
                    assert(t.stack[x] == k);
                }
            }
        }
    }
}

/// Law: in the jump table of a balanced, properly nested program, following
/// the mapping twice returns to the starting bracket: `table[table[k]] == k`
/// for every position `k` in the table.
pub proof fn lemma_jump_map_involution(p: Seq<u8>, k: usize)
    requires
        p.len() <= usize::MAX,
        program_valid(p),
        jump_map(p).dom().contains(k),
    ensures
        jump_map(p).dom().contains(jump_map(p)[k]),
        jump_map(p)[jump_map(p)[k]] == k,
{
    lemma_scan_wf(p, p.len() as int);
}

/// Each table entry pairs brackets the way last-opened, first-closed
/// matching demands: a `[` is sent to a `]` further right, a `]` back to a
/// `[` further left.
pub proof fn lemma_jump_map_directed(p: Seq<u8>, k: usize)
    requires
        p.len() <= usize::MAX,
        program_valid(p),
        jump_map(p).dom().contains(k),
    ensures
        p[k as int] == OP_OPEN ==> k < jump_map(p)[k] && p[jump_map(p)[k] as int] == OP_CLOSE,
        p[k as int] == OP_CLOSE ==> jump_map(p)[k] < k && p[jump_map(p)[k] as int] == OP_OPEN,
{
    lemma_scan_wf(p, p.len() as int);
}

/// In a valid program the jump table holds exactly the bracket positions,
/// and every entry points at a bracket position below the program's length.
pub proof fn lemma_jump_map_total(p: Seq<u8>)
    requires
        p.len() <= usize::MAX,
        program_valid(p),
    ensures
        forall|k: usize| #[trigger] jump_map(p).dom().contains(k) <==> k < p.len() && is_bracket(
            p[k as int],
        ),
        forall|k: usize| #[trigger] jump_map(p).dom().contains(k) ==> (jump_map(p)[k] as int)
            < p.len(),
{
    lemma_scan_wf(p, p.len() as int);
    lemma_scan_covers(p, p.len() as int);
    let s = scan(p, p.len() as int);
    assert forall|k: usize| k < p.len() && is_bracket(p[k as int]) implies s.jumps.dom().contains(
        k,
    ) by {
        assert(s.jumps.dom().contains(k) || s.stack.contains(k));
        if s.stack.contains(k) {
            let x = choose|x: int| 0 <= x < s.stack.len() && s.stack[x] == k;
            assert(false);
        }
    }
}

/// Builds the jump table for `program`, or reports the first structural
/// defect.  On success the returned map sends every `[` position to its
/// matching `]` position and vice versa.
pub fn bf_jumps(program: &[u8]) -> (r: Result<HashMap<usize, usize>, InvalidProgramError>)
    ensures
        match r {
            Ok(jumps) => program_valid(program@) && jumps@ == jump_map(program@),
            Err(e) => spec_jumps_err(program@) == Some(e),
        },
{
    broadcast use vstd::std_specs::hash::group_hash_axioms;

    let n = program.len();
    let mut stack: Vec<usize> = Vec::new();
    let mut jumps: HashMap<usize, usize> = HashMap::new();
    let mut pc: usize = 0;
    while pc < n
        invariant
            n == program@.len(),
            pc <= n,
            first_bad_close(program@, pc as int) is None,
            stack@ == scan(program@, pc as int).stack,
            jumps@ == scan(program@, pc as int).jumps,
        decreases n - pc,
    {
        broadcast use vstd::std_specs::hash::group_hash_axioms;

        let c = program[pc];
        if c == OP_OPEN {
            stack.push(pc);
        } else if c == OP_CLOSE {
            match stack.pop() {
                Some(target) => {
                    jumps.insert(pc, target);
                    jumps.insert(target, pc);
                    assert(stack@ =~= scan(program@, pc + 1).stack);
                },
                None => {
                    proof {
                        lemma_first_bad_close_extend(program@, pc + 1, n as int);
                    }
                    return Err(InvalidProgramError::UnexpectedClosingBracket(pc));
                },
            }
        }
        pc = pc + 1;
    }
    match stack.pop() {
        Some(target) => Err(InvalidProgramError::ExcessiveOpeningBrackets(target)),
        None => Ok(jumps),
    }
}

} // verus!
