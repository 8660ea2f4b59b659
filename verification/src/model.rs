//! The mathematical model of the interpreter.
//!
//! A `Machine` is the abstract state: an infinite bit tape as a total map,
//! the head position, both bit streams with their cursors, and the program
//! with its counter.  `step_of` is the specification-level dispatch of one
//! instruction, and `run_for` iterates it.

use vstd::prelude::*;
use crate::brackets::{backward_match_at, forward_match_at};

verus! {

/// A fatal condition that ends a run.
#[derive(Debug, Clone, Copy, PartialEq, Eq)]
pub enum RunError {
    /// A `,` instruction needed the input bit at `bit`, past the end of the input.
    InputExhausted { bit: u128 },
    /// The jump at program index `pc` found no partner before the edge of the program.
    UnbalancedBrackets { pc: usize },
}

/// The abstract interpreter state.
#[verifier::ext_equal]
pub ghost struct Machine {
    /// The infinite bit tape; unwritten cells hold `false`.
    pub tape: Map<int, bool>,
    /// The head position.
    pub head: int,
    /// The fixed input bytes.
    pub input: Seq<u8>,
    /// Bits of the input consumed so far.
    pub in_cursor: nat,
    /// The output bytes built so far.
    pub output: Seq<u8>,
    /// Bits of output produced so far.
    pub out_cursor: nat,
    /// The fixed program text.
    pub code: Seq<char>,
    /// The program counter.
    pub pc: nat,
}

/// How one dispatch ended.
#[verifier::ext_equal]
pub ghost enum Status {
    /// The machine executed one instruction and may continue.
    Running(Machine),
    /// The program counter had passed the end of the program.
    Halted(Machine),
    /// The instruction failed; the machine is left as it stood before it.
    Failed(Machine, RunError),
}

/// The tape every run starts from.
pub open spec fn blank_tape() -> Map<int, bool> {
    Map::total(|p: int| false)
}

/// The machine a run of `code` on `input` starts from.
pub open spec fn init_machine(code: Seq<char>, input: Seq<u8>) -> Machine {
    Machine {
        tape: blank_tape(),
        head: 0,
        input: input,
        in_cursor: 0,
        output: seq![0u8],
        out_cursor: 0,
        code: code,
        pc: 0,
    }
}

/// Bit `k` of the input stream: bit `k % 8` of byte `k / 8`,
/// least-significant-bit first.
pub open spec fn input_bit_of(input: Seq<u8>, k: int) -> bool {
    ((input[k / 8] >> ((k % 8) as u8)) & 1) == 1
}

/// The output buffer after one bit lands at cursor `cur`: a zero byte is
/// appended when byte `cur / 8` is not yet covered, and that byte's bit
/// `cur % 8` is set when the bit is true.
pub open spec fn pushed_output(out: Seq<u8>, cur: nat, bit: bool) -> Seq<u8> {
    let covered = if cur / 8 < out.len() {
        out
    } else {
        out.push(0u8)
    };
    if bit {
        covered.update(cur as int / 8, covered[cur as int / 8] | (1u8 << ((cur % 8) as u8)))
    } else {
        covered
    }
}

/// Some index ends the forward scan from `s`.
pub open spec fn has_forward_match(code: Seq<char>, s: int) -> bool {
    exists|j: int| forward_match_at(code, s, j)
}

/// The index that ends the forward scan from `s`.
pub open spec fn the_forward_match(code: Seq<char>, s: int) -> int {
    choose|j: int| forward_match_at(code, s, j)
}

/// Some index ends the backward scan from `s`.
pub open spec fn has_backward_match(code: Seq<char>, s: int) -> bool {
    exists|i: int| backward_match_at(code, s, i)
}

/// The index that ends the backward scan from `s`.
pub open spec fn the_backward_match(code: Seq<char>, s: int) -> int {
    choose|i: int| backward_match_at(code, s, i)
}

/// One dispatch of the engine: the instruction table of the language.
pub open spec fn step_of(m: Machine) -> Status {
    if m.pc >= m.code.len() {
        Status::Halted(m)
    } else {
        let c = m.code[m.pc as int];
        if c == '+' {
            Status::Running(Machine {
                tape: m.tape.insert(m.head, !m.tape[m.head]),
                pc: m.pc + 1,
                ..m
            })
        } else if c == ',' {
            if m.in_cursor / 8 < m.input.len() {
                Status::Running(Machine {
                    tape: m.tape.insert(m.head, input_bit_of(m.input, m.in_cursor as int)),
                    in_cursor: m.in_cursor + 1,
                    pc: m.pc + 1,
                    ..m
                })
            } else {
                Status::Failed(m, RunError::InputExhausted { bit: m.in_cursor as u128 })
            }
        } else if c == ';' {
            Status::Running(Machine {
                output: pushed_output(m.output, m.out_cursor, m.tape[m.head]),
                out_cursor: m.out_cursor + 1,
                pc: m.pc + 1,
                ..m
            })
        } else if c == '<' {
            Status::Running(Machine { head: m.head - 1, pc: m.pc + 1, ..m })
        } else if c == '>' {
            Status::Running(Machine { head: m.head + 1, pc: m.pc + 1, ..m })
        } else if c == '[' {
            if m.tape[m.head] {
                Status::Running(Machine { pc: m.pc + 1, ..m })
            } else if has_forward_match(m.code, m.pc as int) {
                Status::Running(Machine {
                    pc: (the_forward_match(m.code, m.pc as int) + 1) as nat,
                    ..m
                })
            } else {
                Status::Failed(m, RunError::UnbalancedBrackets { pc: m.pc as usize })
            }
        } else if c == ']' {
            if !m.tape[m.head] {
                Status::Running(Machine { pc: m.pc + 1, ..m })
            } else if has_backward_match(m.code, m.pc as int) {
                Status::Running(Machine { pc: the_backward_match(m.code, m.pc as int) as nat, ..m })
            } else {
                Status::Failed(m, RunError::UnbalancedBrackets { pc: m.pc as usize })
            }
        } else {
            Status::Running(Machine { pc: m.pc + 1, ..m })
        }
    }
}

/// What one executable step leaves behind: the dispatch's machine and, as
/// its result, whether the counter still stands on the program; a failing
/// step leaves the machine as it stood.
pub open spec fn step_post(pre: Machine, post: Machine, r: Result<bool, RunError>) -> bool {
    match step_of(pre) {
        Status::Halted(m) => r == Ok::<bool, RunError>(false) && post == pre,
        Status::Running(m) => r == Ok::<bool, RunError>(m.pc < m.code.len()) && post == m,
        Status::Failed(m, e) => r == Err::<bool, RunError>(e) && post == pre,
    }
}

/// `n` dispatches from `m`; a halt or a failure is final.
pub open spec fn run_for(m: Machine, n: nat) -> Status
    decreases n,
{
    if n == 0 {
        Status::Running(m)
    } else {
        match run_for(m, (n - 1) as nat) {
            Status::Running(m2) => step_of(m2),
            s => s,
        }
    }
}

/// The run from `m` ends, in a halt or in a failure.
pub open spec fn halts(m: Machine) -> bool {
    exists|n: nat| !(run_for(m, n) is Running)
}

/// A bit written at a position is what a read of that position then returns,
/// and every other position keeps its bit.
pub proof fn lemma_write_then_read(m: Machine, p: int, v: bool)
    ensures
        (Machine { tape: m.tape.insert(p, v), ..m }).tape[p] == v,
        forall|q: int|
            q != p ==> (Machine { tape: m.tape.insert(p, v), ..m }).tape[q] == m.tape[q],
{
    assert forall|q: int| q != p implies (Machine {
        tape: m.tape.insert(p, v),
        ..m
    }).tape[q] == m.tape[q] by {
        if m.tape.dom().contains(q) {
        }
    }
}

/// An overwrite replaces the earlier bit: writing `true` and then `false` at
/// one position leaves `false` there.
pub proof fn lemma_overwrite(m: Machine, p: int)
    ensures
        (Machine { tape: m.tape.insert(p, true).insert(p, false), ..m }).tape[p] == false,
{
}

/// A position never written reads `false`: the tape a run starts from is
/// blank everywhere.
pub proof fn lemma_unwritten_reads_false(code: Seq<char>, input: Seq<u8>, p: int)
    ensures
        init_machine(code, input).tape[p] == false,
{
}

/// A halt or a failure is final: iterating further changes nothing.
pub proof fn lemma_run_for_final(m: Machine, n1: nat, n2: nat)
    requires
        n1 <= n2,
        !(run_for(m, n1) is Running),
    ensures
        run_for(m, n2) == run_for(m, n1),
    decreases n2,
{
    if n1 < n2 {
        lemma_run_for_final(m, n1, (n2 - 1) as nat);
    }
}

/// A run's end is unique: whenever two iteration counts both reach an end,
/// they reach the same one.  With `run_for` a function of its arguments, a
/// run can thus end in one halt or one failure only.
pub proof fn lemma_run_end_unique(m: Machine, n1: nat, n2: nat)
    requires
        !(run_for(m, n1) is Running),
        !(run_for(m, n2) is Running),
    ensures
        run_for(m, n1) == run_for(m, n2),
{
    if n1 <= n2 {
        lemma_run_for_final(m, n1, n2);
    } else {
        lemma_run_for_final(m, n2, n1);
    }
}

} // verus!
