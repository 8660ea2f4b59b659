//! The executable interpreter state and its operations.

use vstd::prelude::*;
use crate::brackets::{
    backward_match_at, bracket_weight, depth, forward_match_at, is_backward_match,
    is_forward_match, lemma_backward_match_unique, lemma_depth_split, lemma_forward_match_unique,
};
use crate::model::{
    halts, has_backward_match, has_forward_match, init_machine, lemma_run_for_final, input_bit_of, pushed_output, run_for,
    step_of, step_post, the_backward_match, the_forward_match, Machine, RunError, Status,
};

verus! {

/// The interpreter state: tape, head, both bit streams, program and counter.
///
/// The tape is stored as two growable halves: `pos_tape[i]` holds position
/// `i`, `neg_tape[i]` holds position `-i - 1`; cells outside both read as
/// `false`.
pub struct State {
    /// The head position on the tape.
    pub pos: i128,
    pos_tape: Vec<bool>,
    neg_tape: Vec<bool>,
    input: Vec<u8>,
    input_bit: u128,
    /// The output bytes produced so far.
    pub output: Vec<u8>,
    output_bit: u128,
    code: Vec<char>,
    /// The program counter.
    pub code_index: usize,
}

/// The bit at position `p` of a tape stored as two growable halves.
pub open spec fn stored_bit(pos_tape: Seq<bool>, neg_tape: Seq<bool>, p: int) -> bool {
    if p >= 0 {
        if p < pos_tape.len() {
            pos_tape[p]
        } else {
            false
        }
    } else {
        if -p - 1 < neg_tape.len() {
            neg_tape[-p - 1]
        } else {
            false
        }
    }
}

impl View for State {
    type V = Machine;

    closed spec fn view(&self) -> Machine {
        Machine {
            tape: Map::total(|p: int| stored_bit(self.pos_tape@, self.neg_tape@, p)),
            head: self.pos as int,
            input: self.input@,
            in_cursor: self.input_bit as nat,
            output: self.output@,
            out_cursor: self.output_bit as nat,
            code: self.code@,
            pc: self.code_index as nat,
        }
    }
}

impl State {
    /// The stored halves reach the head, the cursors do not outrun their
    /// streams, and the output holds its initial byte.
    pub closed spec fn wf(self) -> bool {
        &&& -(self.neg_tape@.len() as int) <= self.pos as int <= self.pos_tape@.len() as int
        &&& self.input_bit as int <= 8 * self.input@.len()
        &&& self.output_bit as int <= 8 * self.output@.len()
        &&& self.output@.len() >= 1
    }

    /// A fresh run of `code` on `input`: head at 0, blank tape, cursors at 0,
    /// the output holding one zero byte.
    pub fn new(code: Vec<char>, input: Vec<u8>) -> (s: State)
        ensures
            s.wf(),
            s@ == init_machine(code@, input@),
    {
        let s = State {
            pos: 0,
            pos_tape: Vec::new(),
            neg_tape: Vec::new(),
            input,
            input_bit: 0,
            output: vec![0u8],
            output_bit: 0,
            code,
            code_index: 0,
        };
        proof {
            assert(s@ =~~= init_machine(s.code@, s.input@));
        }
        s
    }

    /// Grow `tape` with `false` cells until `index` is in range, then write
    /// `bit` there.
    fn tape_write(tape: &mut Vec<bool>, index: usize, bit: bool)
        ensures
            final(tape)@.len() == (if index < old(tape)@.len() {
                old(tape)@.len() as int
            } else {
                index + 1
            }),
            forall|k: int|
                0 <= k < final(tape)@.len() ==> final(tape)@[k] == (if k == index {
                    bit
                } else if k < old(tape)@.len() {
                    old(tape)@[k]
                } else {
                    false
                }),
    {
        while tape.len() <= index
            invariant
                tape@.len() <= (if old(tape)@.len() as int >= index + 1 {
                    old(tape)@.len() as int
                } else {
                    index + 1
                }),
                forall|k: int| 0 <= k < old(tape)@.len() ==> tape@[k] == old(tape)@[k],
                forall|k: int| old(tape)@.len() <= k < tape@.len() ==> tape@[k] == false,
                old(tape)@.len() <= tape@.len(),
            decreases index + 1 - tape@.len(),
        {
            tape.push(false);
        }
        tape[index] = bit;
    }

    /// Read the bit under the head; a cell never written reads as `false`.
    pub fn get_bit(&self) -> (r: bool)
        requires
            self.wf(),
        ensures
            r == self@.tape[self@.head],
    {
        if self.pos >= 0 {
            let idx = self.pos as usize;
            if idx < self.pos_tape.len() {
                self.pos_tape[idx]
            } else {
                false
            }
        } else {
            let n = self.neg_tape.len();
            let idx = (-self.pos - 1) as usize;
            if idx < n {
                self.neg_tape[idx]
            } else {
                false
            }
        }
    }

    /// Write `bit` under the head, growing the stored half when the head
    /// stands at a new extreme position.
    pub fn set_bit(&mut self, bit: bool)
        requires
            old(self).wf(),
        ensures
            final(self).wf(),
            final(self)@ == (Machine {
                tape: old(self)@.tape.insert(old(self)@.head, bit),
                ..old(self)@
            }),
    {
        if self.pos >= 0 {
            // Reading the length bounds the stored half by usize, which in
            // turn bounds the head, so the cast below loses nothing.
            let n = self.pos_tape.len();
            let idx = self.pos as usize;
            Self::tape_write(&mut self.pos_tape, idx, bit);
            proof {
                assert(forall|p: int| #![auto]
                    stored_bit(self.pos_tape@, self.neg_tape@, p)
                        == old(self)@.tape.insert(old(self)@.head, bit)[p]);
            }
        } else {
            // As above: the length bounds the head from below.
            let n = self.neg_tape.len();
            let idx = (-self.pos - 1) as usize;
            Self::tape_write(&mut self.neg_tape, idx, bit);
            proof {
                assert(forall|p: int| #![auto]
                    stored_bit(self.pos_tape@, self.neg_tape@, p)
                        == old(self)@.tape.insert(old(self)@.head, bit)[p]);
            }
        }
        proof {
            assert(self@ =~~= Machine {
                tape: old(self)@.tape.insert(old(self)@.head, bit),
                ..old(self)@
            });
        }
    }

    /// Read the next input bit, least-significant-bit first within each byte;
    /// fails once the input has no byte for the cursor.
    pub fn get_input_bit(&mut self) -> (r: Result<bool, RunError>)
        requires
            old(self).wf(),
        ensures
            final(self).wf(),
            old(self)@.in_cursor / 8 < old(self)@.input.len() ==> {
                &&& r == Ok::<bool, RunError>(
                    input_bit_of(old(self)@.input, old(self)@.in_cursor as int),
                )
                &&& final(self)@ == (Machine { in_cursor: old(self)@.in_cursor + 1, ..old(self)@ })
            },
            old(self)@.in_cursor / 8 >= old(self)@.input.len() ==> {
                &&& r == Err::<bool, RunError>(
                    RunError::InputExhausted { bit: old(self)@.in_cursor as u128 },
                )
                &&& final(self)@ == old(self)@
            },
    {
        let n = self.input.len();
        let byte_index = self.input_bit / 8;
        if byte_index < n as u128 {
            let word = self.input[byte_index as usize];
            let shift = (self.input_bit % 8) as u8;
            let bit = ((word >> shift) & 1) == 1;
            self.input_bit = self.input_bit + 1;
            proof {
                assert(self@ =~~= Machine { in_cursor: old(self)@.in_cursor + 1, ..old(self)@ });
            }
            Ok(bit)
        } else {
            Err(RunError::InputExhausted { bit: self.input_bit })
        }
    }

    /// Produce one output bit, least-significant-bit first within each byte;
    /// a zero byte is appended when the cursor's byte is not yet covered.
    pub fn push_output_bit(&mut self, bit: bool)
        requires
            old(self).wf(),
        ensures
            final(self).wf(),
            final(self)@ == (Machine {
                output: pushed_output(old(self)@.output, old(self)@.out_cursor, bit),
                out_cursor: old(self)@.out_cursor + 1,
                ..old(self)@
            }),
    {
        let n = self.output.len();
        let byte_index = self.output_bit / 8;
        if byte_index >= n as u128 {
            self.output.push(0);
        }
        if bit {
            let idx = byte_index as usize;
            let shift = (self.output_bit % 8) as u8;
            let word = self.output[idx];
            self.output[idx] = word | (1u8 << shift);
        }
        self.output_bit = self.output_bit + 1;
        proof {
            assert(self@.output =~= pushed_output(old(self)@.output, old(self)@.out_cursor, bit));
            assert(self@ =~~= Machine {
                output: pushed_output(old(self)@.output, old(self)@.out_cursor, bit),
                out_cursor: old(self)@.out_cursor + 1,
                ..old(self)@
            });
        }
    }

    /// Find the jump target for the bracket at the program counter.
    ///
    /// For `[`, scan forward for the `]` that closes it and land one past it;
    /// for `]`, scan backward for the `[` that opens it and land on it.
    /// Fails when the edge of the program is reached first.
    pub fn get_matching_bracket(&self, init_char: char) -> (r: Result<usize, RunError>)
        requires
            self@.pc < self@.code.len(),
            init_char == '[' || init_char == ']',
        ensures
            init_char == '[' ==> match r {
                Ok(t) => t >= 1 && forward_match_at(self@.code, self@.pc as int, t - 1),
                Err(e) => {
                    &&& e == (RunError::UnbalancedBrackets { pc: self@.pc as usize })
                    &&& forall|j: int| !is_forward_match(self@.code, self@.pc as int, j)
                },
            },
            init_char == ']' ==> match r {
                Ok(t) => backward_match_at(self@.code, self@.pc as int, t as int),
                Err(e) => {
                    &&& e == (RunError::UnbalancedBrackets { pc: self@.pc as usize })
                    &&& forall|i: int| !is_backward_match(self@.code, self@.pc as int, i)
                },
            },
    {
        let start = self.code_index;
        let code_len = self.code.len();
        if init_char == '[' {
            let mut idx: usize = start;
            let mut nest: usize = 0;
            loop
                invariant
                    init_char == '[',
                    start == self.code_index,
                    code_len == self@.code.len(),
                    start <= idx < self@.code.len(),
                    nest == depth(self@.code, start + 1, idx + 1),
                    nest <= idx - start,
                    forall|k: int|
                        start < k <= idx ==> !is_forward_match(self@.code, start as int, k),
                decreases self@.code.len() - idx,
            {
                if idx + 1 == code_len {
                    return Err(RunError::UnbalancedBrackets { pc: start });
                }
                idx = idx + 1;
                let c = self.code[idx];
                if c == '[' {
                    nest = nest + 1;
                } else if c == ']' {
                    if nest > 0 {
                        nest = nest - 1;
                    } else {
                        return Ok(idx + 1);
                    }
                }
            }
        } else {
            let mut idx: usize = start;
            let mut nest: usize = 0;
            loop
                invariant
                    init_char == ']',
                    start == self.code_index,
                    idx <= start < self@.code.len(),
                    nest == -depth(self@.code, idx as int, start as int),
                    nest <= start - idx,
                    forall|k: int|
                        idx <= k < start ==> !is_backward_match(self@.code, start as int, k),
                decreases idx,
            {
                if idx == 0 {
                    return Err(RunError::UnbalancedBrackets { pc: start });
                }
                idx = idx - 1;
                proof {
                    lemma_depth_split(self@.code, idx as int, idx + 1, start as int);
                    assert(depth(self@.code, idx as int, idx + 1)
                        == depth(self@.code, idx as int, idx as int)
                            + bracket_weight(self@.code[idx as int]));
                    assert(depth(self@.code, idx as int, idx as int) == 0);
                }
                let c = self.code[idx];
                if c == ']' {
                    nest = nest + 1;
                } else if c == '[' {
                    if nest > 0 {
                        nest = nest - 1;
                    } else {
                        return Ok(idx);
                    }
                }
            }
        }
    }

    /// Move the head one cell to the left, keeping the stored half in reach.
    fn move_left(&mut self)
        requires
            old(self).wf(),
        ensures
            final(self).wf(),
            final(self)@ == (Machine { head: old(self)@.head - 1, ..old(self)@ }),
    {
        let n = self.neg_tape.len();
        self.pos = self.pos - 1;
        if self.pos < -(n as i128) {
            self.neg_tape.push(false);
        }
        proof {
            assert(forall|p: int| #![auto]
                stored_bit(self.pos_tape@, self.neg_tape@, p)
                    == stored_bit(old(self).pos_tape@, old(self).neg_tape@, p));
            assert(self@ =~~= Machine { head: old(self)@.head - 1, ..old(self)@ });
        }
    }

    /// Move the head one cell to the right, keeping the stored half in reach.
    fn move_right(&mut self)
        requires
            old(self).wf(),
        ensures
            final(self).wf(),
            final(self)@ == (Machine { head: old(self)@.head + 1, ..old(self)@ }),
    {
        let n = self.pos_tape.len();
        self.pos = self.pos + 1;
        if self.pos > n as i128 {
            self.pos_tape.push(false);
        }
        proof {
            assert(forall|p: int| #![auto]
                stored_bit(self.pos_tape@, self.neg_tape@, p)
                    == stored_bit(old(self).pos_tape@, old(self).neg_tape@, p));
            assert(self@ =~~= Machine { head: old(self)@.head + 1, ..old(self)@ });
        }
    }

    /// Execute one instruction: dispatch on the character at the program
    /// counter, then advance it unless a jump was taken.  Returns whether the
    /// counter still stands on the program; finding it already past the end
    /// halts the run successfully.
    pub fn step(&mut self) -> (r: Result<bool, RunError>)
        requires
            old(self).wf(),
        ensures
            final(self).wf(),
            step_post(old(self)@, final(self)@, r),
    {
        let ghost pre = old(self)@;
        if self.code_index >= self.code.len() {
            return Ok(false);
        }
        let command = self.code[self.code_index];
        let mut jumped = false;
        if command == '+' {
            let b = self.get_bit();
            self.set_bit(!b);
        } else if command == ',' {
            match self.get_input_bit() {
                Ok(b) => {
                    self.set_bit(b);
                },
                Err(e) => {
                    return Err(e);
                },
            }
        } else if command == ';' {
            let b = self.get_bit();
            self.push_output_bit(b);
        } else if command == '<' {
            self.move_left();
        } else if command == '>' {
            self.move_right();
        } else if command == '[' {
            if !self.get_bit() {
                match self.get_matching_bracket('[') {
                    Ok(t) => {
                        proof {
                            lemma_forward_match_unique(
                                pre.code,
                                pre.pc as int,
                                the_forward_match(pre.code, pre.pc as int),
                                t - 1,
                            );
                        }
                        self.code_index = t;
                        jumped = true;
                    },
                    Err(e) => {
                        proof {
                            assert(!has_forward_match(pre.code, pre.pc as int));
                        }
                        return Err(e);
                    },
                }
            }
        } else if command == ']' {
            if self.get_bit() {
                match self.get_matching_bracket(']') {
                    Ok(t) => {
                        proof {
                            lemma_backward_match_unique(
                                pre.code,
                                pre.pc as int,
                                the_backward_match(pre.code, pre.pc as int),
                                t as int,
                            );
                        }
                        self.code_index = t;
                        jumped = true;
                    },
                    Err(e) => {
                        proof {
                            assert(!has_backward_match(pre.code, pre.pc as int));
                        }
                        return Err(e);
                    },
                }
            }
        }
        if !jumped {
            self.code_index = self.code_index + 1;
        }
        proof {
            assert(step_of(pre) is Running);
            assert(self@ =~~= step_of(pre)->Running_0);
        }
        Ok(self.code_index < self.code.len())
    }

    /// A copy of the bytes in `v`.
    fn copy_bytes(v: &Vec<u8>) -> (out: Vec<u8>)
        ensures
            out@ == v@,
    {
        let mut out: Vec<u8> = Vec::new();
        let mut i: usize = 0;
        while i < v.len()
            invariant
                i <= v@.len(),
                out@ == v@.subrange(0, i as int),
            decreases v@.len() - i,
        {
            out.push(v[i]);
            i = i + 1;
            proof {
                assert(out@ =~= v@.subrange(0, i as int));
            }
        }
        proof {
            assert(out@ =~= v@);
        }
        out
    }

    /// Run to completion: step until the counter passes the end of the
    /// program, yielding the output bytes, or until an instruction fails,
    /// yielding the failure.  The caller must know that the run ends; on a
    /// program that loops forever this call would never return, and no bound
    /// is imposed here.
    pub fn run(&mut self) -> (r: Result<Vec<u8>, RunError>)
        requires
            old(self).wf(),
            halts(old(self)@),
        ensures
            final(self).wf(),
            match r {
                Ok(out) => out@ == final(self)@.output && (exists|n: nat|
                    #[trigger] run_for(old(self)@, n) == Status::Halted(final(self)@)),
                Err(e) => (exists|n: nat|
                    #[trigger] run_for(old(self)@, n) == Status::Failed(final(self)@, e)),
            },
    {
        let ghost m0 = old(self)@;
        let ghost n_end = choose|n: nat| !(run_for(m0, n) is Running);
        let ghost mut steps: nat = 0nat;
        loop
            invariant
                self.wf(),
                m0 == old(self)@,
                run_for(m0, steps) == Status::Running(self@),
                (!(run_for(m0, n_end) is Running)),
            decreases n_end - steps,
        {
            proof {
                if n_end <= steps {
                    lemma_run_for_final(m0, n_end, steps);
                    assert(false);
                }
            }
            let ghost cur = self@;
            match self.step() {
                Ok(true) => {
                    proof {
                        steps = (steps + 1) as nat;
                        assert(run_for(m0, steps) == Status::Running(self@));
                    }
                },
                Ok(false) => {
                    proof {
                        if step_of(cur) is Halted {
                            assert(run_for(m0, (steps + 1) as nat) == Status::Halted(self@));
                        } else {
                            assert(run_for(m0, (steps + 1) as nat) == Status::Running(self@));
                            assert(run_for(m0, (steps + 2) as nat) == Status::Halted(self@));
                        }
                    }
                    let out = Self::copy_bytes(&self.output);
                    return Ok(out);
                },
                Err(e) => {
                    proof {
                        assert(run_for(m0, (steps + 1) as nat) == Status::Failed(self@, e));
                    }
                    return Err(e);
                },
            }
        }
    }
}

} // verus!
