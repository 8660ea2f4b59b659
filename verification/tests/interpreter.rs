use boolfuck::{RunError, State};

#[test]
fn test_bit_setting() {
    // Check we can set bits and move around on the tape
    let mut state = State::new(Vec::new(), Vec::new());
    state.set_bit(false);
    assert!(!state.get_bit());
    state.set_bit(true);
    assert!(state.get_bit());

    state.pos = 17;

    state.set_bit(true);
    assert!(state.get_bit());
    state.set_bit(false);
    assert!(!state.get_bit());

    state.pos = 0;
    assert!(state.get_bit());
}

#[test]
fn test_negative_bit_setting() {
    // Check we can set bits at negative positions and move around on the tape
    let mut state = State::new(Vec::new(), Vec::new());
    state.pos = 1;
    state.set_bit(true);
    state.pos = -1;
    state.set_bit(true);
    state.pos = 1;
    assert!(state.get_bit());
    state.pos = -1;
    assert!(state.get_bit());
}

#[test]
fn test_get_input_bit() {
    // Should read little-endian order
    let mut state = State::new(Vec::new(), vec![0b10100011]);
    assert_eq!(state.get_input_bit(), Ok(true));
    assert_eq!(state.get_input_bit(), Ok(true));
    assert_eq!(state.get_input_bit(), Ok(false));
    assert_eq!(state.get_input_bit(), Ok(false));
    assert_eq!(state.get_input_bit(), Ok(false));
    assert_eq!(state.get_input_bit(), Ok(true));
    assert_eq!(state.get_input_bit(), Ok(false));
    assert_eq!(state.get_input_bit(), Ok(true));
}

#[test]
fn test_push_output_bit() {
    // Should write little-endian order
    let mut state = State::new(Vec::new(), Vec::new());
    state.push_output_bit(true);
    state.push_output_bit(false);
    state.push_output_bit(false);
    state.push_output_bit(false);
    state.push_output_bit(true);
    state.push_output_bit(false);
    state.push_output_bit(true);
    state.push_output_bit(false);
    assert_eq!(state.output, vec![0b01010001])
}

#[test]
fn test_jump_to_matching_bracket() {
    let mut state = State::new(vec!['[', '[', ']', '[', ']', ']'], Vec::new());

    // Check we jump from first to just after last
    state.code_index = 0;
    state.set_bit(false);
    assert_eq!(state.get_matching_bracket('['), Ok(6));
    state.code_index = 5;
    state.set_bit(true);
    assert_eq!(state.get_matching_bracket(']'), Ok(0));

    state.code_index = 3;
    state.set_bit(false);
    assert_eq!(state.get_matching_bracket('['), Ok(5));
    state.code_index = 4;
    state.set_bit(true);
    assert_eq!(state.get_matching_bracket(']'), Ok(3));
}

#[test]
fn test_ignored_chars() {
    let mut state = State::new(vec!['+', ' ', '+'], Vec::new());
    assert_eq!(state.step(), Ok(true));
    assert!(state.get_bit());
    assert_eq!(state.step(), Ok(true));
    assert!(state.get_bit());
    assert_eq!(state.step(), Ok(false));
    assert!(!state.get_bit());
}

#[test]
fn test_ignored_jumps() {
    let mut state = State::new(vec!['[', ' ', ']'], Vec::new());

    state.pos = 0;
    state.set_bit(true);
    assert_eq!(state.step(), Ok(true));
    assert_eq!(state.code_index, 1);

    assert_eq!(state.step(), Ok(true)); // Move past the blank char

    state.set_bit(false);
    assert_eq!(state.step(), Ok(false));
    assert_eq!(state.code_index, 3);
}

#[test]
fn test_run() {
    let code = ";;;+;+;;+;+;+;+;+;+;;+;;+;;;+;;+;+;;+;;;+;;+;+;;+;+;;;;+;+;;+;;;+;;+;+;+;;;;;;;+;+;;+;;;+;+;;;+;+;;;;+;+;;+;;+;+;;+;;;+;;;+;;+;+;;+;;;+;+;;+;;+;+;+;;;;+;+;;;+;+;+;";
    let input = vec![];
    let result = State::new(code.chars().collect(), input).run();
    assert_eq!(result, Ok("Hello, world!\n".as_bytes().to_vec()));
}

#[test]
fn test_overwrite_reads_back_false() {
    // Overwrite is idempotent in effect: true then false leaves false
    let mut state = State::new(Vec::new(), Vec::new());
    state.pos = 3;
    state.set_bit(true);
    state.set_bit(false);
    assert!(!state.get_bit());
}

#[test]
fn test_unwritten_positions_read_false() {
    let mut state = State::new(Vec::new(), Vec::new());
    assert!(!state.get_bit());
    state.pos = 1000;
    assert!(!state.get_bit());
    state.pos = -1000;
    assert!(!state.get_bit());
}

#[test]
fn test_unbalanced_bracket_fails() {
    // A lone '[' on a blank tape must fail, not loop or read out of bounds
    let result = State::new(vec!['['], Vec::new()).run();
    assert_eq!(result, Err(RunError::UnbalancedBrackets { pc: 0 }));
}

#[test]
fn test_unbalanced_closer_fails() {
    // A lone ']' on a true cell must fail toward the left edge
    let mut state = State::new(vec![']'], Vec::new());
    state.set_bit(true);
    let result = state.run();
    assert_eq!(result, Err(RunError::UnbalancedBrackets { pc: 0 }));
}

#[test]
fn test_input_exhausted_fails() {
    // A ',' with no input must fail, not default to false
    let result = State::new(vec![','], Vec::new()).run();
    assert_eq!(result, Err(RunError::InputExhausted { bit: 0 }));
}

#[test]
fn test_empty_program_halts() {
    // The output buffer starts as one zero byte and is yielded as is
    let result = State::new(Vec::new(), Vec::new()).run();
    assert_eq!(result, Ok(vec![0]));
}

#[test]
fn test_input_copied_to_output() {
    // ',' reads a bit, ';' writes the bit under the head
    let result = State::new(vec![',', ';'], vec![1]).run();
    assert_eq!(result, Ok(vec![1]));
}

#[test]
fn test_output_buffer_grows_when_uncovered() {
    // Nine output bits cross a byte boundary: the buffer gains a zero byte
    let code: Vec<char> = ";;;;;;;;;".chars().collect();
    let result = State::new(code, Vec::new()).run();
    assert_eq!(result, Ok(vec![0, 0]));
}

#[test]
fn test_moves_and_flip() {
    // '>' and '<' move the head; '+' flips the bit under it
    let code: Vec<char> = ">+;<;".chars().collect();
    let result = State::new(code, Vec::new()).run();
    // Bit 0 of the output is the flipped cell, bit 1 the untouched origin
    assert_eq!(result, Ok(vec![0b01]));
}

#[test]
fn test_forward_jump_skips_body() {
    // With a false cell, '[' jumps one past its ']': the ',' inside never
    // runs, so the single input bit is left unread instead of failing
    let code: Vec<char> = "[,];".chars().collect();
    let result = State::new(code, vec![1]).run();
    assert_eq!(result, Ok(vec![0]));
}

#[test]
fn test_backward_jump_repeats_body() {
    // With a true cell, ']' jumps back onto its '[': the body runs once more
    let code: Vec<char> = ",[;,];".chars().collect();
    let result = State::new(code, vec![0b011]).run();
    assert_eq!(result, Ok(vec![0b011]));
}
