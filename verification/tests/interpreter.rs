use bunf::bf::{
    exec_BF_instruction, grow_tape, output_char, output_result, run_bf, run_machine, store_input,
    BFInput, BFInterpreter, BFOutput,
};
use bunf::brackets::equalize_brackets;
use bunf::error::BFError;

/// Hands out the characters of a script, then fails.
struct Script {
    chars: Vec<char>,
    next: usize,
}

impl Script {
    fn of(text: &str) -> Self {
        Script { chars: text.chars().collect(), next: 0 }
    }
}

impl BFInput for Script {
    fn read(&mut self) -> Result<char, BFError> {
        match self.chars.get(self.next) {
            Some(c) => {
                self.next += 1;
                Ok(*c)
            }
            None => Err(BFError::InputFailed),
        }
    }
}

/// Keeps every character it is handed, up to a limit.
struct Collect {
    seen: Vec<char>,
    room: usize,
}

impl Collect {
    fn new() -> Self {
        Collect { seen: Vec::new(), room: usize::MAX }
    }
}

impl BFOutput for Collect {
    fn write(&mut self, c: char) -> Result<(), BFError> {
        if self.seen.len() < self.room {
            self.seen.push(c);
            Ok(())
        } else {
            Err(BFError::UnbalancedBrackets)
        }
    }
}

fn step(
    tape: &mut Vec<u32>,
    pointer: usize,
    program: &str,
    counter: usize,
) -> Result<(usize, usize), BFError> {
    let instruction = program.chars().nth(counter).unwrap();
    exec_BF_instruction(
        tape,
        pointer,
        program,
        &mut Script::of(""),
        &mut Collect::new(),
        counter,
        instruction,
    )
}

#[test]
fn forward_scan_finds_the_closing_bracket() {
    assert_eq!(equalize_brackets("[->+<]", 0, 1), Ok(5));
    assert_eq!(equalize_brackets("[[][]]", 0, 1), Ok(5));
    assert_eq!(equalize_brackets("[[][]]", 1, 1), Ok(2));
    assert_eq!(equalize_brackets("+[a[b]c]+", 1, 1), Ok(7));
}

#[test]
fn backward_scan_finds_the_opening_bracket() {
    assert_eq!(equalize_brackets("[->+<]", 5, -1), Ok(0));
    assert_eq!(equalize_brackets("[[][]]", 5, -1), Ok(0));
    assert_eq!(equalize_brackets("[[][]]", 4, -1), Ok(3));
    assert_eq!(equalize_brackets("+[a[b]c]+", 7, -1), Ok(1));
}

#[test]
fn scan_from_a_plain_instruction_stops_at_once() {
    assert_eq!(equalize_brackets("+[-]", 0, 1), Ok(0));
    assert_eq!(equalize_brackets("+[-]", 2, -1), Ok(2));
}

#[test]
fn scan_that_leaves_the_program_is_unbalanced() {
    assert_eq!(equalize_brackets("[[]", 0, 1), Err(BFError::UnbalancedBrackets));
    assert_eq!(equalize_brackets("[]]", 2, -1), Err(BFError::UnbalancedBrackets));
    assert_eq!(equalize_brackets("]", 0, -1), Err(BFError::UnbalancedBrackets));
    assert_eq!(equalize_brackets("[", 0, 1), Err(BFError::UnbalancedBrackets));
    assert_eq!(equalize_brackets("", 0, 1), Err(BFError::UnbalancedBrackets));
    assert_eq!(equalize_brackets("[]", 7, -1), Err(BFError::UnbalancedBrackets));
}

#[test]
fn increment_and_decrement_change_the_current_cell() {
    let mut tape = vec![5, 9];
    assert_eq!(step(&mut tape, 1, "+-", 0), Ok((1, 0)));
    assert_eq!(tape, vec![5, 10]);
    assert_eq!(step(&mut tape, 0, "+-", 1), Ok((0, 1)));
    assert_eq!(tape, vec![4, 10]);
}

#[test]
fn cells_wrap_at_both_ends() {
    let mut tape = vec![0, u32::MAX];
    assert_eq!(step(&mut tape, 0, "-", 0), Ok((0, 0)));
    assert_eq!(step(&mut tape, 1, "+", 0), Ok((1, 0)));
    assert_eq!(tape, vec![u32::MAX, 0]);
}

#[test]
fn moving_left_from_the_first_cell_fails() {
    for tape in [vec![0], vec![7], vec![1, 2, 3], vec![u32::MAX, 0]] {
        let mut cells = tape.clone();
        assert_eq!(step(&mut cells, 0, "<", 0), Err(BFError::NegativeArrayPointer));
        assert_eq!(cells, tape);
    }
}

#[test]
fn moving_left_elsewhere_succeeds() {
    let mut tape = vec![1, 2, 3];
    assert_eq!(step(&mut tape, 2, "<", 0), Ok((1, 0)));
    assert_eq!(tape, vec![1, 2, 3]);
}

#[test]
fn moving_right_at_the_end_grows_the_tape_by_one_zero_cell() {
    let mut tape = vec![4, 5];
    assert_eq!(step(&mut tape, 1, ">", 0), Ok((2, 0)));
    assert_eq!(tape, vec![4, 5, 0]);
}

#[test]
fn moving_right_inside_the_tape_keeps_it() {
    let mut tape = vec![4, 5];
    assert_eq!(step(&mut tape, 0, ">", 0), Ok((1, 0)));
    assert_eq!(tape, vec![4, 5]);
}

#[test]
fn loop_start_jumps_only_on_a_zero_cell() {
    let mut tape = vec![0, 1];
    assert_eq!(step(&mut tape, 0, "+[->+<]", 1), Ok((0, 6)));
    assert_eq!(step(&mut tape, 1, "+[->+<]", 1), Ok((1, 1)));
    assert_eq!(tape, vec![0, 1]);
}

#[test]
fn loop_end_returns_the_counter_before_its_loop_start() {
    let mut tape = vec![0, 1];
    assert_eq!(step(&mut tape, 0, "+[->+<]", 6), Ok((0, 0)));
    assert_eq!(step(&mut tape, 1, "+[->+<]", 6), Ok((1, 0)));
    assert_eq!(step(&mut tape, 1, "[-]", 2), Ok((1, usize::MAX)));
}

#[test]
fn unmatched_brackets_fail_the_step() {
    let mut tape = vec![0];
    assert_eq!(step(&mut tape, 0, "[+", 0), Err(BFError::UnbalancedBrackets));
    assert_eq!(step(&mut tape, 0, "+]", 1), Err(BFError::UnbalancedBrackets));
    assert_eq!(tape, vec![0]);
}

#[test]
fn other_characters_do_nothing() {
    let mut tape = vec![3];
    assert_eq!(step(&mut tape, 0, "a \n", 0), Ok((0, 0)));
    assert_eq!(step(&mut tape, 0, "a \n", 1), Ok((0, 1)));
    assert_eq!(step(&mut tape, 0, "a \n", 2), Ok((0, 2)));
    assert_eq!(tape, vec![3]);
}

#[test]
fn input_is_stored_as_its_code() {
    let mut tape = vec![0, 0];
    let r = exec_BF_instruction(
        &mut tape,
        1,
        ",",
        &mut Script::of("A"),
        &mut Collect::new(),
        0,
        ',',
    );
    assert_eq!(r, Ok((1, 0)));
    assert_eq!(tape, vec![0, 65]);
}

#[test]
fn input_that_is_not_ascii_is_refused() {
    let mut tape = vec![9];
    let r = exec_BF_instruction(
        &mut tape,
        0,
        ",",
        &mut Script::of("\u{e9}"),
        &mut Collect::new(),
        0,
        ',',
    );
    assert_eq!(r, Err(BFError::NonASCIIChar));
    assert_eq!(tape, vec![9]);
}

#[test]
fn missing_input_fails() {
    let mut tape = vec![9];
    let r = exec_BF_instruction(
        &mut tape,
        0,
        ",",
        &mut Script::of(""),
        &mut Collect::new(),
        0,
        ',',
    );
    assert_eq!(r, Err(BFError::InputFailed));
    assert_eq!(tape, vec![9]);
}

#[test]
fn store_input_covers_each_answer() {
    let mut tape = vec![1, 2];
    assert_eq!(store_input(&mut tape, 0, Ok('z')), Ok(()));
    assert_eq!(tape, vec![122, 2]);
    assert_eq!(store_input(&mut tape, 1, Ok('\u{80}')), Err(BFError::NonASCIIChar));
    assert_eq!(store_input(&mut tape, 1, Ok('\u{7f}')), Ok(()));
    assert_eq!(tape, vec![122, 127]);
    assert_eq!(
        store_input(&mut tape, 1, Err(BFError::NegativeArrayPointer)),
        Err(BFError::InputFailed)
    );
    assert_eq!(tape, vec![122, 127]);
}

#[test]
fn output_char_is_the_ascii_character_of_the_cell() {
    assert_eq!(output_char(65), Ok('A'));
    assert_eq!(output_char(0), Ok('\0'));
    assert_eq!(output_char(127), Ok('\u{7f}'));
    assert_eq!(output_char(128), Err(BFError::NonASCIIChar));
    assert_eq!(output_char(321), Err(BFError::NonASCIIChar));
    assert_eq!(output_char(u32::MAX), Err(BFError::NonASCIIChar));
}

#[test]
fn output_result_reports_a_refusal_as_output_failed() {
    assert_eq!(output_result(Ok(())), Ok(()));
    assert_eq!(output_result(Err(BFError::UnbalancedBrackets)), Err(BFError::OutputFailed));
    assert_eq!(output_result(Err(BFError::OutputFailed)), Err(BFError::OutputFailed));
}

#[test]
fn output_hands_the_cell_to_the_sink() {
    let mut tape = vec![33];
    let mut sink = Collect::new();
    let r = exec_BF_instruction(&mut tape, 0, ".", &mut Script::of(""), &mut sink, 0, '.');
    assert_eq!(r, Ok((0, 0)));
    assert_eq!(sink.seen, vec!['!']);
    assert_eq!(tape, vec![33]);
}

#[test]
fn output_of_a_cell_that_is_not_ascii_is_refused() {
    let mut tape = vec![200];
    let mut sink = Collect::new();
    let r = exec_BF_instruction(&mut tape, 0, ".", &mut Script::of(""), &mut sink, 0, '.');
    assert_eq!(r, Err(BFError::NonASCIIChar));
    assert!(sink.seen.is_empty());
}

#[test]
fn a_sink_that_refuses_fails_the_step() {
    let mut tape = vec![33];
    let mut sink = Collect { seen: Vec::new(), room: 0 };
    let r = exec_BF_instruction(&mut tape, 0, ".", &mut Script::of(""), &mut sink, 0, '.');
    assert_eq!(r, Err(BFError::OutputFailed));
}

#[test]
fn grow_tape_appends_zero_cells_up_to_the_pointer() {
    let mut tape: Vec<u32> = vec![];
    grow_tape(&mut tape, 0);
    assert_eq!(tape, vec![0]);
    grow_tape(&mut tape, 3);
    assert_eq!(tape, vec![0, 0, 0, 0]);
    let mut full = vec![7, 8];
    grow_tape(&mut full, 1);
    assert_eq!(full, vec![7, 8]);
}

#[test]
fn move_value_loop_ends_with_the_value_in_the_second_cell() {
    let mut tape = vec![0];
    let r = run_bf(&mut tape, 0, "+++[->+<]", &mut Script::of(""), &mut Collect::new(), 0);
    assert_eq!(r, Ok(()));
    assert_eq!(tape, vec![0, 3]);
}

#[test]
fn run_starts_on_an_empty_tape() {
    let mut tape = vec![];
    let r = run_bf(&mut tape, 2, "+", &mut Script::of(""), &mut Collect::new(), 0);
    assert_eq!(r, Ok(()));
    assert_eq!(tape, vec![0, 0, 1]);
}

#[test]
fn a_loop_at_the_start_of_the_program_runs() {
    let mut tape = vec![3];
    let end = run_machine(&mut tape, 0, "[-]", &mut Script::of(""), &mut Collect::new(), 0, 100);
    assert_eq!(end, (0, 3, Ok(())));
    assert_eq!(tape, vec![0]);
}

#[test]
fn run_reports_where_it_stopped() {
    let mut tape = vec![0];
    let end = run_machine(
        &mut tape,
        0,
        "+++++[->++++++<]>+++.",
        &mut Script::of(""),
        &mut Collect::new(),
        0,
        10_000,
    );
    assert_eq!(end, (1, 21, Ok(())));
    assert_eq!(tape, vec![0, 33]);
}

#[test]
fn run_stops_at_the_step_limit() {
    let mut tape = vec![0];
    let end = run_machine(&mut tape, 0, "+[]", &mut Script::of(""), &mut Collect::new(), 0, 50);
    assert_eq!(end.2, Err(BFError::StepLimitReached));
    assert_eq!(tape, vec![1]);
    let mut short = vec![0];
    let end = run_machine(&mut short, 0, "+++", &mut Script::of(""), &mut Collect::new(), 0, 2);
    assert_eq!(end, (0, 2, Err(BFError::StepLimitReached)));
    assert_eq!(short, vec![2]);
    let mut exact = vec![0];
    let end = run_machine(&mut exact, 0, "+++", &mut Script::of(""), &mut Collect::new(), 0, 3);
    assert_eq!(end, (0, 3, Ok(())));
    assert_eq!(exact, vec![3]);
}

#[test]
fn run_on_balanced_programs_is_never_unbalanced() {
    for program in ["", "[]", "+[-]", "[[]]", "+[>+[-]<-]", "++[>++[>++<-]<-]"] {
        let mut tape = vec![0];
        let r = run_bf(&mut tape, 0, program, &mut Script::of(""), &mut Collect::new(), 0);
        assert_eq!(r, Ok(()));
    }
}

#[test]
fn run_fails_at_an_unmatched_bracket_it_has_to_resolve() {
    for program in ["[", "]", "+]", "[[]", "+[-]]"] {
        let mut tape = vec![0];
        let r = run_bf(&mut tape, 0, program, &mut Script::of(""), &mut Collect::new(), 0);
        assert_eq!(r, Err(BFError::UnbalancedBrackets));
    }
}

#[test]
fn run_keeps_the_mutations_made_before_a_failure() {
    let mut tape = vec![0];
    let r = run_bf(&mut tape, 0, "++>+<<+", &mut Script::of(""), &mut Collect::new(), 0);
    assert_eq!(r, Err(BFError::NegativeArrayPointer));
    assert_eq!(tape, vec![2, 1]);
}

#[test]
fn character_read_is_the_character_written() {
    let mut tape = vec![0];
    let mut source = Script::of("A");
    let mut sink = Collect::new();
    assert_eq!(run_bf(&mut tape, 0, ",", &mut source, &mut sink, 0), Ok(()));
    assert_eq!(tape, vec![65]);
    assert!(sink.seen.is_empty());
    assert_eq!(run_bf(&mut tape, 0, ".", &mut source, &mut sink, 0), Ok(()));
    assert_eq!(sink.seen, vec!['A']);
}

#[test]
fn interpreter_starts_on_one_zero_cell() {
    let interp = BFInterpreter::new(String::from("+"), Script::of(""), Collect::new());
    assert_eq!(interp.array, vec![0]);
    assert_eq!(interp.array_pointer, 0);
    assert_eq!(interp.program_index, 0);
    assert_eq!(interp.program, "+");
}

#[test]
fn exec_one_keeps_the_returned_pointer_and_counter() {
    let mut interp = BFInterpreter::new(String::from(">]"), Script::of(""), Collect::new());
    assert_eq!(interp.exec_one(), Ok(()));
    assert_eq!(interp.array, vec![0, 0]);
    assert_eq!(interp.array_pointer, 1);
    assert_eq!(interp.program_index, 0);
    interp.program_index = 1;
    assert_eq!(interp.exec_one(), Err(BFError::UnbalancedBrackets));
    assert_eq!(interp.array_pointer, 1);
    assert_eq!(interp.program_index, 1);
}

#[test]
fn exec_one_past_the_end_is_an_invalid_index() {
    let mut interp = BFInterpreter::new(String::from("+"), Script::of(""), Collect::new());
    interp.program_index = 1;
    assert_eq!(interp.exec_one(), Err(BFError::InvalidInstructionIndex));
    assert_eq!(interp.array, vec![0]);
    let mut empty = BFInterpreter::new(String::new(), Script::of(""), Collect::new());
    assert_eq!(empty.exec_one(), Err(BFError::InvalidInstructionIndex));
}

#[test]
fn interpreter_run_and_reset() {
    let mut interp = BFInterpreter::new(
        String::from("+++++[->++++++<]>+++."),
        Script::of(""),
        Collect::new(),
    );
    assert_eq!(interp.run(), Ok(()));
    assert_eq!(interp.array, vec![0, 33]);
    assert_eq!(interp.array_pointer, 1);
    assert_eq!(interp.program_index, 21);
    assert_eq!(interp.output.seen, vec!['!']);
    interp.reset();
    assert_eq!(interp.array, vec![0]);
    assert_eq!(interp.array_pointer, 0);
    assert_eq!(interp.program_index, 0);
    assert_eq!(interp.program, "+++++[->++++++<]>+++.");
}

#[test]
fn interpreter_run_can_be_resumed_after_the_step_limit() {
    let mut interp = BFInterpreter::new(String::from("++++"), Script::of(""), Collect::new());
    assert_eq!(interp.run_for(3), Err(BFError::StepLimitReached));
    assert_eq!(interp.array, vec![3]);
    assert_eq!(interp.program_index, 3);
    assert_eq!(interp.run_for(3), Ok(()));
    assert_eq!(interp.array, vec![4]);
    assert_eq!(interp.program_index, 4);
}

#[test]
fn error_names() {
    assert_eq!(BFError::UnbalancedBrackets.to_string(), "UnbalancedBrackets");
    assert_eq!(BFError::NegativeArrayPointer.to_string(), "NegativeArrayPointer");
    assert_eq!(BFError::NonASCIIChar.to_string(), "NonASCIIChar");
    assert_eq!(BFError::InvalidInstructionIndex.to_string(), "InvalidInstructionIndex");
    assert_eq!(BFError::InputFailed.to_string(), "InputFailed");
    assert_eq!(BFError::OutputFailed.to_string(), "OutputFailed");
    assert_eq!(BFError::StepLimitReached.to_string(), "StepLimitReached");
}

#[test]
fn stepping_with_advance_walks_through_a_loop_at_the_start() {
    let mut interp = BFInterpreter::new(String::from("[-]+"), Script::of(""), Collect::new());
    interp.array = vec![2];
    let mut counters = Vec::new();
    while interp.program_index < 4 {
        assert_eq!(interp.exec_one(), Ok(()));
        interp.advance();
        counters.push(interp.program_index);
    }
    assert_eq!(counters, vec![1, 2, 0, 1, 2, 0, 3, 4]);
    assert_eq!(interp.array, vec![1]);
    assert_eq!(interp.exec_one(), Err(BFError::InvalidInstructionIndex));
}

#[test]
fn advance_wraps_from_the_largest_counter() {
    let mut interp = BFInterpreter::new(String::from("+"), Script::of(""), Collect::new());
    interp.program_index = usize::MAX;
    interp.advance();
    assert_eq!(interp.program_index, 0);
    interp.advance();
    assert_eq!(interp.program_index, 1);
}
