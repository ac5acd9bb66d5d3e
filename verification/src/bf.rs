//! The tape machine: one instruction at a time against a growable tape, with
//! input and output supplied by the caller.

use crate::brackets::{balanced, bracket_match, equalize_brackets, lemma_balanced_scans_stop};
use crate::error::BFError;
use vstd::prelude::*;
use vstd::string::*;

verus! {

/// A source of input characters. `Err` means that none is available; the
/// machine reports it as `InputFailed` whatever the error says.
pub trait BFInput {
    fn read(&mut self) -> Result<char, BFError>;
}

/// A sink for output characters. `Err` means that the character was not
/// taken; the machine reports it as `OutputFailed` whatever the error says.
pub trait BFOutput {
    fn write(&mut self, c: char) -> Result<(), BFError>;
}

/// What the two capabilities answer when one instruction consults them:
/// the character read, if any, and whether the character written was taken.
pub struct IoAnswer {
    pub read: Option<char>,
    pub written: bool,
}

/// The machine as the contracts see it: the cells, the cell pointer and the
/// program counter.
pub struct Machine {
    pub tape: Seq<u32>,
    pub pointer: int,
    pub counter: int,
}

/// A cell after `+`: one more, and zero after the largest value.
pub open spec fn incremented(cell: u32) -> u32 {
    if cell == u32::MAX {
        0
    } else {
        (cell + 1) as u32
    }
}

/// A cell after `-`: one less, and the largest value after zero.
pub open spec fn decremented(cell: u32) -> u32 {
    if cell == 0 {
        u32::MAX
    } else {
        (cell - 1) as u32
    }
}

/// The counter that the caller's advance turns into `j`. For the first
/// instruction that is the largest counter, which advances to zero.
pub open spec fn counter_before(j: int) -> int {
    if j == 0 {
        usize::MAX as int
    } else {
        j - 1
    }
}

/// The counter after the caller's advance by one.
pub open spec fn advanced(counter: int) -> int {
    if counter == usize::MAX {
        0
    } else {
        counter + 1
    }
}

/// The tape after `,` has consulted the input capability.
pub open spec fn input_spec(tape: Seq<u32>, pointer: int, read: Option<char>) -> Result<
    Seq<u32>,
    BFError,
> {
    match read {
        None => Err(BFError::InputFailed),
        Some(c) => if (c as u32) < 128 {
            Ok(tape.update(pointer, c as u32))
        } else {
            Err(BFError::NonASCIIChar)
        },
    }
}

/// The character that `.` hands to the output capability for a cell.
pub open spec fn output_spec(cell: u32) -> Result<char, BFError> {
    if cell < 128 {
        Ok(cell as char)
    } else {
        Err(BFError::NonASCIIChar)
    }
}

/// An ASCII character that `,` stores is the character that `.` hands out
/// for the cell.
pub proof fn lemma_stored_character_is_written(tape: Seq<u32>, pointer: int, c: char)
    requires
        0 <= pointer < tape.len(),
        (c as u32) < 128,
    ensures
        match input_spec(tape, pointer, Some(c)) {
            Ok(after) => output_spec(after[pointer]) == Ok::<char, BFError>(c),
            Err(_) => false,
        },
{
}

/// One instruction: the machine after it, the counter not yet advanced, or
/// the error that it fails with. `io` is consulted by `,` and `.` only.
pub open spec fn step_spec(p: Seq<char>, m: Machine, instruction: char, io: IoAnswer) -> Result<
    Machine,
    BFError,
> {
    if instruction == '+' {
        Ok(Machine { tape: m.tape.update(m.pointer, incremented(m.tape[m.pointer])), ..m })
    } else if instruction == '-' {
        Ok(Machine { tape: m.tape.update(m.pointer, decremented(m.tape[m.pointer])), ..m })
    } else if instruction == '>' {
        Ok(
            Machine {
                tape: if m.pointer + 1 == m.tape.len() {
                    m.tape.push(0)
                } else {
                    m.tape
                },
                pointer: m.pointer + 1,
                ..m
            },
        )
    } else if instruction == '<' {
        if m.pointer == 0 {
            Err(BFError::NegativeArrayPointer)
        } else {
            Ok(Machine { pointer: m.pointer - 1, ..m })
        }
    } else if instruction == '[' {
        if m.tape[m.pointer] == 0 {
            match bracket_match(p, m.counter, 1) {
                Some(j) => Ok(Machine { counter: j, ..m }),
                None => Err(BFError::UnbalancedBrackets),
            }
        } else {
            Ok(m)
        }
    } else if instruction == ']' {
        match bracket_match(p, m.counter, -1) {
            Some(j) => Ok(Machine { counter: counter_before(j), ..m }),
            None => Err(BFError::UnbalancedBrackets),
        }
    } else if instruction == ',' {
        match input_spec(m.tape, m.pointer, io.read) {
            Ok(tape) => Ok(Machine { tape, ..m }),
            Err(e) => Err(e),
        }
    } else if instruction == '.' {
        match output_spec(m.tape[m.pointer]) {
            Ok(_) => if io.written {
                Ok(m)
            } else {
                Err(BFError::OutputFailed)
            },
            Err(e) => Err(e),
        }
    } else {
        Ok(m)
    }
}

/// Whether an instruction consults a capability.
pub open spec fn is_io(instruction: char) -> bool {
    instruction == ',' || instruction == '.'
}

/// The answer of capabilities that have nothing to give and take nothing.
pub open spec fn no_io() -> IoAnswer {
    IoAnswer { read: None, written: false }
}

/// What a step hands back, as a machine: the tape it left behind with the
/// pointer and counter it returned.
pub open spec fn step_outcome(tape: Seq<u32>, r: Result<(usize, usize), BFError>) -> Result<
    Machine,
    BFError,
> {
    match r {
        Ok((pointer, counter)) => Ok(
            Machine { tape, pointer: pointer as int, counter: counter as int },
        ),
        Err(e) => Err(e),
    }
}

/// Stores what the input capability gave in the current cell: an ASCII
/// character is stored as its code, any other is refused, and a failure of
/// the capability is `InputFailed`.
pub fn store_input(array: &mut Vec<u32>, array_index: usize, got: Result<char, BFError>) -> (r:
    Result<(), BFError>)
    requires
        array_index < old(array).len(),
    ensures
        match input_spec(
            old(array)@,
            array_index as int,
            match got {
                Ok(c) => Some(c),
                Err(_) => None,
            },
        ) {
            Ok(tape) => r is Ok && final(array)@ == tape,
            Err(e) => r == Err::<(), BFError>(e) && final(array)@ == old(array)@,
        },
{
    match got {
        Err(_) => Err(BFError::InputFailed),
        Ok(c) => {
            let code: u32 = c as u32;
            if code < 128 {
                array.set(array_index, code);
                Ok(())
            } else {
                Err(BFError::NonASCIIChar)
            }
        },
    }
}

/// The character that stands for a cell on output: the ASCII character with
/// the cell's value as its code, and `NonASCIIChar` for a cell of 128 or more.
pub fn output_char(cell: u32) -> (r: Result<char, BFError>)
    ensures
        r == output_spec(cell),
{
    if cell < 128 {
        Ok((cell as u8) as char)
    } else {
        Err(BFError::NonASCIIChar)
    }
}

/// What `.` returns once the output capability has answered.
pub fn output_result(sent: Result<(), BFError>) -> (r: Result<(), BFError>)
    ensures
        r == if sent is Ok {
            Ok::<(), BFError>(())
        } else {
            Err::<(), BFError>(BFError::OutputFailed)
        },
{
    match sent {
        Ok(_) => Ok(()),
        Err(_) => Err(BFError::OutputFailed),
    }
}

/// Executes one instruction against the tape and returns the new pointer
/// and counter. The counter is left for the caller to advance by one; a
/// loop end returns the counter that advances to its loop start.
#[allow(non_snake_case)]
pub fn exec_BF_instruction<I: BFInput, O: BFOutput>(
    array: &mut Vec<u32>,
    array_index: usize,
    instructions: &str,
    input: &mut I,
    output: &mut O,
    instruct_index: usize,
    instruction: char,
) -> (r: Result<(usize, usize), BFError>)
    requires
        array_index < old(array).len(),
    ensures
        r is Err ==> final(array)@ == old(array)@,
        old(array).len() <= final(array).len() <= old(array).len() + 1,
        match r {
            Ok((pointer, _)) => pointer < final(array).len(),
            Err(_) => true,
        },
        exists|io: IoAnswer|
            step_outcome(final(array)@, r) == step_spec(
                instructions@,
                Machine {
                    tape: old(array)@,
                    pointer: array_index as int,
                    counter: instruct_index as int,
                },
                instruction,
                io,
            ),
        !is_io(instruction) ==> step_outcome(final(array)@, r) == step_spec(
            instructions@,
            Machine {
                tape: old(array)@,
                pointer: array_index as int,
                counter: instruct_index as int,
            },
            instruction,
            no_io(),
        ),
        instruction == '<' && array_index == 0 ==> r == Err::<(usize, usize), BFError>(
            BFError::NegativeArrayPointer,
        ),
        instruction == '>' ==> r == Ok::<(usize, usize), BFError>(
            ((array_index + 1) as usize, instruct_index),
        ) && final(array)@ == if array_index + 1 == old(array).len() {
            old(array)@.push(0)
        } else {
            old(array)@
        },
{
    let ghost before = Machine {
        tape: array@,
        pointer: array_index as int,
        counter: instruct_index as int,
    };
    let mut pointer: usize = array_index;
    let mut counter: usize = instruct_index;
    let ghost mut io = no_io();
    if instruction == '+' {
        let cell: u32 = array[pointer];
        array.set(pointer, if cell == u32::MAX { 0 } else { cell + 1 });
    } else if instruction == '-' {
        let cell: u32 = array[pointer];
        array.set(pointer, if cell == 0 { u32::MAX } else { cell - 1 });
    } else if instruction == '>' {
        pointer = pointer + 1;
        if pointer == array.len() {
            array.push(0);
        }
    } else if instruction == '<' {
        if pointer == 0 {
            return Err(BFError::NegativeArrayPointer);
        }
        pointer = pointer - 1;
    } else if instruction == '[' {
        if array[pointer] == 0 {
            counter = equalize_brackets(instructions, counter, 1)?;
        }
    } else if instruction == ']' {
        let start: usize = equalize_brackets(instructions, counter, -1)?;
        counter = if start == 0 { usize::MAX } else { start - 1 };
    } else if instruction == ',' {
        let got = input.read();
        proof {
            io = IoAnswer {
                read: match got {
                    Ok(c) => Some(c),
                    Err(_) => None,
                },
                written: false,
            };
        }
        store_input(array, pointer, got)?;
    } else if instruction == '.' {
        let c: char = output_char(array[pointer])?;
        let sent = output.write(c);
        proof {
            io = IoAnswer { read: None, written: sent is Ok };
        }
        output_result(sent)?;
    }
    assert(Ok::<Machine, BFError>(
        Machine { tape: array@, pointer: pointer as int, counter: counter as int },
    ) == step_spec(instructions@, before, instruction, io));
    Ok((pointer, counter))
}

/// Where a run stands: the machine, and the error that stopped it, if any.
/// After an error the machine is the one that the failing step started from.
pub struct Outcome {
    pub machine: Machine,
    pub error: Option<BFError>,
}

/// The counter has passed the end of the program.
pub open spec fn halted(p: Seq<char>, m: Machine) -> bool {
    !(0 <= m.counter < p.len())
}

/// The tape with zero cells appended until `pointer` is a cell of it.
pub open spec fn grown(tape: Seq<u32>, pointer: int) -> Seq<u32> {
    if pointer < tape.len() {
        tape
    } else {
        tape + Seq::new((pointer + 1 - tape.len()) as nat, |i: int| 0u32)
    }
}

/// The run after one step for each answer: each step executes the
/// instruction under the counter and advances the counter by one. A run
/// that has halted or failed stays as it is.
pub open spec fn run_spec(p: Seq<char>, start: Machine, answers: Seq<IoAnswer>) -> Outcome
    decreases answers.len(),
{
    if answers.len() == 0 {
        Outcome { machine: start, error: None }
    } else {
        let prev = run_spec(p, start, answers.drop_last());
        if prev.error is Some || halted(p, prev.machine) {
            prev
        } else {
            match step_spec(p, prev.machine, p[prev.machine.counter], answers.last()) {
                Ok(m) => Outcome {
                    machine: Machine { counter: advanced(m.counter), ..m },
                    error: None,
                },
                Err(e) => Outcome { machine: prev.machine, error: Some(e) },
            }
        }
    }
}

/// What a run reports: the error that stopped it, success once the counter
/// has passed the end, and `StepLimitReached` where it stands in mid-program.
pub open spec fn run_result(p: Seq<char>, o: Outcome) -> Result<(), BFError> {
    match o.error {
        Some(e) => Err(e),
        None => if halted(p, o.machine) {
            Ok(())
        } else {
            Err(BFError::StepLimitReached)
        },
    }
}

/// The pointer is on a cell of the tape.
pub open spec fn on_tape(m: Machine) -> bool {
    0 <= m.pointer < m.tape.len()
}

/// A step keeps the pointer on the tape and never shortens the tape: it
/// grows by one zero cell at most, at its end.
pub proof fn lemma_step_keeps_tape(p: Seq<char>, m: Machine, instruction: char, io: IoAnswer)
    requires
        on_tape(m),
    ensures
        match step_spec(p, m, instruction, io) {
            Ok(s) => on_tape(s) && (s.tape.len() == m.tape.len() || s.tape == m.tape.push(0)),
            Err(_) => true,
        },
{
}

/// Throughout a run the pointer stays on the tape, and the tape never
/// gets shorter.
pub proof fn lemma_run_keeps_tape(p: Seq<char>, start: Machine, answers: Seq<IoAnswer>)
    requires
        on_tape(start),
    ensures
        on_tape(run_spec(p, start, answers).machine),
        run_spec(p, start, answers).machine.tape.len() >= start.tape.len(),
    decreases answers.len(),
{
    if answers.len() > 0 {
        lemma_run_keeps_tape(p, start, answers.drop_last());
        let prev = run_spec(p, start, answers.drop_last());
        lemma_step_keeps_tape(p, prev.machine, p[prev.machine.counter], answers.last());
    }
}

/// A step fails with `UnbalancedBrackets` exactly where it has to resolve a
/// loop boundary and the scan leaves the program: at a loop end, and at a
/// loop start on a zero cell.
pub proof fn lemma_unbalanced_step(p: Seq<char>, m: Machine, instruction: char, io: IoAnswer)
    ensures
        step_spec(p, m, instruction, io) == Err::<Machine, BFError>(BFError::UnbalancedBrackets)
            <==> (instruction == ']' && bracket_match(p, m.counter, -1) is None) || (instruction
            == '[' && m.tape[m.pointer] == 0 && bracket_match(p, m.counter, 1) is None),
{
}

/// In a well-bracketed program no step on the instruction under the
/// counter fails with `UnbalancedBrackets`.
pub proof fn lemma_balanced_step(p: Seq<char>, m: Machine, io: IoAnswer)
    requires
        balanced(p),
        !halted(p, m),
    ensures
        step_spec(p, m, p[m.counter], io) != Err::<Machine, BFError>(
            BFError::UnbalancedBrackets,
        ),
{
    lemma_balanced_scans_stop(p, m.counter);
}

/// A run of a well-bracketed program never fails with
/// `UnbalancedBrackets`, whatever the capabilities answer and however long
/// it runs.
pub proof fn lemma_balanced_run(p: Seq<char>, start: Machine, answers: Seq<IoAnswer>)
    requires
        balanced(p),
    ensures
        run_spec(p, start, answers).error != Some(BFError::UnbalancedBrackets),
        run_result(p, run_spec(p, start, answers)) != Err::<(), BFError>(
            BFError::UnbalancedBrackets,
        ),
    decreases answers.len(),
{
    if answers.len() > 0 {
        lemma_balanced_run(p, start, answers.drop_last());
        let prev = run_spec(p, start, answers.drop_last());
        if !(prev.error is Some || halted(p, prev.machine)) {
            lemma_balanced_step(p, prev.machine, answers.last());
        }
    }
}

/// A run that consults no capability does not depend on their answers.
pub proof fn lemma_run_without_io(
    p: Seq<char>,
    start: Machine,
    a: Seq<IoAnswer>,
    b: Seq<IoAnswer>,
)
    requires
        a.len() == b.len(),
        forall|i: int| 0 <= i < p.len() ==> !is_io(#[trigger] p[i]),
    ensures
        run_spec(p, start, a) == run_spec(p, start, b),
    decreases a.len(),
{
    if a.len() > 0 {
        lemma_run_without_io(p, start, a.drop_last(), b.drop_last());
    }
}

/// Appends zero cells until `index` is a cell of the tape.
pub fn grow_tape(array: &mut Vec<u32>, index: usize)
    ensures
        final(array)@ == grown(old(array)@, index as int),
        index < final(array).len(),
{
    while index >= array.len()
        invariant
            array.len() >= old(array).len(),
            array.len() <= index + 1 || array.len() == old(array).len(),
            array@ =~= old(array)@ + Seq::new(
                (array.len() - old(array).len()) as nat,
                |i: int| 0u32,
            ),
        decreases index + 1 - array.len(),
    {
        array.push(0);
    }
    assert(array@ =~= grown(old(array)@, index as int));
}

/// Steps from the given pointer and counter until the counter passes the
/// end of the program, a step fails, or `max_steps` steps are done, and
/// returns the pointer and counter it stopped at with the run's result.
/// A program need not end: the step budget is what bounds the run, and a
/// run that uses it up reports `StepLimitReached`. The tape grows by one
/// cell a step at most, so the budget bounds the tape as well.
pub fn run_machine<I: BFInput, O: BFOutput>(
    array: &mut Vec<u32>,
    array_index: usize,
    instructions: &str,
    input: &mut I,
    output: &mut O,
    instruct_index: usize,
    max_steps: usize,
) -> (end: (usize, usize, Result<(), BFError>))
    requires
        array_index < old(array).len(),
    ensures
        end.0 < final(array).len(),
        old(array).len() <= final(array).len() <= old(array).len() + max_steps,
        exists|answers: Seq<IoAnswer>|
            {
                let o = #[trigger] run_spec(
                    instructions@,
                    Machine {
                        tape: old(array)@,
                        pointer: array_index as int,
                        counter: instruct_index as int,
                    },
                    answers,
                );
                &&& answers.len() <= max_steps
                &&& o.machine == Machine {
                    tape: final(array)@,
                    pointer: end.0 as int,
                    counter: end.1 as int,
                }
                &&& end.2 == run_result(instructions@, o)
                &&& end.2 == Err::<(), BFError>(BFError::StepLimitReached) ==> answers.len()
                    == max_steps
            },
        balanced(instructions@) ==> end.2 != Err::<(), BFError>(BFError::UnbalancedBrackets),
{
    let ghost start = Machine {
        tape: array@,
        pointer: array_index as int,
        counter: instruct_index as int,
    };
    let len: usize = instructions.unicode_len();
    let mut pointer: usize = array_index;
    let mut counter: usize = instruct_index;
    let mut steps: usize = 0;
    let ghost mut answers: Seq<IoAnswer> = Seq::empty();
    while steps < max_steps
        invariant
            len == instructions@.len(),
            start == (Machine {
                tape: old(array)@,
                pointer: array_index as int,
                counter: instruct_index as int,
            }),
            pointer < array.len(),
            old(array).len() <= array.len() <= old(array).len() + steps,
            steps <= max_steps,
            answers.len() == steps,
            run_spec(instructions@, start, answers) == (Outcome {
                machine: Machine {
                    tape: array@,
                    pointer: pointer as int,
                    counter: counter as int,
                },
                error: None,
            }),
        decreases max_steps - steps,
    {
        if counter >= len {
            return (pointer, counter, Ok(()));
        }
        let instruction: char = instructions.get_char(counter);
        let ghost here = Machine {
            tape: array@,
            pointer: pointer as int,
            counter: counter as int,
        };
        let r = exec_BF_instruction(
            array,
            pointer,
            instructions,
            input,
            output,
            counter,
            instruction,
        );
        proof {
            let io = choose|io: IoAnswer|
                step_outcome(array@, r) == step_spec(instructions@, here, instruction, io);
            let before = answers;
            answers = answers.push(io);
            assert(answers.drop_last() =~= before);
            assert(answers.last() == io);
            if balanced(instructions@) {
                lemma_balanced_step(instructions@, here, io);
            }
        }
        match r {
            Err(e) => {
                return (pointer, counter, Err(e));
            },
            Ok((a, c)) => {
                pointer = a;
                counter = if c == usize::MAX {
                    0
                } else {
                    c + 1
                };
            },
        }
        steps = steps + 1;
    }
    if counter >= len {
        (pointer, counter, Ok(()))
    } else {
        (pointer, counter, Err(BFError::StepLimitReached))
    }
}

/// Runs the program from the given pointer and counter, on the tape grown
/// to hold the pointer, until the counter passes the end of the program,
/// and returns the first failure. The run is cut off with
/// `StepLimitReached` after as many steps as a `usize` can count;
/// `run_machine` takes a smaller budget.
pub fn run_bf<I: BFInput, O: BFOutput>(
    array: &mut Vec<u32>,
    array_index: usize,
    instructions: &str,
    input: &mut I,
    output: &mut O,
    instruct_index: usize,
) -> (r: Result<(), BFError>)
    ensures
        final(array).len() >= old(array).len(),
        array_index < final(array).len(),
        exists|answers: Seq<IoAnswer>|
            {
                let o = #[trigger] run_spec(
                    instructions@,
                    Machine {
                        tape: grown(old(array)@, array_index as int),
                        pointer: array_index as int,
                        counter: instruct_index as int,
                    },
                    answers,
                );
                &&& answers.len() <= usize::MAX
                &&& o.machine.tape == final(array)@
                &&& r == run_result(instructions@, o)
                &&& r == Err::<(), BFError>(BFError::StepLimitReached) ==> answers.len()
                    == usize::MAX
            },
        balanced(instructions@) ==> r != Err::<(), BFError>(BFError::UnbalancedBrackets),
{
    grow_tape(array, array_index);
    let end = run_machine(
        array,
        array_index,
        instructions,
        input,
        output,
        instruct_index,
        usize::MAX,
    );
    end.2
}

/// A machine with its program and its two capabilities.
pub struct BFInterpreter<I, O> {
    pub array: Vec<u32>,
    pub array_pointer: usize,
    pub program: String,
    pub program_index: usize,
    pub input: I,
    pub output: O,
}

impl<I: BFInput, O: BFOutput> BFInterpreter<I, O> {
    /// The tape, pointer and counter as the contracts see them.
    pub open spec fn machine(&self) -> Machine {
        Machine {
            tape: self.array@,
            pointer: self.array_pointer as int,
            counter: self.program_index as int,
        }
    }

    /// The pointer is on a cell of the tape.
    pub open spec fn wf(&self) -> bool {
        self.array_pointer < self.array.len()
    }

    /// A machine at the start of `program`, on a tape of one zero cell.
    pub fn new(program: String, input: I, output: O) -> (s: Self)
        ensures
            s.wf(),
            s.machine() == (Machine { tape: seq![0u32], pointer: 0, counter: 0 }),
            s.program == program,
            s.input == input,
            s.output == output,
    {
        let mut array: Vec<u32> = Vec::new();
        array.push(0);
        assert(array@ =~= seq![0u32]);
        BFInterpreter { array, array_pointer: 0, program, program_index: 0, input, output }
    }

    /// Returns counter and pointer to zero and the tape to one zero cell.
    pub fn reset(&mut self)
        ensures
            final(self).wf(),
            final(self).machine() == (Machine { tape: seq![0u32], pointer: 0, counter: 0 }),
            final(self).program == old(self).program,
            final(self).input == old(self).input,
            final(self).output == old(self).output,
    {
        let mut array: Vec<u32> = Vec::new();
        array.push(0);
        assert(array@ =~= seq![0u32]);
        self.array = array;
        self.array_pointer = 0;
        self.program_index = 0;
    }

    /// Executes the instruction under the counter and keeps the pointer and
    /// counter that the step returns; the counter is not advanced. Past the
    /// end of the program it fails with `InvalidInstructionIndex`. A failed
    /// step leaves tape, pointer and counter as they were.
    pub fn exec_one(&mut self) -> (r: Result<(), BFError>)
        requires
            old(self).wf(),
        ensures
            final(self).wf(),
            final(self).program == old(self).program,
            halted(old(self).program@, old(self).machine()) ==> r == Err::<(), BFError>(
                BFError::InvalidInstructionIndex,
            ) && final(self).machine() == old(self).machine(),
            !halted(old(self).program@, old(self).machine()) ==> exists|io: IoAnswer|
                match #[trigger] step_spec(
                    old(self).program@,
                    old(self).machine(),
                    old(self).program@[old(self).program_index as int],
                    io,
                ) {
                    Ok(m) => r is Ok && final(self).machine() == m,
                    Err(e) => r == Err::<(), BFError>(e) && final(self).machine() == old(
                        self,
                    ).machine(),
                },
    {
        let len: usize = self.program.as_str().unicode_len();
        if self.program_index >= len {
            return Err(BFError::InvalidInstructionIndex);
        }
        let instruction: char = self.program.as_str().get_char(self.program_index);
        let stepped = exec_BF_instruction(
            &mut self.array,
            self.array_pointer,
            self.program.as_str(),
            &mut self.input,
            &mut self.output,
            self.program_index,
            instruction,
        );
        match stepped {
            Ok((pointer, counter)) => {
                self.array_pointer = pointer;
                self.program_index = counter;
                Ok(())
            },
            Err(e) => Err(e),
        }
    }

    /// Advances the counter by one, as a caller does after a step that
    /// succeeded. The counter that a loop end leaves before the first
    /// instruction advances to zero.
    pub fn advance(&mut self)
        ensures
            final(self).program_index == advanced(old(self).program_index as int),
            final(self).array == old(self).array,
            final(self).array_pointer == old(self).array_pointer,
            final(self).program == old(self).program,
            final(self).input == old(self).input,
            final(self).output == old(self).output,
    {
        self.program_index = if self.program_index == usize::MAX {
            0
        } else {
            self.program_index + 1
        };
    }

    /// Runs the program from the current pointer and counter, on the tape
    /// grown to hold the pointer, and keeps the pointer and counter that the
    /// run stopped at. A program need not end, so the run stops with
    /// `StepLimitReached` after `max_steps` steps; it can then be resumed.
    pub fn run_for(&mut self, max_steps: usize) -> (r: Result<(), BFError>)
        ensures
            final(self).wf(),
            final(self).program == old(self).program,
            exists|answers: Seq<IoAnswer>|
                {
                    let o = #[trigger] run_spec(
                        old(self).program@,
                        Machine {
                            tape: grown(old(self).array@, old(self).array_pointer as int),
                            pointer: old(self).array_pointer as int,
                            counter: old(self).program_index as int,
                        },
                        answers,
                    );
                    &&& answers.len() <= max_steps
                    &&& o.machine == final(self).machine()
                    &&& r == run_result(old(self).program@, o)
                    &&& r == Err::<(), BFError>(BFError::StepLimitReached) ==> answers.len()
                        == max_steps
                },
            balanced(old(self).program@) ==> r != Err::<(), BFError>(
                BFError::UnbalancedBrackets,
            ),
    {
        grow_tape(&mut self.array, self.array_pointer);
        let end = run_machine(
            &mut self.array,
            self.array_pointer,
            self.program.as_str(),
            &mut self.input,
            &mut self.output,
            self.program_index,
            max_steps,
        );
        self.array_pointer = end.0;
        self.program_index = end.1;
        end.2
    }

    /// Runs the program from the current pointer and counter until the
    /// counter passes the end of the program, and keeps the pointer and
    /// counter that the run stopped at. The run is cut off after as many
    /// steps as a `usize` can count; `run_for` takes a smaller budget.
    pub fn run(&mut self) -> (r: Result<(), BFError>)
        ensures
            final(self).wf(),
            final(self).program == old(self).program,
            exists|answers: Seq<IoAnswer>|
                {
                    let o = #[trigger] run_spec(
                        old(self).program@,
                        Machine {
                            tape: grown(old(self).array@, old(self).array_pointer as int),
                            pointer: old(self).array_pointer as int,
                            counter: old(self).program_index as int,
                        },
                        answers,
                    );
                    &&& answers.len() <= usize::MAX
                    &&& o.machine == final(self).machine()
                    &&& r == run_result(old(self).program@, o)
                    &&& r == Err::<(), BFError>(BFError::StepLimitReached) ==> answers.len()
                        == usize::MAX
                },
            balanced(old(self).program@) ==> r != Err::<(), BFError>(
                BFError::UnbalancedBrackets,
            ),
    {
        self.run_for(usize::MAX)
    }
}

} // verus!
