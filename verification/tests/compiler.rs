use bunf::b_unf::{BunF, BunFError, EmptyType, Type};
use bunf::bf::{run_bf, BFInput, BFOutput};
use bunf::error::BFError;

struct NoInput;

impl BFInput for NoInput {
    fn read(&mut self) -> Result<char, BFError> {
        Err(BFError::InputFailed)
    }
}

struct NoOutput;

impl BFOutput for NoOutput {
    fn write(&mut self, _c: char) -> Result<(), BFError> {
        Err(BFError::OutputFailed)
    }
}

/// The tape after the emitted text ran on one zero cell.
fn tape_after(code: &str) -> Vec<u32> {
    let mut tape = vec![0];
    let r = run_bf(&mut tape, 0, code, &mut NoInput, &mut NoOutput, 0);
    assert_eq!(r, Ok(()));
    tape
}

#[test]
fn b_unf_test_string() {
    let mut x = BunF::new();

    x.push(Type::ByteString(vec!['a', 'b', 'c'].iter().map(|&char| char as u8).collect()));

    println!("{}", x.output)
}

#[test]
fn new_compiler_is_empty() {
    let x = BunF::new();
    assert!(x.array.is_empty());
    assert_eq!(x.output, "");
}

#[test]
fn push_emits_a_move_and_the_increments() {
    let mut x = BunF::new();
    x.push(Type::UnsignedInt32(3));
    assert_eq!(x.output, ">+++");
    x.push(Type::Bool(true));
    assert_eq!(x.output, ">+++>+");
    x.push(Type::Bool(false));
    assert_eq!(x.output, ">+++>+>");
    x.push(Type::Byte(2));
    assert_eq!(x.output, ">+++>+>>++");
    x.push(Type::UnsignedInt32(0));
    assert_eq!(x.output, ">+++>+>>++>");
    assert_eq!(
        x.array,
        vec![
            Type::UnsignedInt32(3),
            Type::Bool(true),
            Type::Bool(false),
            Type::Byte(2),
            Type::UnsignedInt32(0)
        ]
    );
}

#[test]
fn push_of_a_signed_number_emits_sign_and_magnitude() {
    let mut x = BunF::new();
    x.push(Type::SignedInt32(-7));
    assert_eq!(x.output, ">+>+++++++");
    let mut y = BunF::new();
    y.push(Type::SignedInt32(4));
    assert_eq!(y.output, ">>++++");
    let mut z = BunF::new();
    z.push(Type::SignedInt32(0));
    assert_eq!(z.output, ">>");
}

#[test]
fn push_of_a_byte_string_emits_one_cell_for_each_byte() {
    let mut x = BunF::new();
    x.push(Type::ByteString(vec![1, 0, 3]));
    assert_eq!(x.output, ">+>>+++");
    let mut y = BunF::new();
    y.push(Type::ByteString(vec![]));
    assert_eq!(y.output, "");
    assert_eq!(y.array, vec![Type::ByteString(vec![])]);
}

#[test]
fn pop_emits_one_clearing_for_each_cell() {
    let mut x = BunF::new();
    x.push(Type::UnsignedInt32(1));
    x.push(Type::SignedInt32(-1));
    x.push(Type::ByteString(vec![1, 1, 1]));
    x.push(Type::Byte(1));
    x.push(Type::Bool(true));
    let pushed = x.output.clone();
    assert_eq!(x.pop(), Ok(Type::Bool(true)));
    assert_eq!(x.output, format!("{}[-]<", pushed));
    assert_eq!(x.pop(), Ok(Type::Byte(1)));
    assert_eq!(x.output, format!("{}[-]<[-]<", pushed));
    assert_eq!(x.pop(), Ok(Type::ByteString(vec![1, 1, 1])));
    assert_eq!(x.output, format!("{}[-]<[-]<[-]<[-]<[-]<", pushed));
    assert_eq!(x.pop(), Ok(Type::SignedInt32(-1)));
    assert_eq!(x.output, format!("{}[-]<[-]<[-]<[-]<[-]<[-]<[-]<", pushed));
    assert_eq!(x.pop(), Ok(Type::UnsignedInt32(1)));
    assert_eq!(x.output, format!("{}[-]<[-]<[-]<[-]<[-]<[-]<[-]<[-]<", pushed));
    assert!(x.array.is_empty());
}

#[test]
fn pop_on_an_empty_stack_is_a_mismatch_of_absent_slots() {
    let mut x = BunF::new();
    assert_eq!(x.pop(), Err(BunFError::TypeMismatch(vec![None], vec![None])));
    assert_eq!(x.output, "");
    assert!(x.array.is_empty());
}

#[test]
fn push_then_pop_returns_the_value_and_restores_the_stack() {
    for value in [
        Type::UnsignedInt32(0),
        Type::UnsignedInt32(5),
        Type::SignedInt32(-7),
        Type::SignedInt32(7),
        Type::Bool(true),
        Type::Bool(false),
        Type::Byte(9),
        Type::ByteString(vec![]),
        Type::ByteString(vec![2, 0, 1]),
    ] {
        let mut x = BunF::new();
        x.push(Type::Byte(1));
        let stack = x.array.clone();
        let text = x.output.clone();
        x.push(value.clone());
        let pushed = x.output.clone();
        assert_eq!(x.pop(), Ok(value));
        assert_eq!(x.array, stack);
        assert!(pushed.starts_with(&text));
        assert!(x.output.starts_with(&pushed));
        assert_eq!(tape_after(&x.output)[..2], [0, 1]);
        assert!(tape_after(&x.output)[2..].iter().all(|cell| *cell == 0));
    }
}

#[test]
fn add_u32_replaces_the_operands_by_their_sum() {
    let mut x = BunF::new();
    x.push(Type::UnsignedInt32(3));
    x.push(Type::UnsignedInt32(4));
    assert_eq!(x.add_u32(), Ok(()));
    assert_eq!(x.array, vec![Type::UnsignedInt32(7)]);
    assert_eq!(x.output, ">+++>++++[-<+>]<");
    assert_eq!(tape_after(&x.output), vec![0, 7, 0]);
}

#[test]
fn add_u32_keeps_what_lies_below_the_operands() {
    let mut x = BunF::new();
    x.push(Type::Bool(true));
    x.push(Type::UnsignedInt32(1));
    x.push(Type::UnsignedInt32(2));
    assert_eq!(x.add_u32(), Ok(()));
    assert_eq!(x.array, vec![Type::Bool(true), Type::UnsignedInt32(3)]);
}

#[test]
fn add_u32_wraps_as_the_cells_do() {
    let mut x = BunF::new();
    x.array.push(Type::UnsignedInt32(u32::MAX));
    x.array.push(Type::UnsignedInt32(2));
    assert_eq!(x.add_u32(), Ok(()));
    assert_eq!(x.array, vec![Type::UnsignedInt32(1)]);
    let mut y = BunF::new();
    y.array.push(Type::UnsignedInt32(u32::MAX));
    y.array.push(Type::UnsignedInt32(u32::MAX));
    assert_eq!(y.add_u32(), Ok(()));
    assert_eq!(y.array, vec![Type::UnsignedInt32(u32::MAX - 1)]);
}

#[test]
fn add_u32_names_the_types_it_found() {
    let expected = vec![Some(EmptyType::UnsignedInt32), Some(EmptyType::UnsignedInt32)];
    let mut x = BunF::new();
    x.push(Type::Bool(true));
    x.push(Type::UnsignedInt32(4));
    let text = x.output.clone();
    assert_eq!(
        x.add_u32(),
        Err(BunFError::TypeMismatch(
            expected.clone(),
            vec![Some(EmptyType::Bool), Some(EmptyType::UnsignedInt32)]
        ))
    );
    assert_eq!(x.array, vec![Type::Bool(true), Type::UnsignedInt32(4)]);
    assert_eq!(x.output, text);

    let mut y = BunF::new();
    y.push(Type::UnsignedInt32(4));
    y.push(Type::SignedInt32(4));
    assert_eq!(
        y.add_u32(),
        Err(BunFError::TypeMismatch(
            expected.clone(),
            vec![Some(EmptyType::UnsignedInt32), Some(EmptyType::SignedInt32)]
        ))
    );
}

#[test]
fn add_u32_marks_the_slots_that_are_absent() {
    let expected = vec![Some(EmptyType::UnsignedInt32), Some(EmptyType::UnsignedInt32)];
    let mut x = BunF::new();
    assert_eq!(
        x.add_u32(),
        Err(BunFError::TypeMismatch(expected.clone(), vec![None, None]))
    );
    x.push(Type::ByteString(vec![1]));
    assert_eq!(
        x.add_u32(),
        Err(BunFError::TypeMismatch(expected.clone(), vec![Some(EmptyType::ByteString), None]))
    );
    assert_eq!(x.output, ">+");
}

#[test]
fn type_of_each_variant() {
    assert_eq!(EmptyType::from(Type::UnsignedInt32(1)), EmptyType::UnsignedInt32);
    assert_eq!(EmptyType::from(Type::SignedInt32(1)), EmptyType::SignedInt32);
    assert_eq!(EmptyType::from(Type::Bool(false)), EmptyType::Bool);
    assert_eq!(EmptyType::from(Type::Byte(1)), EmptyType::Byte);
    assert_eq!(EmptyType::from(Type::ByteString(vec![])), EmptyType::ByteString);
    assert_eq!(Type::Byte(1).kind(), EmptyType::Byte);
}

#[test]
fn emitted_text_builds_the_stack_on_the_tape() {
    let mut x = BunF::new();
    x.push(Type::UnsignedInt32(2));
    x.push(Type::SignedInt32(-3));
    x.push(Type::ByteString(vec![4, 5]));
    assert_eq!(tape_after(&x.output), vec![0, 2, 1, 3, 4, 5]);
    assert_eq!(x.pop(), Ok(Type::ByteString(vec![4, 5])));
    assert_eq!(tape_after(&x.output), vec![0, 2, 1, 3, 0, 0]);
    x.push(Type::Byte(6));
    assert_eq!(tape_after(&x.output), vec![0, 2, 1, 3, 6, 0]);
}
