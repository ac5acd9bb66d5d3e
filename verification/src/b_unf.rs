//! The typed stack compiler: a logical stack of typed values, and the
//! instruction text that builds the same stack on the machine's tape.

use crate::emitted::{
    builds, lemma_add_builds, lemma_new_builds, lemma_pop_builds, lemma_push_builds,
};
use vstd::prelude::*;
use vstd::std_specs::convert::FromSpecImpl;
use vstd::string::*;

verus! {

/// A typed value of the logical stack.
#[derive(Debug, Clone, PartialEq, Eq)]
pub enum Type {
    UnsignedInt32(u32),
    SignedInt32(i32),
    Bool(bool),
    Byte(u8),
    ByteString(Vec<u8>),
}

/// The type of a value, without the value.
#[derive(Debug, Clone, Copy, PartialEq, Eq, Structural)]
pub enum EmptyType {
    UnsignedInt32,
    SignedInt32,
    Bool,
    Byte,
    ByteString,
}

/// Why a compiler operation was refused.
#[derive(Debug, Clone, PartialEq, Eq)]
pub enum BunFError {
    /// The types the operation expects on top of the stack, and the types
    /// found there; `None` stands for a slot below the bottom of the stack.
    TypeMismatch(Vec<Option<EmptyType>>, Vec<Option<EmptyType>>),
}

/// The type of a value.
pub open spec fn type_of(v: Type) -> EmptyType {
    match v {
        Type::UnsignedInt32(_) => EmptyType::UnsignedInt32,
        Type::SignedInt32(_) => EmptyType::SignedInt32,
        Type::Bool(_) => EmptyType::Bool,
        Type::Byte(_) => EmptyType::Byte,
        Type::ByteString(_) => EmptyType::ByteString,
    }
}

impl Type {
    /// The type of this value.
    pub fn kind(&self) -> (r: EmptyType)
        ensures
            r == type_of(*self),
    {
        match self {
            Type::UnsignedInt32(_) => EmptyType::UnsignedInt32,
            Type::SignedInt32(_) => EmptyType::SignedInt32,
            Type::Bool(_) => EmptyType::Bool,
            Type::Byte(_) => EmptyType::Byte,
            Type::ByteString(_) => EmptyType::ByteString,
        }
    }
}

impl From<Type> for EmptyType {
    fn from(value: Type) -> (r: EmptyType) {
        value.kind()
    }
}

impl FromSpecImpl<Type> for EmptyType {
    open spec fn obeys_from_spec() -> bool {
        true
    }

    open spec fn from_spec(value: Type) -> EmptyType {
        type_of(value)
    }
}

/// The absolute value of a signed number.
pub open spec fn magnitude(x: i32) -> nat {
    if x < 0 {
        (-(x as int)) as nat
    } else {
        x as nat
    }
}

/// `n` increments.
pub open spec fn pluses(n: nat) -> Seq<char> {
    Seq::new(n, |i: int| '+')
}

/// The text that builds one cell of value `n` to the right of the pointer:
/// a move right, then `n` increments.
pub open spec fn cell_code(n: nat) -> Seq<char> {
    seq!['>'] + pluses(n)
}

/// The text that builds one cell for each byte, left to right.
pub open spec fn bytes_code(s: Seq<u8>) -> Seq<char>
    decreases s.len(),
{
    if s.len() == 0 {
        Seq::empty()
    } else {
        bytes_code(s.drop_last()) + cell_code(s.last() as nat)
    }
}

/// The text that a push of `v` emits.
pub open spec fn push_code(v: Type) -> Seq<char> {
    match v {
        Type::UnsignedInt32(n) => cell_code(n as nat),
        Type::SignedInt32(x) => cell_code(
            if x < 0 {
                1
            } else {
                0
            },
        ) + cell_code(magnitude(x)),
        Type::Bool(b) => cell_code(
            if b {
                1
            } else {
                0
            },
        ),
        Type::Byte(c) => cell_code(c as nat),
        Type::ByteString(s) => bytes_code(s@),
    }
}

/// The number of tape cells that a value occupies.
pub open spec fn cells(v: Type) -> nat {
    match v {
        Type::UnsignedInt32(_) => 1,
        Type::SignedInt32(_) => 2,
        Type::Bool(_) => 1,
        Type::Byte(_) => 1,
        Type::ByteString(s) => s@.len(),
    }
}

/// "Zero the cell, then move left", `n` times.
pub open spec fn clear_code(n: nat) -> Seq<char>
    decreases n,
{
    if n == 0 {
        Seq::empty()
    } else {
        clear_code((n - 1) as nat) + seq!['[', '-', ']', '<']
    }
}

/// The text that a pop of `v` emits.
pub open spec fn pop_code(v: Type) -> Seq<char> {
    clear_code(cells(v))
}

/// The text that adds the top cell into the one below it and moves there.
pub open spec fn add_code() -> Seq<char> {
    seq!['[', '-', '<', '+', '>', ']', '<']
}

/// The sum of two cells as the tape holds it: modulo 2^32.
pub open spec fn cell_sum(x: u32, y: u32) -> u32 {
    if x + y > u32::MAX {
        (x + y - u32::MAX - 1) as u32
    } else {
        (x + y) as u32
    }
}

/// The types that `add_u32` finds in the top two slots, the lower first.
pub open spec fn top_two(stack: Seq<Type>) -> Seq<Option<EmptyType>> {
    if stack.len() >= 2 {
        seq![Some(type_of(stack[stack.len() - 2])), Some(type_of(stack[stack.len() - 1]))]
    } else if stack.len() == 1 {
        seq![Some(type_of(stack[0])), None]
    } else {
        seq![None, None]
    }
}

/// The top two values, where both are unsigned numbers.
pub open spec fn addends(stack: Seq<Type>) -> Option<(u32, u32)> {
    if stack.len() >= 2 {
        match (stack[stack.len() - 2], stack[stack.len() - 1]) {
            (Type::UnsignedInt32(x), Type::UnsignedInt32(y)) => Some((x, y)),
            _ => None,
        }
    } else {
        None
    }
}

/// The compiler's state as the contracts see it.
pub struct Compiled {
    pub stack: Seq<Type>,
    pub code: Seq<char>,
}

/// The state after a push of `v`.
pub open spec fn push_spec(s: Compiled, v: Type) -> Compiled {
    Compiled { stack: s.stack.push(v), code: s.code + push_code(v) }
}

/// The value that a pop returns and the state after it; `None` on an empty
/// stack.
pub open spec fn pop_spec(s: Compiled) -> Option<(Type, Compiled)> {
    if s.stack.len() == 0 {
        None
    } else {
        Some(
            (
                s.stack.last(),
                Compiled { stack: s.stack.drop_last(), code: s.code + pop_code(s.stack.last()) },
            ),
        )
    }
}

/// The state after an addition; `None` unless the top two values are
/// unsigned numbers.
pub open spec fn add_spec(s: Compiled) -> Option<Compiled> {
    match addends(s.stack) {
        Some((x, y)) => Some(
            Compiled {
                stack: s.stack.subrange(0, s.stack.len() - 2).push(
                    Type::UnsignedInt32(cell_sum(x, y)),
                ),
                code: s.code + add_code(),
            },
        ),
        None => None,
    }
}

/// Round trip: a pop right after a push returns the value pushed and
/// leaves the stack as it was before the push. The text is longer by the
/// text of the push and the text that clears the cells of the value again.
pub proof fn lemma_push_then_pop(s: Compiled, v: Type)
    ensures
        pop_spec(push_spec(s, v)) == Some(
            (v, Compiled { stack: s.stack, code: s.code + push_code(v) + pop_code(v) }),
        ),
{
    assert(s.stack.push(v).drop_last() =~= s.stack);
}

/// How far a text moves the pointer: its moves right minus its moves left.
pub open spec fn displacement(code: Seq<char>) -> int
    decreases code.len(),
{
    if code.len() == 0 {
        0
    } else {
        displacement(code.drop_last()) + if code.last() == '>' {
            1int
        } else if code.last() == '<' {
            -1int
        } else {
            0int
        }
    }
}

/// The displacement of two texts in a row is the sum of their displacements.
pub proof fn lemma_displacement_concat(a: Seq<char>, b: Seq<char>)
    ensures
        displacement(a + b) == displacement(a) + displacement(b),
    decreases b.len(),
{
    if b.len() == 0 {
        assert(a + b =~= a);
    } else {
        lemma_displacement_concat(a, b.drop_last());
        assert((a + b).drop_last() =~= a + b.drop_last());
    }
}

/// Increments do not move the pointer.
proof fn lemma_displacement_pluses(n: nat)
    ensures
        displacement(pluses(n)) == 0,
    decreases n,
{
    if n > 0 {
        lemma_displacement_pluses((n - 1) as nat);
        assert(pluses(n).drop_last() =~= pluses((n - 1) as nat));
    }
}

/// Building one cell moves the pointer one cell to the right.
proof fn lemma_displacement_cell(n: nat)
    ensures
        displacement(cell_code(n)) == 1,
{
    lemma_displacement_pluses(n);
    lemma_displacement_concat(seq!['>'], pluses(n));
    assert(seq!['>'].drop_last() =~= Seq::<char>::empty());
    assert(displacement(seq!['>']) == 1) by {
        reveal_with_fuel(displacement, 2);
    }
}

/// Building a cell for each byte moves the pointer one cell for each byte.
proof fn lemma_displacement_bytes(s: Seq<u8>)
    ensures
        displacement(bytes_code(s)) == s.len(),
    decreases s.len(),
{
    if s.len() > 0 {
        lemma_displacement_bytes(s.drop_last());
        lemma_displacement_cell(s.last() as nat);
        lemma_displacement_concat(bytes_code(s.drop_last()), cell_code(s.last() as nat));
    }
}

/// Clearing `n` cells moves the pointer `n` cells to the left.
proof fn lemma_displacement_clear(n: nat)
    ensures
        displacement(clear_code(n)) == -n,
    decreases n,
{
    if n > 0 {
        lemma_displacement_clear((n - 1) as nat);
        let unit = seq!['[', '-', ']', '<'];
        lemma_displacement_concat(clear_code((n - 1) as nat), unit);
        assert(unit.drop_last() =~= seq!['[', '-', ']']);
        assert(unit.drop_last().drop_last() =~= seq!['[', '-']);
        assert(unit.drop_last().drop_last().drop_last() =~= seq!['[']);
        assert(unit.drop_last().drop_last().drop_last().drop_last() =~= Seq::<char>::empty());
        assert(displacement(unit) == -1) by {
            reveal_with_fuel(displacement, 5);
        }
    }
}

/// The text of a push moves the pointer right by the cells of the value,
/// onto its last cell, and the text of a pop moves it back by as many: a
/// push followed by a pop leaves the pointer where it was.
pub proof fn lemma_pointer_restored(v: Type)
    ensures
        displacement(push_code(v)) == cells(v),
        displacement(pop_code(v)) == -cells(v),
        displacement(push_code(v) + pop_code(v)) == 0,
{
    lemma_displacement_clear(cells(v));
    lemma_displacement_concat(push_code(v), pop_code(v));
    match v {
        Type::UnsignedInt32(n) => {
            lemma_displacement_cell(n as nat);
        },
        Type::SignedInt32(x) => {
            let sign: nat = if x < 0 { 1 } else { 0 };
            lemma_displacement_cell(sign);
            lemma_displacement_cell(magnitude(x));
            lemma_displacement_concat(cell_code(sign), cell_code(magnitude(x)));
        },
        Type::Bool(b) => {
            lemma_displacement_cell(if b { 1 } else { 0 });
        },
        Type::Byte(c) => {
            lemma_displacement_cell(c as nat);
        },
        Type::ByteString(s) => {
            lemma_displacement_bytes(s@);
        },
    }
}

/// Appends `n` increments.
fn emit_pluses(out: &mut String, n: usize)
    ensures
        final(out)@ == old(out)@ + pluses(n as nat),
{
    let mut i: usize = 0;
    proof {
        reveal_strlit("+");
        assert(out@ =~= old(out)@ + pluses(0));
    }
    while i < n
        invariant
            i <= n,
            "+"@ == seq!['+'],
            out@ == old(out)@ + pluses(i as nat),
        decreases n - i,
    {
        out.append("+");
        i = i + 1;
        assert(out@ =~= old(out)@ + pluses(i as nat));
    }
}

/// Appends a move right and `n` increments.
fn emit_cell(out: &mut String, n: usize)
    ensures
        final(out)@ == old(out)@ + cell_code(n as nat),
{
    proof {
        reveal_strlit(">");
    }
    out.append(">");
    emit_pluses(out, n);
    assert(out@ =~= old(out)@ + cell_code(n as nat));
}

/// Appends "zero the cell, then move left", `n` times.
fn emit_clear(out: &mut String, n: usize)
    ensures
        final(out)@ == old(out)@ + clear_code(n as nat),
{
    let mut i: usize = 0;
    proof {
        reveal_strlit("[-]<");
        assert(out@ =~= old(out)@ + clear_code(0));
    }
    while i < n
        invariant
            i <= n,
            "[-]<"@ == seq!['[', '-', ']', '<'],
            out@ == old(out)@ + clear_code(i as nat),
        decreases n - i,
    {
        out.append("[-]<");
        i = i + 1;
        assert(out@ =~= old(out)@ + clear_code(i as nat));
    }
}

/// The absolute value of a signed number, as an unsigned one.
fn magnitude_of(x: i32) -> (r: u32)
    ensures
        r == magnitude(x),
{
    if x == i32::MIN {
        2147483648u32
    } else if x < 0 {
        (-x) as u32
    } else {
        x as u32
    }
}

/// A logical stack of typed values with the instruction text that builds
/// it on the tape. The text leaves the pointer on the last cell of the
/// value on top.
pub struct BunF {
    pub array: Vec<Type>,
    pub output: String,
}

impl View for BunF {
    type V = Compiled;

    open spec fn view(&self) -> Compiled {
        Compiled { stack: self.array@, code: self.output@ }
    }
}

impl BunF {
    /// An empty stack with no text emitted.
    pub fn new() -> (s: Self)
        ensures
            s@ == (Compiled { stack: Seq::empty(), code: Seq::empty() }),
            builds(s@),
    {
        proof {
            lemma_new_builds();
        }
        BunF { array: Vec::new(), output: String::new() }
    }

    /// Puts `item` on top of the stack and emits the text that builds its
    /// cells to the right of the previous top. Text that built the stack
    /// before builds the stack after, as long as a counter can count it.
    pub fn push(&mut self, item: Type)
        ensures
            final(self)@ == push_spec(old(self)@, item),
            builds(old(self)@) && final(self).output@.len() <= usize::MAX ==> builds(final(self)@),
    {
        proof {
            if builds(old(self)@) && push_spec(old(self)@, item).code.len() <= usize::MAX {
                lemma_push_builds(old(self)@, item);
            }
        }
        match &item {
            Type::UnsignedInt32(n) => {
                emit_cell(&mut self.output, *n as usize);
            },
            Type::SignedInt32(x) => {
                emit_cell(&mut self.output, if *x < 0 { 1 } else { 0 });
                emit_cell(&mut self.output, magnitude_of(*x) as usize);
                assert(self.output@ =~= old(self).output@ + push_code(item));
            },
            Type::Bool(b) => {
                emit_cell(&mut self.output, if *b { 1 } else { 0 });
            },
            Type::Byte(c) => {
                emit_cell(&mut self.output, *c as usize);
            },
            Type::ByteString(s) => {
                let mut i: usize = 0;
                assert(self.output@ =~= old(self).output@ + bytes_code(s@.take(0)));
                while i < s.len()
                    invariant
                        i <= s.len(),
                        self.array == old(self).array,
                        self.output@ == old(self).output@ + bytes_code(s@.take(i as int)),
                    decreases s.len() - i,
                {
                    emit_cell(&mut self.output, s[i] as usize);
                    i = i + 1;
                    proof {
                        assert(s@.take(i as int).drop_last() =~= s@.take(i - 1));
                        assert(self.output@ =~= old(self).output@ + bytes_code(
                            s@.take(i as int),
                        ));
                    }
                }
                assert(s@.take(s.len() as int) =~= s@);
            },
        }
        self.array.push(item);
    }

    /// Takes the top value off the stack and emits, for each of its cells,
    /// the text that zeroes the cell and moves left. On an empty stack
    /// nothing changes and the mismatch of one absent slot is returned.
    /// Text that built the stack before builds the stack after.
    pub fn pop(&mut self) -> (r: Result<Type, BunFError>)
        ensures
            match pop_spec(old(self)@) {
                Some((v, s)) => r == Ok::<Type, BunFError>(v) && final(self)@ == s,
                None => final(self)@ == old(self)@ && match r {
                    Ok(_) => false,
                    Err(BunFError::TypeMismatch(expected, found)) => expected@ == seq![
                        None::<EmptyType>,
                    ] && found@ == seq![None::<EmptyType>],
                },
            },
            builds(old(self)@) && final(self).output@.len() <= usize::MAX ==> builds(final(self)@),
    {
        proof {
            if builds(old(self)@) {
                match pop_spec(old(self)@) {
                    Some((_, to)) => {
                        if to.code.len() <= usize::MAX {
                            lemma_pop_builds(old(self)@);
                        }
                    },
                    None => {},
                }
            }
        }
        match self.array.pop() {
            None => {
                let mut expected: Vec<Option<EmptyType>> = Vec::new();
                expected.push(None);
                let mut found: Vec<Option<EmptyType>> = Vec::new();
                found.push(None);
                assert(self.array@ =~= old(self).array@);
                assert(expected@ =~= seq![None::<EmptyType>]);
                assert(found@ =~= seq![None::<EmptyType>]);
                Err(BunFError::TypeMismatch(expected, found))
            },
            Some(top) => {
                let count: usize = match &top {
                    Type::SignedInt32(_) => 2,
                    Type::ByteString(s) => s.len(),
                    _ => 1,
                };
                emit_clear(&mut self.output, count);
                Ok(top)
            },
        }
    }

    /// Replaces the top two values, both unsigned numbers, by their sum
    /// modulo 2^32, and emits the text that adds the top cell into the one
    /// below it. On any other stack nothing changes and the mismatch names
    /// the types found in the top two slots. Text that built the stack
    /// before builds the stack after.
    pub fn add_u32(&mut self) -> (r: Result<(), BunFError>)
        ensures
            match add_spec(old(self)@) {
                Some(s) => r is Ok && final(self)@ == s,
                None => final(self)@ == old(self)@ && match r {
                    Ok(_) => false,
                    Err(BunFError::TypeMismatch(expected, found)) => expected@ == seq![
                        Some(EmptyType::UnsignedInt32),
                        Some(EmptyType::UnsignedInt32),
                    ] && found@ == top_two(old(self).array@),
                },
            },
            builds(old(self)@) && final(self).output@.len() <= usize::MAX ==> builds(final(self)@),
    {
        proof {
            if builds(old(self)@) {
                match add_spec(old(self)@) {
                    Some(to) => {
                        if to.code.len() <= usize::MAX {
                            lemma_add_builds(old(self)@);
                        }
                    },
                    None => {},
                }
            }
        }
        let n: usize = self.array.len();
        let mut found: Vec<Option<EmptyType>> = Vec::new();
        if n >= 2 {
            let operands: Option<(u32, u32)> = match (&self.array[n - 2], &self.array[n - 1]) {
                (Type::UnsignedInt32(x), Type::UnsignedInt32(y)) => Some((*x, *y)),
                _ => None,
            };
            match operands {
                Some((x, y)) => {
                    proof {
                        reveal_strlit("[-<+>]<");
                    }
                    self.output.append("[-<+>]<");
                    self.array.pop();
                    let sum: u32 = if y <= u32::MAX - x {
                        x + y
                    } else {
                        x - (u32::MAX - y) - 1
                    };
                    self.array.set(n - 2, Type::UnsignedInt32(sum));
                    assert(self.array@ =~= old(self).array@.subrange(0, n - 2).push(
                        Type::UnsignedInt32(cell_sum(x, y)),
                    ));
                    assert(self.output@ =~= old(self).output@ + add_code());
                    return Ok(());
                },
                None => {
                    found.push(Some(self.array[n - 2].kind()));
                    found.push(Some(self.array[n - 1].kind()));
                },
            }
        } else if n == 1 {
            found.push(Some(self.array[0].kind()));
            found.push(None);
        } else {
            found.push(None);
            found.push(None);
        }
        let mut expected: Vec<Option<EmptyType>> = Vec::new();
        expected.push(Some(EmptyType::UnsignedInt32));
        expected.push(Some(EmptyType::UnsignedInt32));
        assert(expected@ =~= seq![
            Some(EmptyType::UnsignedInt32),
            Some(EmptyType::UnsignedInt32),
        ]);
        assert(found@ =~= top_two(old(self).array@));
        Err(BunFError::TypeMismatch(expected, found))
    }
}

} // verus!
