//! What the emitted text does on the machine: run from a fresh tape, it
//! builds the cells of the logical stack and leaves the pointer on the
//! last of them.

use crate::bf::{
    advanced, halted, no_io, run_result, run_spec, step_spec, IoAnswer, Machine, Outcome,
};
use crate::error::BFError;
use crate::brackets::{
    bracket_match, closes_backward, closes_forward, depth_over, lemma_backward_unique,
    lemma_depth_split_first, lemma_forward_unique,
};
use crate::b_unf::{
    add_code, add_spec, addends, bytes_code, cell_code, cell_sum, cells, clear_code, magnitude,
    pluses, pop_code, pop_spec, push_code, push_spec, Compiled, Type,
};
use vstd::prelude::*;

verus! {

/// The machine after the instruction under the counter and the advance of
/// the counter, where the capabilities give nothing; `None` where the
/// machine has halted or the instruction fails.
pub open spec fn next_machine(p: Seq<char>, m: Machine) -> Option<Machine> {
    if halted(p, m) {
        None
    } else {
        match step_spec(p, m, p[m.counter], no_io()) {
            Ok(s) => Some(Machine { counter: advanced(s.counter), ..s }),
            Err(_) => None,
        }
    }
}

/// The machine after exactly `n` such steps.
pub open spec fn silent_steps(p: Seq<char>, from: Machine, n: nat) -> Option<Machine>
    decreases n,
{
    if n == 0 {
        Some(from)
    } else {
        match next_machine(p, from) {
            Some(m) => silent_steps(p, m, (n - 1) as nat),
            None => None,
        }
    }
}

/// Steps in a row: `n + k` steps are `n` steps and then `k` more.
pub proof fn lemma_steps_compose(p: Seq<char>, a: Machine, n: nat, k: nat)
    ensures
        silent_steps(p, a, n + k) == match silent_steps(p, a, n) {
            Some(b) => silent_steps(p, b, k),
            None => None,
        },
    decreases n,
{
    if n > 0 {
        match next_machine(p, a) {
            Some(m) => {
                lemma_steps_compose(p, m, (n - 1) as nat, k);
            },
            None => {},
        }
    }
}

/// One step is the next machine.
proof fn lemma_one_step(p: Seq<char>, a: Machine)
    ensures
        silent_steps(p, a, 1) == next_machine(p, a),
{
    reveal_with_fuel(silent_steps, 2);
}

/// The answers of capabilities that give nothing, `n` times.
pub open spec fn silence(n: nat) -> Seq<IoAnswer> {
    Seq::new(n, |i: int| no_io())
}

/// `n` silent steps are a run of `n` steps whose capabilities give nothing.
pub proof fn lemma_steps_are_a_run(p: Seq<char>, a: Machine, n: nat)
    requires
        silent_steps(p, a, n) is Some,
    ensures
        run_spec(p, a, silence(n)) == (Outcome {
            machine: silent_steps(p, a, n)->0,
            error: None,
        }),
    decreases n,
{
    let answers = silence(n);
    if n > 0 {
        let shorter = silence((n - 1) as nat);
        assert(answers.drop_last() =~= shorter);
        lemma_steps_compose(p, a, (n - 1) as nat, 1);
        let b = silent_steps(p, a, (n - 1) as nat)->0;
        lemma_one_step(p, b);
        lemma_steps_are_a_run(p, a, (n - 1) as nat);
    }
}

/// The depth over positions of `p` is the same in any longer program.
proof fn lemma_depth_extend(p: Seq<char>, q: Seq<char>, lo: int, hi: int)
    requires
        0 <= lo,
        hi < p.len(),
    ensures
        depth_over(p + q, lo, hi) == depth_over(p, lo, hi),
    decreases hi - lo + 1,
{
    if lo <= hi {
        lemma_depth_extend(p, q, lo, hi - 1);
    }
}

/// A scan that stops inside `p` stops at the same place in any longer
/// program.
proof fn lemma_match_extend(p: Seq<char>, q: Seq<char>, i: int, direction: int)
    requires
        bracket_match(p, i, direction) is Some,
    ensures
        bracket_match(p + q, i, direction) == bracket_match(p, i, direction),
{
    let j = bracket_match(p, i, direction)->0;
    if direction == 1 {
        assert(closes_forward(p, i, j));
        assert forall|k: int| i <= k <= j implies #[trigger] depth_over(p + q, i, k)
            == depth_over(p, i, k) by {
            lemma_depth_extend(p, q, i, k);
        }
        assert(closes_forward(p + q, i, j));
        lemma_forward_unique(p + q, i, j);
    } else {
        assert(closes_backward(p, i, j));
        assert forall|k: int| j <= k <= i implies #[trigger] depth_over(p + q, k, i)
            == depth_over(p, k, i) by {
            lemma_depth_extend(p, q, k, i);
        }
        assert(closes_backward(p + q, i, j));
        lemma_backward_unique(p + q, i, j);
    }
}

/// Steps that succeed in `p` are the same steps in any longer program.
pub proof fn lemma_steps_extend(p: Seq<char>, q: Seq<char>, a: Machine, n: nat)
    requires
        silent_steps(p, a, n) is Some,
    ensures
        silent_steps(p + q, a, n) == silent_steps(p, a, n),
    decreases n,
{
    if n > 0 {
        let m = next_machine(p, a)->0;
        let c = p[a.counter];
        assert((p + q)[a.counter] == c);
        if c == '[' && a.tape[a.pointer] == 0 {
            lemma_match_extend(p, q, a.counter, 1);
        }
        if c == ']' {
            lemma_match_extend(p, q, a.counter, -1);
        }
        assert(next_machine(p + q, a) == Some(m));
        lemma_steps_extend(p, q, m, (n - 1) as nat);
    }
}

/// `code` stands in the program `p` from position `at` on, and `p` is no
/// longer than a counter can count.
pub open spec fn holds_at(p: Seq<char>, at: int, code: Seq<char>) -> bool {
    &&& 0 <= at
    &&& at + code.len() <= p.len() <= usize::MAX
    &&& forall|i: int| 0 <= i < code.len() ==> p[at + i] == #[trigger] code[i]
}

/// The tape is `content` followed by zero cells only.
pub open spec fn shape(tape: Seq<u32>, content: Seq<u32>) -> bool {
    &&& tape.len() >= content.len()
    &&& forall|i: int|
        0 <= i < tape.len() ==> #[trigger] tape[i] == if i < content.len() {
            content[i]
        } else {
            0
        }
}

/// The tape holds `content` and zeros, and the pointer is on the last cell
/// of `content`.
pub open spec fn on_top(m: Machine, content: Seq<u32>) -> bool {
    &&& content.len() >= 1
    &&& m.pointer == content.len() - 1
    &&& shape(m.tape, content)
}

/// After `steps` steps from `m` the counter is `code_len` further and the
/// machine is on top of `content`.
pub open spec fn leads_to(
    p: Seq<char>,
    m: Machine,
    steps: nat,
    code_len: nat,
    content: Seq<u32>,
) -> bool {
    match silent_steps(p, m, steps) {
        Some(e) => e.counter == m.counter + code_len && on_top(e, content),
        None => false,
    }
}

/// A text that stands in a program stands there in two parts.
proof fn lemma_holds_split(p: Seq<char>, at: int, a: Seq<char>, b: Seq<char>)
    requires
        holds_at(p, at, a + b),
    ensures
        holds_at(p, at, a),
        holds_at(p, at + a.len(), b),
{
    assert forall|i: int| 0 <= i < a.len() implies p[at + i] == #[trigger] a[i] by {
        assert((a + b)[i] == a[i]);
    }
    assert forall|i: int| 0 <= i < b.len() implies p[at + a.len() + i] == #[trigger] b[i] by {
        assert((a + b)[a.len() + i] == b[i]);
    }
}

/// One effect after another.
proof fn lemma_leads_chain(
    p: Seq<char>,
    m: Machine,
    steps1: nat,
    len1: nat,
    mid: Seq<u32>,
    steps2: nat,
    len2: nat,
    content: Seq<u32>,
)
    requires
        leads_to(p, m, steps1, len1, mid),
        leads_to(p, silent_steps(p, m, steps1)->0, steps2, len2, content),
    ensures
        leads_to(p, m, steps1 + steps2, len1 + len2, content),
{
    lemma_steps_compose(p, m, steps1, steps2);
}

/// `n` increments add `n` to the current cell, where that does not pass
/// the largest value.
proof fn lemma_run_pluses(p: Seq<char>, m: Machine, n: nat)
    requires
        holds_at(p, m.counter, pluses(n)),
        0 <= m.pointer < m.tape.len(),
        m.tape[m.pointer] + n <= u32::MAX,
    ensures
        silent_steps(p, m, n) == Some(
            Machine {
                tape: m.tape.update(m.pointer, (m.tape[m.pointer] + n) as u32),
                pointer: m.pointer,
                counter: m.counter + n,
            },
        ),
    decreases n,
{
    if n == 0 {
        assert(m.tape.update(m.pointer, m.tape[m.pointer]) =~= m.tape);
    } else {
        assert(pluses(n)[0] == '+');
        assert(p[m.counter + 0] == '+');
        let m1 = Machine {
            tape: m.tape.update(m.pointer, (m.tape[m.pointer] + 1) as u32),
            pointer: m.pointer,
            counter: m.counter + 1,
        };
        assert(next_machine(p, m) == Some(m1));
        let rest = pluses((n - 1) as nat);
        assert forall|i: int| 0 <= i < rest.len() implies p[m1.counter + i]
            == #[trigger] rest[i] by {
            assert(pluses(n)[i + 1] == '+');
            assert(p[m.counter + (i + 1)] == '+');
        }
        lemma_run_pluses(p, m1, (n - 1) as nat);
        assert(m1.tape.update(m.pointer, (m1.tape[m.pointer] + (n - 1)) as u32) =~= m.tape.update(
            m.pointer,
            (m.tape[m.pointer] + n) as u32,
        ));
    }
}

/// The text of one cell builds a cell of value `n` to the right of the top.
proof fn lemma_run_cell(p: Seq<char>, m: Machine, content: Seq<u32>, n: nat)
    requires
        holds_at(p, m.counter, cell_code(n)),
        on_top(m, content),
        n <= u32::MAX,
    ensures
        leads_to(p, m, n + 1, n + 1, content.push(n as u32)),
{
    let code = cell_code(n);
    assert(code[0] == '>');
    assert(p[m.counter + 0] == '>');
    let m1 = Machine {
        tape: if m.pointer + 1 == m.tape.len() {
            m.tape.push(0)
        } else {
            m.tape
        },
        pointer: m.pointer + 1,
        counter: m.counter + 1,
    };
    assert(next_machine(p, m) == Some(m1));
    assert forall|i: int| 0 <= i < pluses(n).len() implies p[m1.counter + i] == #[trigger] pluses(
        n,
    )[i] by {
        assert(code[i + 1] == '+');
        assert(p[m.counter + (i + 1)] == '+');
    }
    assert(m1.tape[m1.pointer] == 0);
    lemma_run_pluses(p, m1, n);
    lemma_one_step(p, m);
    lemma_steps_compose(p, m, 1, n);
    let e = silent_steps(p, m, n + 1)->0;
    assert(shape(e.tape, content.push(n as u32)));
}

/// The bytes as cells.
pub open spec fn widened(s: Seq<u8>) -> Seq<u32> {
    Seq::new(s.len(), |i: int| s[i] as u32)
}

/// The text of a byte string builds one cell for each byte to the right
/// of the top.
proof fn lemma_run_bytes(p: Seq<char>, m: Machine, content: Seq<u32>, s: Seq<u8>)
    requires
        holds_at(p, m.counter, bytes_code(s)),
        on_top(m, content),
    ensures
        leads_to(p, m, bytes_code(s).len(), bytes_code(s).len(), content + widened(s)),
    decreases s.len(),
{
    if s.len() == 0 {
        assert(content + widened(s) =~= content);
    } else {
        let head = s.drop_last();
        let b = s.last() as nat;
        lemma_holds_split(p, m.counter, bytes_code(head), cell_code(b));
        lemma_run_bytes(p, m, content, head);
        let mid = silent_steps(p, m, bytes_code(head).len())->0;
        lemma_run_cell(p, mid, content + widened(head), b);
        assert((content + widened(head)).push(b as u32) =~= content + widened(s));
        lemma_leads_chain(
            p,
            m,
            bytes_code(head).len(),
            bytes_code(head).len(),
            content + widened(head),
            b + 1,
            b + 1,
            content + widened(s),
        );
    }
}

/// The cells that a value occupies on the tape, left to right.
pub open spec fn encode(v: Type) -> Seq<u32> {
    match v {
        Type::UnsignedInt32(n) => seq![n],
        Type::SignedInt32(x) => seq![
            if x < 0 {
                1u32
            } else {
                0u32
            },
            magnitude(x) as u32,
        ],
        Type::Bool(b) => seq![
            if b {
                1u32
            } else {
                0u32
            },
        ],
        Type::Byte(c) => seq![c as u32],
        Type::ByteString(s) => widened(s@),
    }
}

/// The text of a push, run on top of `content`, builds the cells of the
/// value to the right of it and stops on the last of them, one step for
/// each instruction.
pub proof fn lemma_run_push(p: Seq<char>, m: Machine, content: Seq<u32>, v: Type)
    requires
        holds_at(p, m.counter, push_code(v)),
        on_top(m, content),
    ensures
        leads_to(p, m, push_code(v).len(), push_code(v).len(), content + encode(v)),
{
    match v {
        Type::UnsignedInt32(n) => {
            lemma_run_cell(p, m, content, n as nat);
            assert(content.push(n) =~= content + encode(v));
        },
        Type::SignedInt32(x) => {
            let sign: nat = if x < 0 { 1 } else { 0 };
            lemma_holds_split(p, m.counter, cell_code(sign), cell_code(magnitude(x)));
            lemma_run_cell(p, m, content, sign);
            let mid = silent_steps(p, m, sign + 1)->0;
            lemma_run_cell(p, mid, content.push(sign as u32), magnitude(x));
            assert(content.push(sign as u32).push(magnitude(x) as u32) =~= content + encode(v));
            lemma_leads_chain(
                p,
                m,
                sign + 1,
                sign + 1,
                content.push(sign as u32),
                magnitude(x) + 1,
                magnitude(x) + 1,
                content + encode(v),
            );
        },
        Type::Bool(b) => {
            let bit: nat = if b { 1 } else { 0 };
            lemma_run_cell(p, m, content, bit);
            assert(content.push(bit as u32) =~= content + encode(v));
        },
        Type::Byte(c) => {
            lemma_run_cell(p, m, content, c as nat);
            assert(content.push(c as u32) =~= content + encode(v));
        },
        Type::ByteString(s) => {
            lemma_run_bytes(p, m, content, s@);
        },
    }
}

/// Neither a loop start nor a loop end.
pub open spec fn plain(c: char) -> bool {
    c != '[' && c != ']'
}

/// A loop start followed by plain instructions only is one level deep.
proof fn lemma_flat_forward(p: Seq<char>, c: int, j: int)
    requires
        c <= j,
        p[c] == '[',
        forall|i: int| c < i <= j ==> plain(#[trigger] p[i]),
    ensures
        depth_over(p, c, j) == 1,
    decreases j - c,
{
    if c < j {
        lemma_flat_forward(p, c, j - 1);
        assert(plain(p[j]));
    } else {
        assert(depth_over(p, c, c - 1) == 0);
    }
}

/// Plain instructions followed by a loop end are one level below.
proof fn lemma_flat_backward(p: Seq<char>, j: int, e: int)
    requires
        j <= e,
        p[e] == ']',
        forall|i: int| j <= i < e ==> plain(#[trigger] p[i]),
    ensures
        depth_over(p, j, e) == -1,
    decreases e - j,
{
    if j < e {
        lemma_flat_backward(p, j + 1, e);
        lemma_depth_split_first(p, j, e);
        assert(plain(p[j]));
    } else {
        assert(depth_over(p, e, e - 1) == 0);
    }
}

/// A loop whose body holds no bracket: its start and its end are partners.
proof fn lemma_loop_brackets(p: Seq<char>, c: int, e: int)
    requires
        0 <= c < e < p.len(),
        p[c] == '[',
        p[e] == ']',
        forall|i: int| c < i < e ==> plain(#[trigger] p[i]),
    ensures
        bracket_match(p, c, 1) == Some(e),
        bracket_match(p, e, -1) == Some(c),
{
    lemma_flat_forward(p, c, e - 1);
    assert forall|k: int| c <= k < e implies #[trigger] depth_over(p, c, k) != 0 by {
        lemma_flat_forward(p, c, k);
    }
    assert(closes_forward(p, c, e));
    lemma_forward_unique(p, c, e);
    assert forall|k: int| c < k <= e implies #[trigger] depth_over(p, k, e) != 0 by {
        lemma_flat_backward(p, k, e);
    }
    assert(closes_backward(p, e, c));
    lemma_backward_unique(p, e, c);
}

/// The loop `[-]` brings the current cell to zero in three steps for each
/// unit of its value and one more.
proof fn lemma_run_zero_loop(p: Seq<char>, m: Machine, v: nat)
    requires
        holds_at(p, m.counter, seq!['[', '-', ']']),
        0 <= m.pointer < m.tape.len(),
        m.tape[m.pointer] == v,
    ensures
        silent_steps(p, m, 3 * v + 1) == Some(
            Machine {
                tape: m.tape.update(m.pointer, 0),
                pointer: m.pointer,
                counter: m.counter + 3,
            },
        ),
    decreases v,
{
    let c = m.counter;
    let unit = seq!['[', '-', ']'];
    assert(p[c + 0] == unit[0] && p[c + 1] == unit[1] && p[c + 2] == unit[2]);
    assert forall|i: int| c < i < c + 2 implies plain(#[trigger] p[i]) by {
        assert(i == c + 1);
    }
    lemma_loop_brackets(p, c, c + 2);
    if v == 0 {
        assert(m.tape.update(m.pointer, 0) =~= m.tape);
        assert(next_machine(p, m) == Some(Machine { counter: c + 3, ..m }));
        lemma_one_step(p, m);
    } else {
        let m1 = Machine { counter: c + 1, ..m };
        let m2 = Machine { tape: m.tape.update(m.pointer, (v - 1) as u32), counter: c + 2, ..m };
        let m3 = Machine { counter: c, ..m2 };
        assert(next_machine(p, m) == Some(m1));
        assert(next_machine(p, m1) == Some(m2));
        assert(next_machine(p, m2) == Some(m3));
        lemma_run_zero_loop(p, m3, (v - 1) as nat);
        assert(m3.tape.update(m.pointer, 0) =~= m.tape.update(m.pointer, 0));
        assert(silent_steps(p, m, 3 * v + 1) == silent_steps(p, m1, (3 * v) as nat));
        assert(silent_steps(p, m1, (3 * v) as nat) == silent_steps(p, m2, (3 * v - 1) as nat));
        assert(silent_steps(p, m2, (3 * v - 1) as nat) == silent_steps(
            p,
            m3,
            (3 * v - 2) as nat,
        ));
    }
}

/// The steps that clearing the last `n` cells of `content` takes.
pub open spec fn clear_steps(content: Seq<u32>, n: nat) -> nat
    decreases n,
{
    if n == 0 {
        0
    } else {
        clear_steps(content, (n - 1) as nat) + 3 * (content[content.len() - n] as nat) + 2
    }
}

/// The text that clears one cell zeroes the top cell and moves onto the
/// one below.
proof fn lemma_run_clear_cell(p: Seq<char>, m: Machine, content: Seq<u32>)
    requires
        holds_at(p, m.counter, seq!['[', '-', ']', '<']),
        on_top(m, content),
        content.len() >= 2,
    ensures
        leads_to(p, m, 3 * (content.last() as nat) + 2, 4, content.drop_last()),
{
    let c = m.counter;
    let unit = seq!['[', '-', ']', '<'];
    let v = content.last() as nat;
    assert(p[c + 0] == unit[0] && p[c + 1] == unit[1] && p[c + 2] == unit[2] && p[c + 3]
        == unit[3]);
    let inner = seq!['[', '-', ']'];
    assert forall|i: int| 0 <= i < 3 implies p[c + i] == #[trigger] inner[i] by {}
    assert(holds_at(p, c, inner));
    assert(m.tape[m.pointer] == content[m.pointer]);
    lemma_run_zero_loop(p, m, v);
    let m1 = Machine { tape: m.tape.update(m.pointer, 0), pointer: m.pointer, counter: c + 3 };
    let m2 = Machine { pointer: m.pointer - 1, counter: c + 4, ..m1 };
    assert(next_machine(p, m1) == Some(m2));
    lemma_one_step(p, m1);
    lemma_steps_compose(p, m, 3 * v + 1, 1);
    assert(shape(m2.tape, content.drop_last()));
}

/// The text that clears `n` cells zeroes the last `n` cells of `content`,
/// right to left, and stops on the cell before them.
proof fn lemma_run_clear(p: Seq<char>, m: Machine, content: Seq<u32>, n: nat)
    requires
        holds_at(p, m.counter, clear_code(n)),
        on_top(m, content),
        content.len() >= n + 1,
    ensures
        leads_to(
            p,
            m,
            clear_steps(content, n),
            clear_code(n).len(),
            content.take(content.len() - n),
        ),
    decreases n,
{
    if n == 0 {
        assert(content.take(content.len() as int) =~= content);
    } else {
        let unit = seq!['[', '-', ']', '<'];
        let head = clear_code((n - 1) as nat);
        lemma_holds_split(p, m.counter, head, unit);
        lemma_run_clear(p, m, content, (n - 1) as nat);
        let kept = content.take(content.len() - (n - 1));
        let mid = silent_steps(p, m, clear_steps(content, (n - 1) as nat))->0;
        lemma_run_clear_cell(p, mid, kept);
        assert(kept.drop_last() =~= content.take(content.len() - n));
        assert(kept.last() == content[content.len() - n]);
        lemma_leads_chain(
            p,
            m,
            clear_steps(content, (n - 1) as nat),
            head.len(),
            kept,
            3 * (kept.last() as nat) + 2,
            4,
            content.take(content.len() - n),
        );
    }
}

/// The text of a pop, run on top of the cells of the value, zeroes them
/// and stops on the cell before them.
pub proof fn lemma_run_pop(p: Seq<char>, m: Machine, content: Seq<u32>, v: Type)
    requires
        holds_at(p, m.counter, pop_code(v)),
        on_top(m, content + encode(v)),
        content.len() >= 1,
    ensures
        leads_to(
            p,
            m,
            clear_steps(content + encode(v), cells(v)),
            pop_code(v).len(),
            content,
        ),
{
    let all = content + encode(v);
    assert(encode(v).len() == cells(v));
    lemma_run_clear(p, m, all, cells(v));
    assert(all.take(all.len() - cells(v)) =~= content);
}

/// The loop `[-<+>]` adds the current cell into the one to its left,
/// modulo 2^32, and leaves the current cell at zero.
proof fn lemma_run_add_loop(p: Seq<char>, m: Machine, x: u32, y: u32)
    requires
        holds_at(p, m.counter, seq!['[', '-', '<', '+', '>', ']']),
        1 <= m.pointer < m.tape.len(),
        m.tape[m.pointer - 1] == x,
        m.tape[m.pointer] == y,
    ensures
        silent_steps(p, m, (6 * y + 1) as nat) == Some(
            Machine {
                tape: m.tape.update(m.pointer - 1, cell_sum(x, y)).update(m.pointer, 0),
                pointer: m.pointer,
                counter: m.counter + 6,
            },
        ),
    decreases y,
{
    let c = m.counter;
    let t = m.pointer;
    let unit = seq!['[', '-', '<', '+', '>', ']'];
    assert(p[c + 0] == unit[0] && p[c + 1] == unit[1] && p[c + 2] == unit[2] && p[c + 3]
        == unit[3] && p[c + 4] == unit[4] && p[c + 5] == unit[5]);
    assert forall|i: int| c < i < c + 5 implies plain(#[trigger] p[i]) by {
        assert(i == c + 1 || i == c + 2 || i == c + 3 || i == c + 4);
    }
    lemma_loop_brackets(p, c, c + 5);
    if y == 0 {
        assert(m.tape.update(t - 1, cell_sum(x, y)).update(t, 0) =~= m.tape);
        assert(next_machine(p, m) == Some(Machine { counter: c + 6, ..m }));
        lemma_one_step(p, m);
    } else {
        let x1: u32 = if x == u32::MAX { 0 } else { (x + 1) as u32 };
        let y1: u32 = (y - 1) as u32;
        let m1 = Machine { counter: c + 1, ..m };
        let m2 = Machine { tape: m.tape.update(t, y1), counter: c + 2, ..m };
        let m3 = Machine { pointer: t - 1, counter: c + 3, ..m2 };
        let m4 = Machine { tape: m2.tape.update(t - 1, x1), counter: c + 4, ..m3 };
        let m5 = Machine { pointer: t, counter: c + 5, ..m4 };
        let m6 = Machine { counter: c, ..m5 };
        assert(next_machine(p, m) == Some(m1));
        assert(next_machine(p, m1) == Some(m2));
        assert(next_machine(p, m2) == Some(m3));
        assert(next_machine(p, m3) == Some(m4));
        assert(next_machine(p, m4) == Some(m5));
        assert(next_machine(p, m5) == Some(m6));
        lemma_run_add_loop(p, m6, x1, y1);
        assert(cell_sum(x1, y1) == cell_sum(x, y));
        assert(m6.tape.update(t - 1, cell_sum(x1, y1)).update(t, 0) =~= m.tape.update(
            t - 1,
            cell_sum(x, y),
        ).update(t, 0));
        let n = (6 * y + 1) as nat;
        assert(silent_steps(p, m, n) == silent_steps(p, m1, (n - 1) as nat));
        assert(silent_steps(p, m1, (n - 1) as nat) == silent_steps(p, m2, (n - 2) as nat));
        assert(silent_steps(p, m2, (n - 2) as nat) == silent_steps(p, m3, (n - 3) as nat));
        assert(silent_steps(p, m3, (n - 3) as nat) == silent_steps(p, m4, (n - 4) as nat));
        assert(silent_steps(p, m4, (n - 4) as nat) == silent_steps(p, m5, (n - 5) as nat));
        assert(silent_steps(p, m5, (n - 5) as nat) == silent_steps(p, m6, (n - 6) as nat));
    }
}

/// The text of an addition, run on top of two cells, leaves their sum
/// modulo 2^32 in the first, zero in the second, and stops on the first.
pub proof fn lemma_run_add(p: Seq<char>, m: Machine, content: Seq<u32>, x: u32, y: u32)
    requires
        holds_at(p, m.counter, add_code()),
        on_top(m, content.push(x).push(y)),
        content.len() >= 1,
    ensures
        leads_to(p, m, (6 * y + 2) as nat, 7, content.push(cell_sum(x, y))),
{
    let c = m.counter;
    let code = add_code();
    let both = content.push(x).push(y);
    assert(p[c + 6] == code[6]);
    let inner = seq!['[', '-', '<', '+', '>', ']'];
    assert forall|i: int| 0 <= i < 6 implies p[c + i] == #[trigger] inner[i] by {
        assert(p[c + i] == code[i]);
    }
    assert(holds_at(p, c, inner));
    assert(m.tape[m.pointer] == both[m.pointer]);
    assert(m.tape[m.pointer - 1] == both[m.pointer - 1]);
    lemma_run_add_loop(p, m, x, y);
    let m1 = Machine {
        tape: m.tape.update(m.pointer - 1, cell_sum(x, y)).update(m.pointer, 0),
        pointer: m.pointer,
        counter: c + 6,
    };
    let m2 = Machine { pointer: m.pointer - 1, counter: c + 7, ..m1 };
    assert(next_machine(p, m1) == Some(m2));
    lemma_one_step(p, m1);
    lemma_steps_compose(p, m, (6 * y + 1) as nat, 1);
    assert(shape(m2.tape, content.push(cell_sum(x, y))));
}

/// A machine at the start of its program, on a tape of one zero cell.
pub open spec fn fresh() -> Machine {
    Machine { tape: seq![0u32], pointer: 0, counter: 0 }
}

/// The cells of a stack, bottom first.
pub open spec fn layout(stack: Seq<Type>) -> Seq<u32>
    decreases stack.len(),
{
    if stack.len() == 0 {
        Seq::empty()
    } else {
        layout(stack.drop_last()) + encode(stack.last())
    }
}

/// The text builds the stack: run as a program on a fresh machine, with no
/// input or output, it comes to its end without a failure, and then the
/// tape holds the zero cell it started with, the cells of the stack, and
/// zeros, with the pointer on the last cell of the value on top.
pub open spec fn builds(s: Compiled) -> bool {
    &&& s.code.len() <= usize::MAX
    &&& exists|steps: nat|
        #[trigger] leads_to(s.code, fresh(), steps, s.code.len(), seq![0u32] + layout(s.stack))
}

/// The empty text builds the empty stack.
pub proof fn lemma_new_builds()
    ensures
        builds(Compiled { stack: Seq::empty(), code: Seq::empty() }),
{
    let s = Compiled { stack: Seq::<Type>::empty(), code: Seq::<char>::empty() };
    assert(seq![0u32] + layout(s.stack) =~= seq![0u32]);
    assert(leads_to(s.code, fresh(), 0, 0, seq![0u32] + layout(s.stack)));
}

/// A text that builds a stack, with a further text that fits behind it
/// and leads from the top of the stack's cells to the top of `after`,
/// builds whatever stack has the cells `after`.
proof fn lemma_builds_on(
    s: Compiled,
    steps: nat,
    more: Seq<char>,
    more_steps: nat,
    to: Compiled,
)
    requires
        leads_to(s.code, fresh(), steps, s.code.len(), seq![0u32] + layout(s.stack)),
        to.code == s.code + more,
        to.code.len() <= usize::MAX,
        leads_to(
            to.code,
            silent_steps(s.code, fresh(), steps)->0,
            more_steps,
            more.len(),
            seq![0u32] + layout(to.stack),
        ),
    ensures
        builds(to),
{
    lemma_steps_extend(s.code, more, fresh(), steps);
    lemma_leads_chain(
        to.code,
        fresh(),
        steps,
        s.code.len(),
        seq![0u32] + layout(s.stack),
        more_steps,
        more.len(),
        seq![0u32] + layout(to.stack),
    );
    let total = steps + more_steps;
    assert(leads_to(to.code, fresh(), total, to.code.len(), seq![0u32] + layout(to.stack)));
}

/// A push keeps text and stack in step: where the text built the stack
/// before, it builds the stack after.
pub proof fn lemma_push_builds(s: Compiled, v: Type)
    requires
        builds(s),
        push_spec(s, v).code.len() <= usize::MAX,
    ensures
        builds(push_spec(s, v)),
{
    let to = push_spec(s, v);
    let steps = choose|steps: nat|
        #[trigger] leads_to(s.code, fresh(), steps, s.code.len(), seq![0u32] + layout(s.stack));
    let content = seq![0u32] + layout(s.stack);
    let e = silent_steps(s.code, fresh(), steps)->0;
    assert forall|i: int| 0 <= i < push_code(v).len() implies to.code[s.code.len() + i]
        == #[trigger] push_code(v)[i] by {}
    lemma_run_push(to.code, e, content, v);
    assert(to.stack.drop_last() =~= s.stack);
    assert(content + encode(v) =~= seq![0u32] + layout(to.stack));
    lemma_builds_on(s, steps, push_code(v), push_code(v).len(), to);
}

/// A pop keeps text and stack in step.
pub proof fn lemma_pop_builds(s: Compiled)
    requires
        builds(s),
        match pop_spec(s) {
            Some((_, to)) => to.code.len() <= usize::MAX,
            None => false,
        },
    ensures
        match pop_spec(s) {
            Some((_, to)) => builds(to),
            None => false,
        },
{
    let v = s.stack.last();
    let to = Compiled { stack: s.stack.drop_last(), code: s.code + pop_code(v) };
    let steps = choose|steps: nat|
        #[trigger] leads_to(s.code, fresh(), steps, s.code.len(), seq![0u32] + layout(s.stack));
    let content = seq![0u32] + layout(to.stack);
    let e = silent_steps(s.code, fresh(), steps)->0;
    assert forall|i: int| 0 <= i < pop_code(v).len() implies to.code[s.code.len() + i]
        == #[trigger] pop_code(v)[i] by {}
    assert(content + encode(v) =~= seq![0u32] + layout(s.stack));
    lemma_run_pop(to.code, e, content, v);
    lemma_builds_on(s, steps, pop_code(v), clear_steps(content + encode(v), cells(v)), to);
}

/// An addition keeps text and stack in step.
pub proof fn lemma_add_builds(s: Compiled)
    requires
        builds(s),
        match add_spec(s) {
            Some(to) => to.code.len() <= usize::MAX,
            None => false,
        },
    ensures
        match add_spec(s) {
            Some(to) => builds(to),
            None => false,
        },
{
    let (x, y) = addends(s.stack)->0;
    let to = add_spec(s)->0;
    let below = s.stack.subrange(0, s.stack.len() - 2);
    let steps = choose|steps: nat|
        #[trigger] leads_to(s.code, fresh(), steps, s.code.len(), seq![0u32] + layout(s.stack));
    let content = seq![0u32] + layout(below);
    let e = silent_steps(s.code, fresh(), steps)->0;
    assert forall|i: int| 0 <= i < add_code().len() implies to.code[s.code.len() + i]
        == #[trigger] add_code()[i] by {}
    let upper = s.stack.drop_last();
    assert(upper.drop_last() =~= below);
    assert(s.stack.last() == Type::UnsignedInt32(y));
    assert(upper.last() == Type::UnsignedInt32(x));
    assert(layout(upper) == layout(below) + encode(upper.last()));
    assert(layout(s.stack) == layout(upper) + encode(s.stack.last()));
    assert(layout(s.stack) =~= layout(below) + seq![x] + seq![y]);
    assert(content.push(x).push(y) =~= seq![0u32] + layout(s.stack));
    lemma_run_add(to.code, e, content, x, y);
    assert(to.stack.drop_last() =~= below);
    assert(content.push(cell_sum(x, y)) =~= seq![0u32] + layout(to.stack));
    lemma_builds_on(s, steps, add_code(), (6 * y + 2) as nat, to);
}

/// A text that builds a stack is a program that runs to its end: some run
/// of it from a fresh machine succeeds and stops on top of the cells of
/// the stack.
pub proof fn lemma_built_text_runs(s: Compiled)
    requires
        builds(s),
    ensures
        exists|steps: nat|
            {
                let o = #[trigger] run_spec(s.code, fresh(), silence(steps));
                &&& run_result(s.code, o) == Ok::<(), BFError>(())
                &&& on_top(o.machine, seq![0u32] + layout(s.stack))
            },
{
    let steps = choose|steps: nat|
        #[trigger] leads_to(s.code, fresh(), steps, s.code.len(), seq![0u32] + layout(s.stack));
    lemma_steps_are_a_run(s.code, fresh(), steps);
    let o = run_spec(s.code, fresh(), silence(steps));
    assert(run_result(s.code, o) == Ok::<(), BFError>(()));
}

} // verus!
