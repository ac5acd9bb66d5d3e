//! The program text as markup, with the instruction under the counter
//! marked.

use vstd::prelude::*;
use vstd::string::*;

verus! {

/// A character as HTML text: the five characters that HTML reads as markup
/// become entities, every other character stands for itself.
pub open spec fn escaped(c: char) -> Seq<char> {
    if c == '"' {
        "&quot;"@
    } else if c == '&' {
        "&amp;"@
    } else if c == '\'' {
        "&#x27;"@
    } else if c == '<' {
        "&lt;"@
    } else if c == '>' {
        "&gt;"@
    } else {
        seq![c]
    }
}

/// A text as HTML text: each character escaped, in order.
pub open spec fn escaped_text(s: Seq<char>) -> Seq<char>
    decreases s.len(),
{
    if s.len() == 0 {
        Seq::empty()
    } else {
        escaped_text(s.drop_last()) + escaped(s.last())
    }
}

/// One instruction as markup: escaped, and inside a red span where it is
/// the marked one.
pub open spec fn labelled(c: char, marked: bool) -> Seq<char> {
    if marked {
        "<span style=\"color: red\">"@ + escaped(c) + "</span>"@
    } else {
        escaped(c)
    }
}

/// The program as markup, with the instruction at `index` marked.
pub open spec fn label_spec(p: Seq<char>, index: int) -> Seq<char>
    decreases p.len(),
{
    if p.len() == 0 {
        Seq::empty()
    } else {
        label_spec(p.drop_last(), index) + labelled(p.last(), p.len() - 1 == index)
    }
}

/// `htmlescape::encode_minimal`: walks the characters of `s` in order and
/// writes, for `"`, `&`, `'`, `<` and `>`, the entity that its table gives,
/// and for any other character the character itself. It writes into a
/// vector, so it does not fail.
#[verifier::external_body]
fn encode_minimal(s: &str) -> (r: String)
    ensures
        r@ == escaped_text(s@),
{
    htmlescape::encode_minimal(s)
}

/// The program as HTML, each character escaped, with the instruction under
/// the counter in a red span. A counter past the end marks nothing.
pub fn label_program(program: &str, program_index: usize) -> (r: String)
    ensures
        r@ == label_spec(program@, program_index as int),
{
    let len: usize = program.unicode_len();
    let mut out = String::new();
    let mut i: usize = 0;
    assert(program@.take(0) =~= Seq::<char>::empty());
    while i < len
        invariant
            len == program@.len(),
            i <= len,
            out@ == label_spec(program@.take(i as int), program_index as int),
        decreases len - i,
    {
        let piece: &str = program.substring_char(i, i + 1);
        let text: String = encode_minimal(piece);
        proof {
            let c = program@[i as int];
            assert(piece@ =~= seq![c]);
            assert(piece@.drop_last() =~= Seq::<char>::empty());
            assert(escaped_text(piece@) =~= escaped(c)) by {
                reveal_with_fuel(escaped_text, 2);
            }
            assert(program@.take(i + 1).drop_last() =~= program@.take(i as int));
        }
        let ghost before = out@;
        if i == program_index {
            out.append("<span style=\"color: red\">");
            out.append(text.as_str());
            out.append("</span>");
        } else {
            out.append(text.as_str());
        }
        assert(out@ =~= before + labelled(program@[i as int], i == program_index));
        i = i + 1;
    }
    assert(program@.take(len as int) =~= program@);
    out
}

} // verus!
