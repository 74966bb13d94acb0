//! The tokenizer: a forward cursor over the instruction characters of a text.

use crate::syntax::{all_instructions, is_instruction, tokens};
use vstd::prelude::*;
use vstd::utf8::{encode_scalar, encode_utf8};

verus! {

/// The instruction characters among the bytes `b`, each byte read as the
/// character of that code.
pub open spec fn byte_tokens(b: Seq<u8>) -> Seq<char>
    decreases b.len(),
{
    if b.len() == 0 {
        Seq::empty()
    } else if is_instruction(b[0] as char) {
        seq![b[0] as char] + byte_tokens(b.skip(1))
    } else {
        byte_tokens(b.skip(1))
    }
}

/// Every character that `byte_tokens` yields is an instruction.
proof fn lemma_byte_tokens_are_instructions(b: Seq<u8>)
    ensures
        all_instructions(byte_tokens(b)),
    decreases b.len(),
{
    if b.len() > 0 {
        lemma_byte_tokens_are_instructions(b.skip(1));
    }
}

/// The instruction characters of two byte strings in a row are those of the
/// first followed by those of the second.
proof fn lemma_byte_tokens_concat(a: Seq<u8>, b: Seq<u8>)
    ensures
        byte_tokens(a + b) == byte_tokens(a) + byte_tokens(b),
    decreases a.len(),
{
    if a.len() == 0 {
        assert(a + b =~= b);
        assert(byte_tokens(a) + byte_tokens(b) =~= byte_tokens(b));
    } else {
        assert((a + b).skip(1) =~= a.skip(1) + b);
        lemma_byte_tokens_concat(a.skip(1), b);
        assert((a + b)[0] == a[0]);
        if is_instruction(a[0] as char) {
            assert(seq![a[0] as char] + (byte_tokens(a.skip(1)) + byte_tokens(b)) =~= (seq![
                a[0] as char,
            ] + byte_tokens(a.skip(1))) + byte_tokens(b));
        }
    }
}

/// In the UTF-8 encoding of one character, the only byte that can be an
/// instruction is the single byte of an instruction character itself.
proof fn lemma_byte_tokens_of_char(c: char)
    ensures
        byte_tokens(encode_scalar(c as u32)) == tokens(seq![c]),
{
    let v = c as u32;
    let enc = encode_scalar(v);
    reveal_with_fuel(byte_tokens, 5);
    reveal_with_fuel(Seq::filter, 2);
    assert(seq![c].drop_last() =~= Seq::<char>::empty());
    assert(v <= 0x7F ==> (v & 0x7F) as u8 == v) by (bit_vector);
    assert(v >= 0x80 ==> 0xC0u8 | ((v >> 6) & 0x1F) as u8 >= 0x80) by (bit_vector);
    assert(v >= 0x80 ==> 0xE0u8 | ((v >> 12) & 0x0F) as u8 >= 0x80) by (bit_vector);
    assert(v >= 0x80 ==> 0xF0u8 | ((v >> 18) & 0x7) as u8 >= 0x80) by (bit_vector);
    assert(0x80u8 | (v & 0x3F) as u8 >= 0x80) by (bit_vector);
    assert(0x80u8 | ((v >> 6) & 0x3F) as u8 >= 0x80) by (bit_vector);
    assert(0x80u8 | ((v >> 12) & 0x3F) as u8 >= 0x80) by (bit_vector);
    if v <= 0x7F {
        assert(enc[0] as char == c);
        assert(enc.skip(1) =~= Seq::<u8>::empty());
        assert(byte_tokens(enc) =~= tokens(seq![c]));
    } else {
        assert(!is_instruction(c));
        assert forall|i: int| 0 <= i < enc.len() implies enc[i] >= 0x80 by {}
        assert(forall|i: int| 0 <= i < enc.len() ==> !is_instruction(#[trigger] enc[i] as char));
        assert(enc.skip(1).skip(1).skip(1).skip(1).len() == 0 || enc.len() < 4);
        assert(byte_tokens(enc) =~= Seq::<char>::empty());
        assert(tokens(seq![c]) =~= Seq::<char>::empty());
    }
}

/// Scanning the UTF-8 bytes of a text for instruction bytes finds the
/// instruction characters of the text.
pub proof fn lemma_byte_tokens_of_text(text: Seq<char>)
    ensures
        byte_tokens(encode_utf8(text)) == tokens(text),
    decreases text.len(),
{
    if text.len() == 0 {
        assert(tokens(text) =~= Seq::<char>::empty()) by {
            reveal_with_fuel(Seq::filter, 1);
        }
    } else {
        let head = seq![text[0]];
        let tail = text.drop_first();
        assert(text =~= head + tail);
        Seq::filter_distributes_over_add(head, tail, |c: char| is_instruction(c));
        lemma_byte_tokens_of_char(text[0]);
        lemma_byte_tokens_of_text(tail);
        lemma_byte_tokens_concat(encode_scalar(text[0] as u32), encode_utf8(tail));
    }
}

/// A forward cursor over the instruction characters of a text.
///
/// `token` is the current instruction character, or `None` at the end of the
/// text. Characters that are no instructions are passed over.
pub struct Tokenizer<'a> {
    /// The current token.
    pub token: Option<char>,
    /// The text, as UTF-8.
    pub bytes: &'a [u8],
    /// Where scanning goes on: just after the current token.
    pub pos: usize,
}

impl<'a> View for Tokenizer<'a> {
    type V = Seq<char>;

    /// The tokens not yet consumed: the current one, then those after it.
    open spec fn view(&self) -> Seq<char> {
        match self.token {
            Some(c) => seq![c] + self.upcoming(),
            None => self.upcoming(),
        }
    }
}

impl<'a> Tokenizer<'a> {
    /// The instruction characters after the current token.
    pub closed spec fn upcoming(&self) -> Seq<char> {
        if self.pos <= self.bytes@.len() {
            byte_tokens(self.bytes@.skip(self.pos as int))
        } else {
            Seq::empty()
        }
    }

    /// The current token is an instruction, and it is `None` only where no
    /// token is left.
    pub open spec fn wf(&self) -> bool {
        &&& all_instructions(self@)
        &&& self.token is None ==> self@.len() == 0
    }

    /// A tokenizer on the first token of `program`.
    pub fn new(program: &'a str) -> (tk: Tokenizer<'a>)
        ensures
            tk.wf(),
            tk@ == tokens(program@),
    {
        let mut tk = Tokenizer { token: None, bytes: program.as_bytes(), pos: 0 };
        proof {
            lemma_byte_tokens_of_text(program@);
            assert(tk.bytes@.skip(0) =~= tk.bytes@);
        }
        tk.consume();
        tk
    }

    /// Drops the current token and moves to the next instruction character,
    /// or to the end of the text.
    pub fn consume(&mut self)
        ensures
            final(self).wf(),
            final(self)@ == old(self).upcoming(),
    {
        proof {
            lemma_byte_tokens_are_instructions(self.bytes@.skip(self.pos as int));
        }
        loop
            invariant
                self.bytes == old(self).bytes,
                self.upcoming() == old(self).upcoming(),
                all_instructions(old(self).upcoming()),
            decreases self.bytes@.len() - self.pos,
        {
            if self.pos >= self.bytes.len() {
                self.token = None;
                return ;
            }
            let c = self.bytes[self.pos] as char;
            proof {
                let here = self.bytes@.skip(self.pos as int);
                assert(here.skip(1) =~= self.bytes@.skip(self.pos + 1));
                assert(here[0] == self.bytes@[self.pos as int]);
            }
            self.pos = self.pos + 1;
            if c == '-' || c == '+' || c == '[' || c == ']' || c == '<' || c == '>' || c == ','
                || c == '.' {
                self.token = Some(c);
                return ;
            }
        }
    }
}

} // verus!
