//! What a source text means: its tokens, and the tree they parse to.
//!
//! Everything here is specification. The executable tokenizer and parser are
//! proved to compute these functions.

use crate::parser::ParseError;
use crate::tape::wrap_delta;
use vstd::prelude::*;

verus! {

/// Mathematical model of a parsed program.
pub enum Ast {
    /// Does nothing.
    Empty,
    /// Emits the cell under the pointer.
    Output,
    /// Reads one byte into the cell under the pointer.
    Input,
    /// Moves the pointer by the net displacement of a run of `<` and `>`.
    MovePointer(int),
    /// Adds the net delta of a run of `+` and `-` to the cell under the pointer.
    AddValue(int),
    /// Runs its children from left to right.
    Sequence(Seq<Ast>),
    /// Repeats its body while the cell under the pointer is not zero.
    Loop(Box<Ast>),
}

/// The eight characters that are instructions. Every other character is a
/// comment.
pub open spec fn is_instruction(c: char) -> bool {
    c == '+' || c == '-' || c == '<' || c == '>' || c == '[' || c == ']' || c == ',' || c == '.'
}

/// The instruction characters of `source`, in order.
pub open spec fn tokens(source: Seq<char>) -> Seq<char> {
    source.filter(|c: char| is_instruction(c))
}

/// Every element of `ts` is an instruction character.
pub open spec fn all_instructions(ts: Seq<char>) -> bool {
    forall|i: int| 0 <= i < ts.len() ==> is_instruction(#[trigger] ts[i])
}

/// Length of the longest prefix of `ts` that holds only `a` and `b`.
pub open spec fn run_len(ts: Seq<char>, a: char, b: char) -> nat
    decreases ts.len(),
{
    if ts.len() > 0 && (ts[0] == a || ts[0] == b) {
        1 + run_len(ts.skip(1), a, b)
    } else {
        0
    }
}

/// How often `c` occurs in `ts`.
pub open spec fn count(ts: Seq<char>, c: char) -> nat
    decreases ts.len(),
{
    if ts.len() == 0 {
        0
    } else {
        count(ts.drop_last(), c) + if ts.last() == c {
            1nat
        } else {
            0nat
        }
    }
}

/// Occurrences of `up` less occurrences of `down` in the leading run of the
/// two.
pub open spec fn run_net(ts: Seq<char>, up: char, down: char) -> int {
    let run = ts.take(run_len(ts, up, down) as int);
    count(run, up) - count(run, down)
}

/// The signed machine word congruent to `v` modulo the number of words.
pub open spec fn wrap_offset(v: int) -> int {
    let words = usize::MAX + 1;
    if v % words > isize::MAX {
        v % words - words
    } else {
        v % words
    }
}

/// Counting one up or down and reducing moves the reduced value by one,
/// around the ends of the range of the signed machine word.
pub proof fn lemma_wrap_offset_step(n: int)
    ensures
        isize::MIN <= wrap_offset(n) <= isize::MAX,
        wrap_offset(n + 1) == if wrap_offset(n) == isize::MAX {
            isize::MIN as int
        } else {
            wrap_offset(n) + 1
        },
        wrap_offset(n - 1) == if wrap_offset(n) == isize::MIN {
            isize::MAX as int
        } else {
            wrap_offset(n) - 1
        },
        wrap_offset(0) == 0,
{
    if usize::MAX == 0xffff_ffff {
        let w = 0x1_0000_0000int;
        let (r, q) = (n % w, n / w);
        assert(n == w * q + r);
        let (r1, q1) = ((n + 1) % w, (n + 1) / w);
        assert(n + 1 == w * q1 + r1);
        assert(w * (q1 - q) == r + 1 - r1);
        let (r2, q2) = ((n - 1) % w, (n - 1) / w);
        assert(n - 1 == w * q2 + r2);
        assert(w * (q2 - q) == r - 1 - r2);
    } else {
        let w = 0x1_0000_0000_0000_0000int;
        let (r, q) = (n % w, n / w);
        assert(n == w * q + r);
        let (r1, q1) = ((n + 1) % w, (n + 1) / w);
        assert(n + 1 == w * q1 + r1);
        assert(w * (q1 - q) == r + 1 - r1);
        let (r2, q2) = ((n - 1) % w, (n - 1) / w);
        assert(n - 1 == w * q2 + r2);
        assert(w * (q2 - q) == r - 1 - r2);
    }
}

/// A value within the range of the signed machine word is left as it is.
pub proof fn lemma_wrap_offset_exact(n: int)
    requires
        isize::MIN <= n <= isize::MAX,
    ensures
        wrap_offset(n) == n,
{
    if usize::MAX == 0xffff_ffff {
        let w = 0x1_0000_0000int;
        let (r, q) = (n % w, n / w);
        assert(n == w * q + r);
        assert(q == 0 || q == -1);
    } else {
        let w = 0x1_0000_0000_0000_0000int;
        let (r, q) = (n % w, n / w);
        assert(n == w * q + r);
        assert(q == 0 || q == -1);
    }
}

/// A tree parsed from the front of a token sequence, and the tokens after it.
pub struct Parsed {
    pub tree: Ast,
    pub rest: Seq<char>,
}

/// One instruction parsed from the front of `ts`.
///
/// A run of `+` and `-` folds into one `AddValue` whose delta is the net count
/// reduced to a signed 8-bit value. A run of `<` and `>` folds into one
/// `MovePointer` whose offset is the net count reduced to a signed machine
/// word, which is the net count itself for every text that fits in memory
/// (`lemma_offset_is_exact`). `[` opens a loop whose body reaches to the
/// matching `]`. A `]` met here matches no `[`. With no token left the
/// instruction is `Empty`.
pub open spec fn instruction(ts: Seq<char>) -> Result<Parsed, ParseError>
    decreases ts.len(), 0nat,
{
    if ts.len() == 0 {
        Ok(Parsed { tree: Ast::Empty, rest: ts })
    } else if ts[0] == '+' || ts[0] == '-' {
        Ok(
            Parsed {
                tree: Ast::AddValue(wrap_delta(run_net(ts, '+', '-'))),
                rest: ts.skip(run_len(ts, '+', '-') as int),
            },
        )
    } else if ts[0] == '>' || ts[0] == '<' {
        Ok(
            Parsed {
                tree: Ast::MovePointer(wrap_offset(run_net(ts, '>', '<'))),
                rest: ts.skip(run_len(ts, '>', '<') as int),
            },
        )
    } else if ts[0] == ',' {
        Ok(Parsed { tree: Ast::Input, rest: ts.skip(1) })
    } else if ts[0] == '.' {
        Ok(Parsed { tree: Ast::Output, rest: ts.skip(1) })
    } else if ts[0] == '[' {
        match items(ts.skip(1), Seq::empty(), true) {
            Ok(body) => Ok(Parsed { tree: Ast::Loop(Box::new(body.tree)), rest: body.rest }),
            Err(e) => Err(e),
        }
    } else {
        Err(ParseError::UnmatchedClose)
    }
}

/// The instructions parsed from `ts` one after another, appended to `done` and
/// gathered in a `Sequence`.
///
/// At the top level (`nested` false) the sequence ends where the tokens end.
/// In a loop body (`nested` true) it ends at the `]`, which is taken; tokens
/// that end before it leave the loop unmatched.
pub open spec fn items(ts: Seq<char>, done: Seq<Ast>, nested: bool) -> Result<Parsed, ParseError>
    decreases ts.len(), 1nat,
{
    if ts.len() == 0 {
        if nested {
            Err(ParseError::UnmatchedOpen)
        } else {
            Ok(Parsed { tree: Ast::Sequence(done), rest: ts })
        }
    } else if nested && ts[0] == ']' {
        Ok(Parsed { tree: Ast::Sequence(done), rest: ts.skip(1) })
    } else {
        match instruction(ts) {
            Ok(first) => if first.rest.len() < ts.len() {
                items(first.rest, done.push(first.tree), nested)
            } else {
                // Never taken: an instruction leaves fewer tokens than it
                // was given (`lemma_instruction_consumes`). The test is here
                // to show that this definition ends.
                Err(ParseError::UnmatchedOpen)
            },
            Err(e) => Err(e),
        }
    }
}

/// The tree that `source` parses to, or the reason why it has none.
///
/// A text of length zero is no program. Any other text is the sequence of the
/// instructions that its tokens spell.
pub open spec fn parse_spec(source: Seq<char>) -> Result<Ast, ParseError> {
    if source.len() == 0 {
        Err(ParseError::EmptyProgram)
    } else {
        match items(tokens(source), Seq::empty(), false) {
            Ok(program) => Ok(program.tree),
            Err(e) => Err(e),
        }
    }
}

/// A prefix of `k` tokens that all are `a` or `b`, followed by the end or by
/// another token, is the leading run.
pub proof fn lemma_run_len(ts: Seq<char>, a: char, b: char, k: int)
    requires
        0 <= k <= ts.len(),
        forall|i: int| 0 <= i < k ==> ts[i] == a || ts[i] == b,
        k == ts.len() || !(ts[k] == a || ts[k] == b),
    ensures
        run_len(ts, a, b) == k,
    decreases k,
{
    if k > 0 {
        let tail = ts.skip(1);
        assert forall|i: int| 0 <= i < k - 1 implies tail[i] == a || tail[i] == b by {
            assert(tail[i] == ts[i + 1]);
        }
        lemma_run_len(tail, a, b, k - 1);
    }
}

/// Counting over one more token adds one where that token is `c`.
pub proof fn lemma_count_step(ts: Seq<char>, k: int, c: char)
    requires
        0 <= k < ts.len(),
    ensures
        count(ts.take(k + 1), c) == count(ts.take(k), c) + if ts[k] == c {
            1nat
        } else {
            0nat
        },
{
    assert(ts.take(k + 1).drop_last() =~= ts.take(k));
}

/// No character occurs more often than there are tokens.
pub proof fn lemma_count_bound(ts: Seq<char>, c: char)
    ensures
        count(ts, c) <= ts.len(),
    decreases ts.len(),
{
    if ts.len() > 0 {
        lemma_count_bound(ts.drop_last(), c);
    }
}

/// Of no more tokens than a signed machine word can count, the net count of a
/// run is the offset as it stands: reducing it changes nothing.
pub proof fn lemma_offset_is_exact(ts: Seq<char>)
    requires
        ts.len() <= isize::MAX,
    ensures
        wrap_offset(run_net(ts, '>', '<')) == run_net(ts, '>', '<'),
        -ts.len() <= run_net(ts, '>', '<') <= ts.len(),
{
    lemma_run_bounds(ts, '>', '<');
    let run = ts.take(run_len(ts, '>', '<') as int);
    lemma_count_bound(run, '>');
    lemma_count_bound(run, '<');
    lemma_wrap_offset_exact(run_net(ts, '>', '<'));
}

/// An instruction leaves no more tokens than it was given, and fewer where
/// there was one to take.
pub proof fn lemma_instruction_consumes(ts: Seq<char>)
    ensures
        instruction(ts) matches Ok(p) ==> p.rest.len() <= ts.len() && (ts.len() > 0
            ==> p.rest.len() < ts.len()),
    decreases ts.len(), 0nat,
{
    if ts.len() == 0 {
    } else if ts[0] == '+' || ts[0] == '-' {
        lemma_run_bounds(ts, '+', '-');
    } else if ts[0] == '>' || ts[0] == '<' {
        lemma_run_bounds(ts, '>', '<');
    } else if ts[0] == '[' {
        lemma_items_consume(ts.skip(1), Seq::empty(), true);
    }
}

/// A sequence of instructions leaves no more tokens than it was given; a loop
/// body takes at least its `]`.
pub proof fn lemma_items_consume(ts: Seq<char>, done: Seq<Ast>, nested: bool)
    ensures
        items(ts, done, nested) matches Ok(p) ==> p.rest.len() <= ts.len() && (nested
            ==> p.rest.len() < ts.len()),
    decreases ts.len(), 1nat,
{
    if ts.len() == 0 {
    } else if nested && ts[0] == ']' {
    } else {
        lemma_instruction_consumes(ts);
        if let Ok(first) = instruction(ts) {
            lemma_items_consume(first.rest, done.push(first.tree), nested);
        }
    }
}

/// The leading run is no longer than the sequence, and not empty where the
/// first token belongs to it.
pub proof fn lemma_run_bounds(ts: Seq<char>, a: char, b: char)
    ensures
        run_len(ts, a, b) <= ts.len(),
        ts.len() > 0 && (ts[0] == a || ts[0] == b) ==> run_len(ts, a, b) >= 1,
    decreases ts.len(),
{
    if ts.len() > 0 && (ts[0] == a || ts[0] == b) {
        lemma_run_bounds(ts.skip(1), a, b);
    }
}

/// What one more character at the end adds to the tokens: itself where it is
/// an instruction, nothing where it is a comment.
pub proof fn lemma_tokens_push(source: Seq<char>, c: char)
    ensures
        tokens(source.push(c)) == if is_instruction(c) {
            tokens(source).push(c)
        } else {
            tokens(source)
        },
        tokens(Seq::empty()) == Seq::<char>::empty(),
{
    reveal_with_fuel(Seq::filter, 2);
    assert(source.push(c).drop_last() =~= source);
}

/// The tokens of two texts in a row are those of the first followed by those
/// of the second.
pub proof fn lemma_tokens_concat(a: Seq<char>, b: Seq<char>)
    ensures
        tokens(a + b) == tokens(a) + tokens(b),
{
    Seq::filter_distributes_over_add(a, b, |c: char| is_instruction(c));
}

/// A text of comments only has no tokens. Where its length is zero it is no
/// program; otherwise it parses to the empty sequence.
pub proof fn lemma_comment_only_text(source: Seq<char>)
    requires
        forall|i: int| 0 <= i < source.len() ==> !is_instruction(#[trigger] source[i]),
    ensures
        tokens(source) == Seq::<char>::empty(),
        source.len() == 0 ==> parse_spec(source) == Err::<Ast, ParseError>(
            ParseError::EmptyProgram,
        ),
        source.len() > 0 ==> parse_spec(source) == Ok::<Ast, ParseError>(
            Ast::Sequence(Seq::empty()),
        ),
    decreases source.len(),
{
    if source.len() == 0 {
        assert(source =~= Seq::<char>::empty());
        lemma_tokens_push(source, ' ');
    } else {
        lemma_comment_only_text(source.drop_last());
        lemma_tokens_push(source.drop_last(), source.last());
        assert(source.drop_last().push(source.last()) =~= source);
    }
}

/// A comment character put anywhere into a text leaves the tokens as they
/// were.
pub proof fn lemma_comment_leaves_tokens(source: Seq<char>, at: int, comment: char)
    requires
        0 <= at <= source.len(),
        !is_instruction(comment),
    ensures
        tokens(source.insert(at, comment)) == tokens(source),
{
    let front = source.subrange(0, at);
    let back = source.subrange(at, source.len() as int);
    lemma_tokens_push(front, comment);
    lemma_tokens_concat(front.push(comment), back);
    lemma_tokens_concat(front, back);
    assert(front + back =~= source);
}

/// A comment character put anywhere into a text that is not empty leaves the
/// parsed tree, or the error, as it was.
pub proof fn lemma_comment_leaves_tree(source: Seq<char>, at: int, comment: char)
    requires
        source.len() > 0,
        0 <= at <= source.len(),
        !is_instruction(comment),
    ensures
        parse_spec(source.insert(at, comment)) == parse_spec(source),
{
    lemma_comment_leaves_tokens(source, at, comment);
}

/// Two texts with the same tokens, neither of them empty, parse to the same
/// tree or fail with the same error.
pub proof fn lemma_tree_depends_on_tokens(a: Seq<char>, b: Seq<char>)
    requires
        a.len() > 0,
        b.len() > 0,
        tokens(a) == tokens(b),
    ensures
        parse_spec(a) == parse_spec(b),
{
}

/// In a tree of this shape every loop holds a sequence.
pub open spec fn loops_hold_sequences(tree: Ast) -> bool
    decreases tree,
{
    match tree {
        Ast::Sequence(children) => forall|i: int|
            0 <= i < children.len() ==> loops_hold_sequences(#[trigger] children[i]),
        Ast::Loop(body) => *body is Sequence && loops_hold_sequences(*body),
        _ => true,
    }
}

/// Every instruction parsed has its loops around sequences.
pub proof fn lemma_instruction_shape(ts: Seq<char>)
    ensures
        instruction(ts) matches Ok(p) ==> loops_hold_sequences(p.tree),
    decreases ts.len(), 0nat,
{
    if ts.len() > 0 && ts[0] == '[' {
        lemma_items_shape(ts.skip(1), Seq::empty(), true);
    }
}

/// Every sequence parsed is a sequence, with its loops around sequences,
/// where that holds of what was gathered before.
pub proof fn lemma_items_shape(ts: Seq<char>, done: Seq<Ast>, nested: bool)
    requires
        forall|i: int| 0 <= i < done.len() ==> loops_hold_sequences(#[trigger] done[i]),
    ensures
        items(ts, done, nested) matches Ok(p) ==> p.tree is Sequence && loops_hold_sequences(
            p.tree,
        ),
    decreases ts.len(), 1nat,
{
    if ts.len() == 0 {
    } else if nested && ts[0] == ']' {
    } else {
        lemma_instruction_shape(ts);
        if let Ok(first) = instruction(ts) {
            if first.rest.len() < ts.len() {
                lemma_items_shape(first.rest, done.push(first.tree), nested);
            }
        }
    }
}

/// A parsed program is a sequence in which every loop holds a sequence.
pub proof fn lemma_parsed_shape(source: Seq<char>)
    ensures
        parse_spec(source) matches Ok(tree) ==> tree is Sequence && loops_hold_sequences(tree),
{
    if source.len() > 0 {
        lemma_items_shape(tokens(source), Seq::empty(), false);
    }
}

} // verus!
