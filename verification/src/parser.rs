//! The parser: from source text to a tree of opcode nodes.

use crate::syntax;
use crate::syntax::{Ast, Parsed};
use crate::tape::{lemma_wrap_delta_step, wrap_delta};
use crate::tokenizer::Tokenizer;
use vstd::pervasive::unreached;
use vstd::prelude::*;

verus! {

/// Why a source text is no program.
#[derive(Debug, PartialEq, Eq, Clone, Copy)]
pub enum ParseError {
    /// The text has length zero.
    EmptyProgram,
    /// A `]` closes no loop.
    UnmatchedClose,
    /// The text ends inside a loop.
    UnmatchedOpen,
}

impl ParseError {
    /// The text of the message for this error.
    pub open spec fn message_text(self) -> Seq<char> {
        match self {
            ParseError::EmptyProgram => "can't parse an empty program"@,
            ParseError::UnmatchedClose => "Unmatched ]"@,
            ParseError::UnmatchedOpen => "Unmatched ["@,
        }
    }

    /// A message for the user.
    pub fn message(&self) -> (text: &'static str)
        ensures
            text@ == self.message_text(),
    {
        match self {
            ParseError::EmptyProgram => "can't parse an empty program",
            ParseError::UnmatchedClose => "Unmatched ]",
            ParseError::UnmatchedOpen => "Unmatched [",
        }
    }
}

/// A node of the parsed program.
#[derive(Debug, PartialEq)]
pub enum ASTNode {
    Empty,
    PUTC,
    GETC,
    DP(isize),
    ADD(i8),
    Body(Box<Vec<ASTNode>>),
    Loop(Box<ASTNode>),
}

impl ASTNode {
    /// The program that this node stands for.
    pub open spec fn model(&self) -> Ast
        decreases self,
    {
        match self {
            ASTNode::Empty => Ast::Empty,
            ASTNode::PUTC => Ast::Output,
            ASTNode::GETC => Ast::Input,
            ASTNode::DP(offset) => Ast::MovePointer(*offset as int),
            ASTNode::ADD(delta) => Ast::AddValue(*delta as int),
            ASTNode::Body(children) => Ast::Sequence(
                Seq::new(
                    children@.len(),
                    |i: int|
                        if 0 <= i < children@.len() {
                            children@[i].model()
                        } else {
                            Ast::Empty
                        },
                ),
            ),
            ASTNode::Loop(body) => Ast::Loop(Box::new(body.model())),
        }
    }
}

/// The programs that the nodes of `nodes` stand for: what a `Body` of these
/// nodes holds in its model.
pub open spec fn models(nodes: Seq<ASTNode>) -> Seq<Ast> {
    Seq::new(
        nodes.len(),
        |i: int|
            if 0 <= i < nodes.len() {
                nodes[i].model()
            } else {
                Ast::Empty
            },
    )
}

impl View for ASTNode {
    type V = Ast;

    open spec fn view(&self) -> Ast {
        self.model()
    }
}

/// `result` and the tokens left `after` the call are what `expected` says:
/// the same tree and the same rest, or the same error.
spec fn agrees(
    result: Result<ASTNode, ParseError>,
    after: Seq<char>,
    expected: Result<Parsed, ParseError>,
) -> bool {
    match expected {
        Ok(p) => result is Ok && result->Ok_0@ == p.tree && after == p.rest,
        Err(e) => result == Err::<ASTNode, ParseError>(e),
    }
}

/// A `Body` stands for the sequence of what its children stand for.
pub proof fn lemma_body_model(node: &ASTNode)
    requires
        node is Body,
    ensures
        node@ == Ast::Sequence(models(node->Body_0@)),
{
    assert(node.model()->Sequence_0 =~= models(node->Body_0@));
}

/// With a token current, the tokens after it are the pending ones less the
/// first.
proof fn lemma_upcoming(tokenizer: &Tokenizer)
    requires
        tokenizer.wf(),
    ensures
        tokenizer.token matches Some(c) ==> tokenizer@.len() > 0 && tokenizer@[0] == c
            && tokenizer.upcoming() == tokenizer@.skip(1) && syntax::is_instruction(c),
        tokenizer.token is None ==> tokenizer@.len() == 0 && tokenizer.upcoming().len() == 0,
{
    if let Some(c) = tokenizer.token {
        assert(tokenizer@.skip(1) =~= tokenizer.upcoming());
        assert(syntax::is_instruction(tokenizer@[0]));
    }
}

/// Folds the run of `+` and `-` at the cursor into one `ADD` node.
///
/// The delta is the number of `+` less the number of `-`, reduced to a signed
/// 8-bit value. The cursor ends on the first token after the run.
fn parse_add(tokenizer: &mut Tokenizer) -> (result: Result<ASTNode, ParseError>)
    requires
        old(tokenizer).wf(),
    ensures
        final(tokenizer).wf(),
        result is Ok,
        result->Ok_0@ == Ast::AddValue(wrap_delta(syntax::run_net(old(tokenizer)@, '+', '-'))),
        final(tokenizer)@ == old(tokenizer)@.skip(
            syntax::run_len(old(tokenizer)@, '+', '-') as int,
        ),
{
    let mut count: i8 = 0;
    let ghost start = tokenizer@;
    let ghost mut k: int = 0;
    proof {
        assert(start.skip(0) =~= start);
        assert(start.take(0).len() == 0);
        lemma_wrap_delta_step(0);
    }
    loop
        invariant
            tokenizer.wf(),
            start == old(tokenizer)@,
            0 <= k <= start.len(),
            tokenizer@ == start.skip(k),
            forall|i: int| 0 <= i < k ==> start[i] == '+' || start[i] == '-',
            count == wrap_delta(
                syntax::count(start.take(k), '+') - syntax::count(start.take(k), '-'),
            ),
        decreases start.len() - k,
    {
        proof {
            lemma_upcoming(tokenizer);
            lemma_wrap_delta_step(
                syntax::count(start.take(k), '+') - syntax::count(start.take(k), '-'),
            );
            if k < start.len() {
                syntax::lemma_count_step(start, k, '+');
                syntax::lemma_count_step(start, k, '-');
                assert(start.skip(k).skip(1) =~= start.skip(k + 1));
            }
        }
        match tokenizer.token {
            Some('+') => count = count.wrapping_add(1),
            Some('-') => count = count.wrapping_sub(1),
            _ => {
                proof {
                    syntax::lemma_run_len(start, '+', '-', k);
                }
                return Ok(ASTNode::ADD(count));
            },
        };
        proof {
            k = k + 1;
        }
        tokenizer.consume();
    }
}

/// Folds the run of `>` and `<` at the cursor into one `DP` node.
///
/// The offset is the number of `>` less the number of `<`, reduced to a
/// signed machine word. The cursor ends on the first token after the run.
fn parse_dp(tokenizer: &mut Tokenizer) -> (result: Result<ASTNode, ParseError>)
    requires
        old(tokenizer).wf(),
    ensures
        final(tokenizer).wf(),
        result is Ok,
        result->Ok_0@ == Ast::MovePointer(
            syntax::wrap_offset(syntax::run_net(old(tokenizer)@, '>', '<')),
        ),
        final(tokenizer)@ == old(tokenizer)@.skip(
            syntax::run_len(old(tokenizer)@, '>', '<') as int,
        ),
{
    let mut count: isize = 0;
    let ghost start = tokenizer@;
    let ghost mut k: int = 0;
    proof {
        assert(start.skip(0) =~= start);
        assert(start.take(0).len() == 0);
        syntax::lemma_wrap_offset_step(0);
    }
    loop
        invariant
            tokenizer.wf(),
            start == old(tokenizer)@,
            0 <= k <= start.len(),
            tokenizer@ == start.skip(k),
            forall|i: int| 0 <= i < k ==> start[i] == '>' || start[i] == '<',
            count == syntax::wrap_offset(
                syntax::count(start.take(k), '>') - syntax::count(start.take(k), '<'),
            ),
        decreases start.len() - k,
    {
        proof {
            lemma_upcoming(tokenizer);
            syntax::lemma_wrap_offset_step(
                syntax::count(start.take(k), '>') - syntax::count(start.take(k), '<'),
            );
            if k < start.len() {
                syntax::lemma_count_step(start, k, '>');
                syntax::lemma_count_step(start, k, '<');
                assert(start.skip(k).skip(1) =~= start.skip(k + 1));
            }
        }
        match tokenizer.token {
            Some('>') => count = count.wrapping_add(1),
            Some('<') => count = count.wrapping_sub(1),
            _ => {
                proof {
                    syntax::lemma_run_len(start, '>', '<', k);
                }
                return Ok(ASTNode::DP(count));
            },
        };
        proof {
            k = k + 1;
        }
        tokenizer.consume();
    }
}

/// Parses a loop: drops the current token, the `[`, and gathers instructions
/// up to the matching `]`, which it takes too.
///
/// The result is a `Loop` around a `Body`. Where the tokens end before the
/// `]`, the loop is unmatched.
fn parse_loop(tokenizer: &mut Tokenizer) -> (result: Result<ASTNode, ParseError>)
    requires
        old(tokenizer).wf(),
    ensures
        final(tokenizer).wf(),
        match syntax::items(old(tokenizer).upcoming(), Seq::empty(), true) {
            Ok(body) => agrees(
                result,
                final(tokenizer)@,
                Ok(Parsed { tree: Ast::Loop(Box::new(body.tree)), rest: body.rest }),
            ),
            Err(e) => agrees(result, final(tokenizer)@, Err(e)),
        },
    decreases old(tokenizer)@.len(), 0nat,
{
    let mut body: Vec<ASTNode> = Vec::new();
    let ghost inside = tokenizer.upcoming();
    proof {
        lemma_upcoming(tokenizer);
        assert(models(body@) =~= Seq::<Ast>::empty());
    }
    tokenizer.consume();
    loop
        invariant
            tokenizer.wf(),
            inside == old(tokenizer).upcoming(),
            tokenizer@.len() <= inside.len(),
            inside.len() < old(tokenizer)@.len() || inside.len() == 0,
            syntax::items(tokenizer@, models(body@), true) == syntax::items(
                inside,
                Seq::empty(),
                true,
            ),
        ensures
            tokenizer.token == Some(']'),
        decreases tokenizer@.len(),
    {
        proof {
            lemma_upcoming(tokenizer);
            syntax::lemma_instruction_consumes(tokenizer@);
        }
        match tokenizer.token {
            Some(']') => break ,
            Some(_) => {
                let node = match parse_token(tokenizer) {
                    Ok(node) => node,
                    Err(e) => {
                        return Err(e);
                    },
                };
                proof {
                    assert(models(body@.push(node)) =~= models(body@).push(node@));
                }
                body.push(node);
            },
            None => {
                return Err(ParseError::UnmatchedOpen);
            },
        };
    }
    proof {
        lemma_upcoming(tokenizer);
    }
    tokenizer.consume();
    let sequence = ASTNode::Body(Box::new(body));
    proof {
        lemma_body_model(&sequence);
    }
    Ok(ASTNode::Loop(Box::new(sequence)))
}

/// Parses the instruction at the cursor.
///
/// Runs of `+`/`-` and of `>`/`<` fold into one node each, `,` and `.` are
/// one node each, `[` opens a loop, and a `]` met here closes nothing. With
/// no token left the result is `Empty` and nothing moves.
fn parse_token(tokenizer: &mut Tokenizer) -> (result: Result<ASTNode, ParseError>)
    requires
        old(tokenizer).wf(),
    ensures
        final(tokenizer).wf(),
        agrees(result, final(tokenizer)@, syntax::instruction(old(tokenizer)@)),
    decreases old(tokenizer)@.len(), 1nat,
{
    proof {
        lemma_upcoming(tokenizer);
    }
    match tokenizer.token {
        Some(c) if c == '-' || c == '+' => parse_add(tokenizer),
        Some(c) if c == '>' || c == '<' => parse_dp(tokenizer),
        Some('[') => parse_loop(tokenizer),
        Some(']') => Err(ParseError::UnmatchedClose),
        Some(',') => {
            tokenizer.consume();
            Ok(ASTNode::GETC)
        },
        Some('.') => {
            tokenizer.consume();
            Ok(ASTNode::PUTC)
        },
        Some(_) => unreached(),
        None => {
            proof {
                assert(tokenizer@.len() == 0);
            }
            Ok(ASTNode::Empty)
        },
    }
}

/// Parses a program text into its tree.
///
/// A text of length zero is refused. In any other text the characters that
/// are no instructions are passed over, and the instructions are gathered in
/// one `Body`; a `]` outside a loop and a loop left open are refused.
pub fn parse(program: &str) -> (result: Result<ASTNode, ParseError>)
    ensures
        match syntax::parse_spec(program@) {
            Ok(tree) => result is Ok && result->Ok_0@ == tree,
            Err(e) => result == Err::<ASTNode, ParseError>(e),
        },
{
    if program.is_empty() {
        return Err(ParseError::EmptyProgram);
    }
    let mut tokenizer = Tokenizer::new(program);
    let mut body: Vec<ASTNode> = Vec::new();
    let ghost all = tokenizer@;
    proof {
        assert(models(body@) =~= Seq::<Ast>::empty());
    }
    while tokenizer.token.is_some()
        invariant
            tokenizer.wf(),
            program@.len() > 0,
            all == syntax::tokens(program@),
            syntax::items(tokenizer@, models(body@), false) == syntax::items(
                all,
                Seq::empty(),
                false,
            ),
        decreases tokenizer@.len(),
    {
        proof {
            lemma_upcoming(&tokenizer);
            syntax::lemma_instruction_consumes(tokenizer@);
        }
        let node = match parse_token(&mut tokenizer) {
            Ok(node) => node,
            Err(e) => {
                return Err(e);
            },
        };
        proof {
            assert(models(body@.push(node)) =~= models(body@).push(node@));
        }
        body.push(node);
    }
    let sequence = ASTNode::Body(Box::new(body));
    proof {
        lemma_upcoming(&tokenizer);
        lemma_body_model(&sequence);
    }
    Ok(sequence)
}

} // verus!
