//! The interpreter: a machine that walks a parsed tree one step at a time.
//!
//! Reading and writing are left to the caller. `Machine::step` carries out one
//! step and says what the caller has to do before the next; a caller who reads
//! a byte hands it over with `Machine::supply`. `ASTNode::run` drives the
//! machine over input held in memory.

use crate::parser::ASTNode;
use crate::semantics::{eval, eval_from, going, lemma_eval_uses_fuel, stopped, Run, RunError, World};
use crate::syntax::Ast;
use crate::tape::{addressable, ExecutionState, Tape};
use vstd::prelude::*;

verus! {

/// What the caller of `Machine::step` has to do next.
#[derive(Debug, PartialEq, Eq, Clone, Copy)]
pub enum Action {
    /// Nothing: step again.
    Continue,
    /// Write this byte, then step again.
    Write(u8),
    /// Read one byte and hand it over with `supply`, then step again.
    Read,
    /// The program is done.
    Done,
    /// The next move would put the pointer past what the tape can hold.
    TapeLimit,
}

/// A node that the machine has entered and not yet left.
#[derive(Clone, Copy)]
pub struct Frame<'a> {
    /// The node.
    pub node: &'a ASTNode,
    /// For a `Body`, the child that runs next.
    pub next: usize,
}

/// Mathematical model of a `Frame`.
pub struct Pending {
    pub node: Ast,
    pub next: int,
}

impl<'a> View for Frame<'a> {
    type V = Pending;

    open spec fn view(&self) -> Pending {
        Pending { node: self.node@, next: self.next as int }
    }
}

/// Mathematical model of a `Machine`: the nodes entered, innermost last, and
/// the tape.
pub struct Config {
    pub frames: Seq<Pending>,
    pub tape: Tape,
}

impl Pending {
    /// In a sequence, `next` names a child or the end.
    pub open spec fn wf(self) -> bool {
        self.node matches Ast::Sequence(children) ==> 0 <= self.next <= children.len()
    }
}

impl Config {
    /// The configuration at the start of a run of `tree`.
    pub open spec fn start(tree: Ast) -> Config {
        Config { frames: seq![Pending { node: tree, next: 0 }], tape: Tape::fresh() }
    }

    pub open spec fn wf(self) -> bool {
        &&& self.tape.wf()
        &&& forall|i: int| 0 <= i < self.frames.len() ==> (#[trigger] self.frames[i]).wf()
    }

    /// The frames below the innermost.
    pub open spec fn outer(self) -> Seq<Pending> {
        self.frames.drop_last()
    }

    /// The configuration after one step, and what the caller has to do.
    ///
    /// The innermost frame decides. An instruction is carried out and left; an
    /// input instruction waits for `supply`, and a move that cannot be made
    /// stays where it is. A sequence enters its next child, or is left after
    /// the last. A loop enters its body while the current cell is not zero,
    /// and is left when it is.
    pub open spec fn step(self) -> (Config, Action) {
        if self.frames.len() == 0 {
            (self, Action::Done)
        } else {
            let top = self.frames.last();
            let left = Config { frames: self.outer(), tape: self.tape };
            match top.node {
                Ast::Empty => (left, Action::Continue),
                Ast::Output => (left, Action::Write(self.tape.current())),
                Ast::Input => (self, Action::Read),
                Ast::MovePointer(offset) => if addressable(self.tape.target(offset)) {
                    (Config { frames: self.outer(), tape: self.tape.moved(offset) }, Action::Continue)
                } else {
                    (self, Action::TapeLimit)
                },
                Ast::AddValue(delta) => (
                    Config { frames: self.outer(), tape: self.tape.added(delta) },
                    Action::Continue,
                ),
                Ast::Sequence(children) => if 0 <= top.next < children.len() {
                    (
                        Config {
                            frames: self.outer().push(
                                Pending { node: top.node, next: top.next + 1 },
                            ).push(Pending { node: children[top.next], next: 0 }),
                            tape: self.tape,
                        },
                        Action::Continue,
                    )
                } else {
                    (left, Action::Continue)
                },
                Ast::Loop(body) => if self.tape.current() != 0 {
                    (
                        Config {
                            frames: self.frames.push(Pending { node: *body, next: 0 }),
                            tape: self.tape,
                        },
                        Action::Continue,
                    )
                } else {
                    (left, Action::Continue)
                },
            }
        }
    }

    /// The machine stands on an input instruction.
    pub open spec fn awaits_input(self) -> bool {
        self.frames.len() > 0 && self.frames.last().node is Input
    }

    /// The configuration after the byte that an input instruction waits for
    /// has arrived.
    pub open spec fn supplied(self, byte: u8) -> Config {
        Config { frames: self.outer(), tape: self.tape.stored(byte) }
    }
}

/// A run in progress: the tape, and the nodes entered and not yet left.
///
/// `new` makes a well-formed machine and every method keeps it so; the fields
/// are private, so a machine in hand is well formed.
pub struct Machine<'a> {
    state: ExecutionState,
    stack: Vec<Frame<'a>>,
}

impl<'a> View for Machine<'a> {
    type V = Config;

    closed spec fn view(&self) -> Config {
        Config { frames: self.stack@.map_values(|f: Frame<'a>| f@), tape: self.state@ }
    }
}

impl<'a> Machine<'a> {
    /// The pointer names a cell of the tape, and each sequence entered knows
    /// which child comes next.
    pub open spec fn wf(&self) -> bool {
        self@.wf()
    }

    /// A machine about to run `tree` on a fresh tape.
    pub fn new(tree: &'a ASTNode) -> (machine: Machine<'a>)
        ensures
            machine@ == Config::start(tree@),
            machine.wf(),
    {
        let mut stack: Vec<Frame<'a>> = Vec::new();
        stack.push(Frame { node: tree, next: 0 });
        let state = ExecutionState::new();
        assert(stack@.map_values(|f: Frame<'a>| f@) =~= Config::start(tree@).frames);
        Machine { state, stack }
    }

    /// Whether the program is done.
    pub fn is_done(&self) -> (done: bool)
        ensures
            done == (self@.frames.len() == 0),
    {
        self.stack.len() == 0
    }

    /// Whether the machine stands on an input instruction.
    pub fn awaits_input(&self) -> (waiting: bool)
        ensures
            waiting == self@.awaits_input(),
    {
        let depth = self.stack.len();
        if depth == 0 {
            return false;
        }
        let frame = self.stack[depth - 1];
        assert(self@.frames.last() == frame@);
        match frame.node {
            ASTNode::GETC => true,
            _ => false,
        }
    }

    /// The tape and the pointer as they stand.
    pub fn state(&self) -> (state: &ExecutionState)
        ensures
            state@ == self@.tape,
    {
        &self.state
    }

    /// Gives up the machine for its tape and pointer.
    pub fn into_state(self) -> (state: ExecutionState)
        ensures
            state@ == self@.tape,
    {
        self.state
    }

    /// How many nodes are entered and not yet left.
    pub fn depth(&self) -> (depth: usize)
        ensures
            depth == self@.frames.len(),
    {
        self.stack.len()
    }

    /// Carries out one step and says what the caller has to do next.
    pub fn step(&mut self) -> (action: Action)
        requires
            old(self).wf(),
        ensures
            final(self)@ == old(self)@.step().0,
            action == old(self)@.step().1,
            final(self).wf(),
    {
        let depth = self.stack.len();
        if depth == 0 {
            return Action::Done;
        }
        let frame = self.stack[depth - 1];
        let ghost before = self@;
        assert(before.frames.last() == frame@);
        match frame.node {
            ASTNode::Empty => {
                self.stack.pop();
                assert(self@.frames =~= before.outer());
                Action::Continue
            },
            ASTNode::PUTC => {
                self.stack.pop();
                assert(self@.frames =~= before.outer());
                Action::Write(self.state.current())
            },
            ASTNode::GETC => Action::Read,
            ASTNode::DP(offset) => {
                if self.state.can_move(*offset) {
                    self.state.move_pointer(*offset);
                    self.stack.pop();
                    assert(self@.frames =~= before.outer());
                    Action::Continue
                } else {
                    Action::TapeLimit
                }
            },
            ASTNode::ADD(delta) => {
                self.state.add_value(*delta);
                self.stack.pop();
                assert(self@.frames =~= before.outer());
                Action::Continue
            },
            ASTNode::Body(children) => {
                if frame.next < children.len() {
                    let child: &'a ASTNode = &children[frame.next];
                    self.stack.set(depth - 1, Frame { node: frame.node, next: frame.next + 1 });
                    self.stack.push(Frame { node: child, next: 0 });
                    proof {
                        let children_model = frame.node@->Sequence_0;
                        assert(child@ == children_model[frame.next as int]);
                        assert(self@.frames =~= before.step().0.frames);
                    }
                } else {
                    self.stack.pop();
                    assert(self@.frames =~= before.outer());
                }
                Action::Continue
            },
            ASTNode::Loop(body) => {
                if self.state.current() != 0 {
                    self.stack.push(Frame { node: body, next: 0 });
                    proof {
                        assert(self@.frames =~= before.step().0.frames);
                    }
                } else {
                    self.stack.pop();
                    assert(self@.frames =~= before.outer());
                }
                Action::Continue
            },
        }
    }

    /// Hands the machine a byte that was read. A machine that stands on an
    /// input instruction stores it and goes on; any other machine refuses it
    /// and stays as it is.
    pub fn supply(&mut self, byte: u8) -> (accepted: bool)
        requires
            old(self).wf(),
        ensures
            accepted == old(self)@.awaits_input(),
            final(self)@ == if accepted {
                old(self)@.supplied(byte)
            } else {
                old(self)@
            },
            final(self).wf(),
    {
        if !self.awaits_input() {
            return false;
        }
        self.state.store(byte);
        self.stack.pop();
        assert(self@.frames =~= old(self)@.outer());
        true
    }
}

/// The run of one frame to the end of its node: a sequence goes on from its
/// next child, any other node runs whole.
pub open spec fn frame_run(frame: Pending, world: World, fuel: nat) -> Run {
    match frame.node {
        Ast::Sequence(children) => eval_from(children, frame.next, world, fuel),
        _ => eval(frame.node, world, fuel),
    }
}

/// Where the run of the frames `frames`, innermost last, leads from `world`
/// with at most `fuel` steps: the innermost frame is run to its end, then the
/// one around it, and so on outwards.
pub open spec fn rest_of_run(frames: Seq<Pending>, world: World, fuel: nat) -> Run
    decreases frames.len(),
{
    if frames.len() == 0 {
        going(world, fuel)
    } else {
        let inner = frame_run(frames.last(), world, fuel);
        if inner.stop is Some {
            inner
        } else {
            rest_of_run(frames.drop_last(), inner.world, inner.fuel)
        }
    }
}

/// What one step of the machine, together with what its caller does for it,
/// makes of the frames, the world and the steps allowed. `None` where the run
/// ends at this step.
pub open spec fn advance(frames: Seq<Pending>, world: World, fuel: nat) -> Option<
    (Seq<Pending>, World, nat),
> {
    let config = Config { frames, tape: world.tape };
    let (next, action) = config.step();
    let left = (fuel - 1) as nat;
    if frames.len() == 0 || fuel == 0 {
        None
    } else {
        match action {
            Action::Continue => Some((next.frames, world.with_tape(next.tape), left)),
            Action::Write(byte) => Some((next.frames, world.wrote(byte), left)),
            Action::Read => if world.input.len() == 0 {
                None
            } else {
                Some((config.supplied(world.input[0]).frames, world.read(), left))
            },
            Action::Done => None,
            Action::TapeLimit => None,
        }
    }
}

/// Where a run ends at a step at which `advance` says that it ends.
pub open spec fn ending(frames: Seq<Pending>, world: World, fuel: nat) -> Run {
    let config = Config { frames, tape: world.tape };
    if frames.len() == 0 {
        going(world, fuel)
    } else if fuel == 0 {
        stopped(world, fuel, RunError::OutOfFuel)
    } else if config.step().1 is TapeLimit {
        stopped(world, fuel, RunError::TapeLimit)
    } else {
        stopped(world, fuel, RunError::InputExhausted)
    }
}

/// A step of the machine changes nothing in where the run leads: the machine
/// walks the tree as `eval` says.
pub proof fn lemma_step_keeps_meaning(frames: Seq<Pending>, world: World, fuel: nat)
    requires
        (Config { frames, tape: world.tape }).wf(),
    ensures
        match advance(frames, world, fuel) {
            Some((next_frames, next_world, left)) => rest_of_run(frames, world, fuel)
                == rest_of_run(next_frames, next_world, left),
            None => rest_of_run(frames, world, fuel) == ending(frames, world, fuel),
        },
{
    let config = Config { frames, tape: world.tape };
    if frames.len() > 0 && fuel > 0 {
        let top = frames.last();
        let outer = frames.drop_last();
        let left = (fuel - 1) as nat;
        let whole = rest_of_run(frames, world, fuel);
        assert(top.wf());
        assert(world.with_tape(world.tape) == world);
        match top.node {
            Ast::Sequence(children) => {
                if 0 <= top.next < children.len() {
                    let child = children[top.next];
                    let resumed = Pending { node: top.node, next: top.next + 1 };
                    let entered = Pending { node: child, next: 0 };
                    let next_frames = outer.push(resumed).push(entered);
                    assert(next_frames.drop_last() =~= outer.push(resumed));
                    assert(outer.push(resumed).drop_last() =~= outer);
                    lemma_eval_uses_fuel(child, world, left);
                    lemma_entered(child, world, left);
                    let first = eval(child, world, left);
                    assert(frame_run(entered, world, left) == first);
                    assert(advance(frames, world, fuel) == Some((next_frames, world, left)));
                    if first.stop is Some {
                        assert(rest_of_run(next_frames, world, left) == first);
                        assert(whole == first);
                    } else {
                        let after = frame_run(resumed, first.world, first.fuel);
                        assert(eval_from(children, top.next, world, fuel) == after);
                        assert(rest_of_run(next_frames, world, left) == rest_of_run(
                            outer.push(resumed),
                            first.world,
                            first.fuel,
                        ));
                    }
                } else {
                    assert(advance(frames, world, fuel) == Some((outer, world, left)));
                }
            },
            Ast::Loop(body) => {
                if world.tape.current() != 0 {
                    let entered = Pending { node: *body, next: 0 };
                    let next_frames = frames.push(entered);
                    assert(next_frames.drop_last() =~= frames);
                    lemma_eval_uses_fuel(*body, world, left);
                    lemma_entered(*body, world, left);
                    let first = eval(*body, world, left);
                    assert(frame_run(entered, world, left) == first);
                    assert(advance(frames, world, fuel) == Some((next_frames, world, left)));
                    if first.stop is Some {
                        assert(rest_of_run(next_frames, world, left) == first);
                        assert(whole == first);
                    } else {
                        assert(eval(top.node, world, fuel) == eval(
                            top.node,
                            first.world,
                            first.fuel,
                        ));
                        assert(rest_of_run(next_frames, world, left) == rest_of_run(
                            frames,
                            first.world,
                            first.fuel,
                        ));
                    }
                } else {
                    assert(advance(frames, world, fuel) == Some((outer, world, left)));
                }
            },
            Ast::Empty => {
                assert(advance(frames, world, fuel) == Some((outer, world, left)));
            },
            Ast::Output => {
                assert(advance(frames, world, fuel) == Some(
                    (outer, world.wrote(world.tape.current()), left),
                ));
            },
            Ast::Input => {
                if world.input.len() > 0 {
                    assert(config.supplied(world.input[0]).frames == outer);
                    assert(advance(frames, world, fuel) == Some((outer, world.read(), left)));
                }
            },
            Ast::MovePointer(offset) => {
                if addressable(world.tape.target(offset)) {
                    assert(advance(frames, world, fuel) == Some(
                        (outer, world.with_tape(world.tape.moved(offset)), left),
                    ));
                }
            },
            Ast::AddValue(delta) => {
                assert(advance(frames, world, fuel) == Some(
                    (outer, world.with_tape(world.tape.added(delta)), left),
                ));
            },
        }
    }
}

/// A frame just entered runs its whole node.
proof fn lemma_entered(node: Ast, world: World, fuel: nat)
    ensures
        frame_run(Pending { node, next: 0 }, world, fuel) == eval(node, world, fuel),
{
}

/// What a run over input held in memory came to.
pub struct Execution {
    /// `Ok` where the program ran to its end.
    pub result: Result<(), RunError>,
    /// The tape and pointer at the end.
    pub state: ExecutionState,
    /// The bytes written.
    pub output: Vec<u8>,
    /// How many bytes of the input were read.
    pub consumed: usize,
}

impl Execution {
    /// This is what the run `run` of a program on `input` came to.
    pub open spec fn matches_run(&self, input: Seq<u8>, run: Run) -> bool {
        &&& self.result == match run.stop {
            Some(error) => Err::<(), RunError>(error),
            None => Ok::<(), RunError>(()),
        }
        &&& self.state@ == run.world.tape
        &&& self.output@ == run.world.output
        &&& self.consumed <= input.len()
        &&& input.skip(self.consumed as int) == run.world.input
    }
}

impl ASTNode {
    /// Runs the program on a fresh tape, reading from `input`, for at most
    /// `fuel` steps.
    ///
    /// The run ends with the program, or earlier: at an input instruction
    /// that finds `input` used up, at a move past what the tape can hold, or
    /// when the steps are used up. Either way the result holds the tape, the
    /// bytes written and the count of bytes read up to there.
    pub fn run(&self, input: &[u8], fuel: u64) -> (done: Execution)
        ensures
            done.state.wf(),
            done.matches_run(input@, eval(self@, World::start(input@), fuel as nat)),
    {
        let mut machine = Machine::new(self);
        let mut output: Vec<u8> = Vec::new();
        let mut consumed: usize = 0;
        let mut left: u64 = fuel;
        let ghost whole = eval(self@, World::start(input@), fuel as nat);
        proof {
            assert(input@.skip(0) =~= input@);
            let root = Pending { node: self@, next: 0 };
            assert(machine@.frames.last() == root);
            assert(machine@.frames.drop_last() =~= Seq::<Pending>::empty());
            lemma_entered(self@, World::start(input@), fuel as nat);
            assert(frame_run(root, World::start(input@), fuel as nat) == whole);
            assert(rest_of_run(Seq::<Pending>::empty(), whole.world, whole.fuel) == going(
                whole.world,
                whole.fuel,
            ));
            assert(rest_of_run(machine@.frames, World::start(input@), fuel as nat) == whole);
        }
        while !machine.is_done()
            invariant
                machine.wf(),
                consumed <= input@.len(),
                whole == eval(self@, World::start(input@), fuel as nat),
                rest_of_run(
                    machine@.frames,
                    World {
                        tape: machine@.tape,
                        input: input@.skip(consumed as int),
                        output: output@,
                    },
                    left as nat,
                ) == whole,
            decreases left,
        {
            let ghost world = World {
                tape: machine@.tape,
                input: input@.skip(consumed as int),
                output: output@,
            };
            proof {
                lemma_step_keeps_meaning(machine@.frames, world, left as nat);
            }
            if left == 0 {
                return Execution {
                    result: Err(RunError::OutOfFuel),
                    state: machine.into_state(),
                    output,
                    consumed,
                };
            }
            match machine.step() {
                Action::Continue => {},
                Action::Write(byte) => {
                    output.push(byte);
                },
                Action::Read => {
                    if consumed < input.len() {
                        let _ = machine.supply(input[consumed]);
                        proof {
                            assert(input@.skip(consumed as int).skip(1) =~= input@.skip(
                                consumed + 1,
                            ));
                        }
                        consumed = consumed + 1;
                    } else {
                        return Execution {
                            result: Err(RunError::InputExhausted),
                            state: machine.into_state(),
                            output,
                            consumed,
                        };
                    }
                },
                Action::TapeLimit => {
                    return Execution {
                        result: Err(RunError::TapeLimit),
                        state: machine.into_state(),
                        output,
                        consumed,
                    };
                },
                Action::Done => {},
            }
            left = left - 1;
        }
        Execution { result: Ok(()), state: machine.into_state(), output, consumed }
    }
}

} // verus!
