//! What a program does: its effect on the tape, the input and the output.
//!
//! Everything here is specification. A run may go on for ever, so the meaning
//! of a tree is given for a bounded number of steps: `eval` says where a run
//! stands once the tree is done or the steps are used up.

use crate::syntax::Ast;
use crate::tape::{addressable, lemma_add_value_folds, wrap_delta, Tape};
use vstd::prelude::*;

verus! {

/// Why a run ended before the end of its program.
#[derive(Debug, PartialEq, Eq, Clone, Copy)]
pub enum RunError {
    /// An input instruction found no byte left to read.
    InputExhausted,
    /// A move would have put the pointer past what the tape can hold.
    TapeLimit,
    /// The steps allowed were used up.
    OutOfFuel,
}

/// Everything a run can read or change: the tape, the bytes not yet read, and
/// the bytes written so far.
pub struct World {
    pub tape: Tape,
    pub input: Seq<u8>,
    pub output: Seq<u8>,
}

impl World {
    /// The world at the start of a run that will read `input`.
    pub open spec fn start(input: Seq<u8>) -> World {
        World { tape: Tape::fresh(), input, output: Seq::empty() }
    }

    /// The world with another tape.
    pub open spec fn with_tape(self, tape: Tape) -> World {
        World { tape, input: self.input, output: self.output }
    }

    /// The world after `byte` is written.
    pub open spec fn wrote(self, byte: u8) -> World {
        World { tape: self.tape, input: self.input, output: self.output.push(byte) }
    }

    /// The world after the next input byte is read into the current cell.
    pub open spec fn read(self) -> World {
        World {
            tape: self.tape.stored(self.input[0]),
            input: self.input.skip(1),
            output: self.output,
        }
    }
}

/// Where a run stands: the world, the steps still allowed, and the reason if
/// it has ended early.
pub struct Run {
    pub world: World,
    pub fuel: nat,
    pub stop: Option<RunError>,
}

/// A run that goes on from `world` with `fuel` steps left.
pub open spec fn going(world: World, fuel: nat) -> Run {
    Run { world, fuel, stop: None }
}

/// A run that ended in `world` for the reason `error`.
pub open spec fn stopped(world: World, fuel: nat, error: RunError) -> Run {
    Run { world, fuel, stop: Some(error) }
}

/// The run of `node` from `world` with at most `fuel` steps.
///
/// Each visit of a node is one step: an instruction is visited once, a
/// sequence once before each child and once at its end, a loop once for each
/// test of the current cell. An instruction that cannot be carried out ends
/// the run where it stands.
///
/// A loop tests the current cell, runs its body if the cell is not zero, and
/// starts over. The test `once.fuel > left` is never true
/// (`lemma_eval_uses_fuel`); it stands in the definition to show that the
/// definition ends.
pub open spec fn eval(node: Ast, world: World, fuel: nat) -> Run
    decreases fuel, 1nat,
{
    if fuel == 0 {
        stopped(world, fuel, RunError::OutOfFuel)
    } else {
        let left = (fuel - 1) as nat;
        match node {
            Ast::Empty => going(world, left),
            Ast::Output => going(world.wrote(world.tape.current()), left),
            Ast::Input => if world.input.len() == 0 {
                stopped(world, fuel, RunError::InputExhausted)
            } else {
                going(world.read(), left)
            },
            Ast::MovePointer(offset) => if addressable(world.tape.target(offset)) {
                going(world.with_tape(world.tape.moved(offset)), left)
            } else {
                stopped(world, fuel, RunError::TapeLimit)
            },
            Ast::AddValue(delta) => going(world.with_tape(world.tape.added(delta)), left),
            Ast::Sequence(children) => eval_from(children, 0, world, fuel),
            Ast::Loop(body) => if world.tape.current() == 0 {
                going(world, left)
            } else {
                let once = eval(*body, world, left);
                if once.stop is Some || once.fuel > left {
                    once
                } else {
                    eval(node, once.world, once.fuel)
                }
            },
        }
    }
}

/// The run of the children of a sequence from child `next` on, each child in
/// the world that the one before it left. The test `child.fuel > left` is
/// never true, as in `eval`.
pub open spec fn eval_from(children: Seq<Ast>, next: int, world: World, fuel: nat) -> Run
    decreases fuel, 0nat,
{
    if fuel == 0 {
        stopped(world, fuel, RunError::OutOfFuel)
    } else {
        let left = (fuel - 1) as nat;
        if 0 <= next < children.len() {
            let child = eval(children[next], world, left);
            if child.stop is Some || child.fuel > left {
                child
            } else {
                eval_from(children, next + 1, child.world, child.fuel)
            }
        } else {
            going(world, left)
        }
    }
}

/// A run never has more steps left than it was given, and fewer once a node
/// was carried out.
pub proof fn lemma_eval_uses_fuel(node: Ast, world: World, fuel: nat)
    ensures
        eval(node, world, fuel).fuel <= fuel,
        eval(node, world, fuel).stop is None ==> eval(node, world, fuel).fuel < fuel,
    decreases fuel, 1nat,
{
    if fuel > 0 {
        let left = (fuel - 1) as nat;
        match node {
            Ast::Sequence(children) => lemma_eval_from_uses_fuel(children, 0, world, fuel),
            Ast::Loop(body) => {
                if world.tape.current() != 0 {
                    lemma_eval_uses_fuel(*body, world, left);
                    let once = eval(*body, world, left);
                    if once.stop is None {
                        lemma_eval_uses_fuel(node, once.world, once.fuel);
                    }
                }
            },
            _ => {},
        }
    }
}

/// The same for the children of a sequence.
pub proof fn lemma_eval_from_uses_fuel(children: Seq<Ast>, next: int, world: World, fuel: nat)
    ensures
        eval_from(children, next, world, fuel).fuel <= fuel,
        eval_from(children, next, world, fuel).stop is None ==> eval_from(
            children,
            next,
            world,
            fuel,
        ).fuel < fuel,
    decreases fuel, 0nat,
{
    if fuel > 0 {
        let left = (fuel - 1) as nat;
        if 0 <= next < children.len() {
            lemma_eval_uses_fuel(children[next], world, left);
            let child = eval(children[next], world, left);
            if child.stop is None {
                lemma_eval_from_uses_fuel(children, next + 1, child.world, child.fuel);
            }
        }
    }
}

/// The run `run` with `extra` more steps left.
pub open spec fn with_more_fuel(run: Run, extra: nat) -> Run {
    Run { world: run.world, fuel: run.fuel + extra, stop: run.stop }
}

/// The steps allowed are a bound and nothing more: a run that does not use
/// them up goes the same way with any number of steps more, and keeps those.
pub proof fn lemma_fuel_is_only_a_bound(node: Ast, world: World, fuel: nat, extra: nat)
    requires
        eval(node, world, fuel).stop != Some(RunError::OutOfFuel),
    ensures
        eval(node, world, fuel + extra) == with_more_fuel(eval(node, world, fuel), extra),
    decreases fuel, 1nat,
{
    if fuel > 0 {
        let left = (fuel - 1) as nat;
        let more = (fuel + extra - 1) as nat;
        assert(more == left + extra);
        match node {
            Ast::Sequence(children) => lemma_fuel_is_only_a_bound_from(
                children,
                0,
                world,
                fuel,
                extra,
            ),
            Ast::Loop(body) => {
                if world.tape.current() != 0 {
                    let once = eval(*body, world, left);
                    lemma_eval_uses_fuel(*body, world, left);
                    lemma_eval_uses_fuel(*body, world, more);
                    lemma_fuel_is_only_a_bound(*body, world, left, extra);
                    if once.stop is None {
                        lemma_fuel_is_only_a_bound(node, once.world, once.fuel, extra);
                    }
                }
            },
            _ => {},
        }
    }
}

/// The same for the children of a sequence.
pub proof fn lemma_fuel_is_only_a_bound_from(
    children: Seq<Ast>,
    next: int,
    world: World,
    fuel: nat,
    extra: nat,
)
    requires
        eval_from(children, next, world, fuel).stop != Some(RunError::OutOfFuel),
    ensures
        eval_from(children, next, world, fuel + extra) == with_more_fuel(
            eval_from(children, next, world, fuel),
            extra,
        ),
    decreases fuel, 0nat,
{
    if fuel > 0 {
        let left = (fuel - 1) as nat;
        let more = (fuel + extra - 1) as nat;
        assert(more == left + extra);
        if 0 <= next < children.len() {
            let child = eval(children[next], world, left);
            lemma_eval_uses_fuel(children[next], world, left);
            lemma_eval_uses_fuel(children[next], world, more);
            lemma_fuel_is_only_a_bound(children[next], world, left, extra);
            if child.stop is None {
                lemma_fuel_is_only_a_bound_from(children, next + 1, child.world, child.fuel, extra);
            }
        }
    }
}

/// The pointer names a cell of the tape throughout a run that starts so.
pub proof fn lemma_eval_keeps_pointer_valid(node: Ast, world: World, fuel: nat)
    requires
        world.tape.wf(),
    ensures
        eval(node, world, fuel).world.tape.wf(),
    decreases fuel, 1nat,
{
    if fuel > 0 {
        let left = (fuel - 1) as nat;
        match node {
            Ast::Sequence(children) => lemma_eval_from_keeps_pointer_valid(
                children,
                0,
                world,
                fuel,
            ),
            Ast::Loop(body) => {
                if world.tape.current() != 0 {
                    lemma_eval_keeps_pointer_valid(*body, world, left);
                    let once = eval(*body, world, left);
                    if once.stop is None && once.fuel <= left {
                        lemma_eval_keeps_pointer_valid(node, once.world, once.fuel);
                    }
                }
            },
            _ => {},
        }
    }
}

/// The same for the children of a sequence.
pub proof fn lemma_eval_from_keeps_pointer_valid(
    children: Seq<Ast>,
    next: int,
    world: World,
    fuel: nat,
)
    requires
        world.tape.wf(),
    ensures
        eval_from(children, next, world, fuel).world.tape.wf(),
    decreases fuel, 0nat,
{
    if fuel > 0 {
        let left = (fuel - 1) as nat;
        if 0 <= next < children.len() {
            lemma_eval_keeps_pointer_valid(children[next], world, left);
            let child = eval(children[next], world, left);
            if child.stop is None && child.fuel <= left {
                lemma_eval_from_keeps_pointer_valid(children, next + 1, child.world, child.fuel);
            }
        }
    }
}

/// The empty sequence changes nothing in the world.
pub proof fn lemma_empty_sequence_does_nothing(world: World, fuel: nat)
    requires
        fuel > 0,
    ensures
        eval(Ast::Sequence(Seq::empty()), world, fuel) == going(world, (fuel - 1) as nat),
{
    assert(eval_from(Seq::empty(), 0, world, fuel) == going(world, (fuel - 1) as nat));
}

/// Two additions one after the other leave the world that the one addition
/// of their sum, reduced to a signed 8-bit delta, leaves.
pub proof fn lemma_folded_additions_agree(world: World, d1: i8, d2: i8, fuel: nat)
    requires
        world.tape.wf(),
        fuel >= 5,
    ensures
        eval(
            Ast::Sequence(seq![Ast::AddValue(d1 as int), Ast::AddValue(d2 as int)]),
            world,
            fuel,
        ).world == eval(Ast::AddValue(wrap_delta(d1 + d2)), world, fuel).world,
{
    let children = seq![Ast::AddValue(d1 as int), Ast::AddValue(d2 as int)];
    let after_first = world.with_tape(world.tape.added(d1 as int));
    let after_both = after_first.with_tape(after_first.tape.added(d2 as int));
    lemma_add_value_folds(world.tape, d1, d2);
    assert(eval(children[0], world, (fuel - 1) as nat) == going(after_first, (fuel - 2) as nat));
    assert(eval(children[1], after_first, (fuel - 3) as nat) == going(
        after_both,
        (fuel - 4) as nat,
    ));
    assert(eval_from(children, 2, after_both, (fuel - 4) as nat) == going(
        after_both,
        (fuel - 5) as nat,
    ));
    assert(eval_from(children, 1, after_first, (fuel - 2) as nat) == going(
        after_both,
        (fuel - 5) as nat,
    ));
    assert(eval_from(children, 0, world, fuel) == going(after_both, (fuel - 5) as nat));
}

} // verus!
