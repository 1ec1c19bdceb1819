//! The engine: a machine that runs a program one operation at a time over a
//! tape of bytes, and asks its driver for the console.
//!
//! The machine itself neither reads nor writes. A step hands back what the
//! driver has to do for it (`Action`), and the driver hands in what came of
//! it (`Event`).
//!
//! The cursor may leave the tape: it wraps over the whole address width, not
//! over the length of the tape. An operation that then needs the current
//! cell does not crash; the step fails with `Fault::TapeBounds` and leaves
//! the machine as it was.

use crate::resolver::{is_jump_table, matched};
use crate::symbols::{ops, Op, SYMBOLS};
use std::collections::HashMap;
use vstd::prelude::*;

verus! {

/// The number of cells of a fresh tape.
pub const TAPE_LEN: usize = 1_000_000_000;

/// Why a run cannot go on.
#[derive(Clone, Copy, Debug, PartialEq, Eq, Structural)]
pub enum Fault {
    /// A loop start or loop end has no entry in the jump table.
    InvalidJump,
    /// The cursor points outside the tape and the operation needs the cell.
    TapeBounds,
}

/// What the driver hands to a step.
#[derive(Clone, Copy, Debug, PartialEq, Eq, Structural)]
pub enum Event {
    /// Nothing: the machine is to go on.
    Tick,
    /// The byte read for a pending `Input`.
    Byte(u8),
    /// The input stream has ended before a pending `Input` could be served.
    Exhausted,
}

/// What a step asks of the driver.
#[derive(Clone, Copy, Debug, PartialEq, Eq, Structural)]
pub enum Action {
    /// Nothing: an operation was run.
    Ran,
    /// Write this byte to the output: an `Output` was run.
    Output(u8),
    /// Read a byte and hand it in with the next step: an `Input` is pending
    /// and nothing was run.
    AwaitInput,
    /// Stop: the program has ended and nothing was run.
    Halted,
}

/// The state of the engine.
pub struct Machine {
    /// The position of the next operation.
    pub i: usize,
    /// The cursor: the index of the current cell.
    pub ptr: usize,
    /// The cells.
    pub tape: Vec<u8>,
}

/// The model of the state of the engine.
pub struct State {
    /// The position of the next operation.
    pub i: usize,
    /// The cursor.
    pub ptr: usize,
    /// The cells.
    pub tape: Seq<u8>,
}

impl View for Machine {
    type V = State;

    open spec fn view(&self) -> State {
        State { i: self.i, ptr: self.ptr, tape: self.tape@ }
    }
}

/// A cell after `delta` was added to it: the sum modulo 256.
pub open spec fn add_cell(cell: u8, delta: int) -> u8 {
    ((cell + delta) % 256) as u8
}

/// The cursor after it moved by `delta`: the sum modulo the number of
/// addresses, whatever the length of the tape.
pub open spec fn move_cursor(ptr: usize, delta: int) -> usize {
    ((ptr + delta) % (usize::MAX + 1)) as usize
}

/// The position behind `target`. Behind the last position that a `usize`
/// can hold there is none, and none is needed: no program reaches that far.
pub open spec fn behind(target: usize) -> usize {
    if target < usize::MAX {
        (target + 1) as usize
    } else {
        target
    }
}

impl State {
    /// The state of a machine that has not run yet.
    pub open spec fn fresh() -> State {
        State { i: 0, ptr: 0, tape: Seq::new(TAPE_LEN as nat, |j: int| 0u8) }
    }

    /// Whether the cursor points to a cell of the tape.
    pub open spec fn on_tape(self) -> bool {
        self.ptr < self.tape.len()
    }

    /// This state at position `i`.
    pub open spec fn at(self, i: usize) -> State {
        State { i, ..self }
    }

    /// This state with `cell` under the cursor.
    pub open spec fn store(self, cell: u8) -> State {
        State { tape: self.tape.update(self.ptr as int, cell), ..self }
    }
}

/// One step of the engine: what it asks of the driver or why it fails, and
/// the state it leaves.
///
/// At the end of the program nothing runs. Otherwise the operation at
/// position `i` runs and the position moves on by one, but for a jump. An
/// operation that reads or writes the current cell fails where the cursor is
/// off the tape, and a jump fails where the table has no entry for it; a
/// step that fails leaves the state as it was.
pub open spec fn step(
    program: Seq<Op>,
    table: Map<usize, usize>,
    state: State,
    event: Event,
) -> (Result<Action, Fault>, State) {
    if state.i >= program.len() {
        (Ok(Action::Halted), state)
    } else {
        let next: usize = (state.i + 1) as usize;
        match program[state.i as int] {
            Op::Add(n) => if state.on_tape() {
                (Ok(Action::Ran), state.store(add_cell(state.tape[state.ptr as int], n)).at(next))
            } else {
                (Err(Fault::TapeBounds), state)
            },
            Op::Move(n) => (
                Ok(Action::Ran),
                State { ptr: move_cursor(state.ptr, n), ..state.at(next) },
            ),
            Op::Output => if state.on_tape() {
                (Ok(Action::Output(state.tape[state.ptr as int])), state.at(next))
            } else {
                (Err(Fault::TapeBounds), state)
            },
            Op::Input => match event {
                Event::Tick => (Ok(Action::AwaitInput), state),
                Event::Byte(b) => if state.on_tape() {
                    (Ok(Action::Ran), state.store(b).at(next))
                } else {
                    (Err(Fault::TapeBounds), state)
                },
                Event::Exhausted => if state.on_tape() {
                    (Ok(Action::Ran), state.store(0).at(next))
                } else {
                    (Err(Fault::TapeBounds), state)
                },
            },
            Op::LoopB => if !state.on_tape() {
                (Err(Fault::TapeBounds), state)
            } else if state.tape[state.ptr as int] != 0 {
                (Ok(Action::Ran), state.at(next))
            } else if table.contains_key(state.i) {
                (Ok(Action::Ran), state.at(behind(table[state.i])))
            } else {
                (Err(Fault::InvalidJump), state)
            },
            Op::LoopE => if table.contains_key(state.i) {
                (Ok(Action::Ran), state.at(table[state.i]))
            } else {
                (Err(Fault::InvalidJump), state)
            },
        }
    }
}

/// Adding two deltas one after the other leaves the cell that adding their
/// sum leaves: folding a run of `+` and `-` into one `Add` changes nothing
/// of what the run does.
pub proof fn lemma_add_cell_folds(cell: u8, first: int, second: int)
    ensures
        add_cell(add_cell(cell, first), second) == add_cell(cell, first + second),
{
}

/// Moving by two deltas one after the other leaves the cursor where moving
/// by their sum leaves it: folding a run of `>` and `<` into one `Move`
/// changes nothing of what the run does.
pub proof fn lemma_move_cursor_folds(ptr: usize, first: int, second: int)
    ensures
        move_cursor(move_cursor(ptr, first), second) == move_cursor(ptr, first + second),
{
    let range: int = usize::MAX + 1;
    vstd::arithmetic::div_mod::lemma_add_mod_noop(ptr + first, second, range);
    vstd::arithmetic::div_mod::lemma_mod_twice(second, range);
}

/// An `Input` that is served after the input stream has ended stores 0 in
/// the current cell, whatever the cell held, and touches no other cell.
pub proof fn lemma_exhausted_input_stores_zero(
    program: Seq<Op>,
    table: Map<usize, usize>,
    state: State,
)
    requires
        state.i < program.len(),
        program[state.i as int] is Input,
        state.on_tape(),
    ensures
        step(program, table, state, Event::Exhausted).0 == Ok::<Action, Fault>(Action::Ran),
        step(program, table, state, Event::Exhausted).1.tape == state.tape.update(
            state.ptr as int,
            0u8,
        ),
        step(program, table, state, Event::Exhausted).1.tape[state.ptr as int] == 0,
{
}

/// With the jump table of a program that a machine can hold, no jump fails
/// and every jump follows its loop: a loop end leads to the loop start
/// matched with it, a loop start over a zero cell leads just behind the loop
/// end matched with it, and no step leads further than the end of the
/// program.
pub proof fn lemma_resolved_jumps_follow_loops(
    program: Seq<Op>,
    table: Map<usize, usize>,
    state: State,
    event: Event,
)
    requires
        program.len() <= usize::MAX,
        is_jump_table(program, table),
        state.i < program.len(),
    ensures
        step(program, table, state, event).0 != Err::<Action, Fault>(Fault::InvalidJump),
        step(program, table, state, event).1.i <= program.len(),
        program[state.i as int] is LoopE ==> matched(
            program,
            step(program, table, state, event).1.i as int,
            state.i as int,
        ),
        program[state.i as int] is LoopB && state.on_tape() && state.tape[state.ptr as int] == 0
            ==> matched(
            program,
            state.i as int,
            step(program, table, state, event).1.i - 1,
        ),
{
}

/// `delta` modulo 256.
fn low_byte(delta: isize) -> (byte: u8)
    ensures
        byte == delta as int % 256,
{
    if delta >= 0 {
        (delta % 256) as u8
    } else {
        let below: isize = -(delta + 1);
        (255 - below % 256) as u8
    }
}

/// The wrapping sum of the cursor and a delta is their sum modulo the number
/// of addresses.
proof fn lemma_move_cursor(ptr: usize, delta: isize)
    ensures
        vstd::wrapping::usize_specs::wrapping_add_signed(ptr, delta) == move_cursor(
            ptr,
            delta as int,
        ),
{
    let range: int = usize::MAX + 1;
    let sum: int = ptr + delta;
    if sum >= range {
        vstd::arithmetic::div_mod::lemma_mod_multiples_vanish(-1, sum, range);
        vstd::arithmetic::div_mod::lemma_small_mod((sum - range) as nat, range as nat);
    } else if sum < 0 {
        vstd::arithmetic::div_mod::lemma_mod_multiples_vanish(1, sum, range);
        vstd::arithmetic::div_mod::lemma_small_mod((sum + range) as nat, range as nat);
    } else {
        vstd::arithmetic::div_mod::lemma_small_mod(sum as nat, range as nat);
    }
}

impl Machine {
    /// A machine that has not run yet: at position 0, with the cursor on
    /// cell 0 of a tape of `TAPE_LEN` cells that all hold 0.
    pub fn new() -> (machine: Machine)
        ensures
            machine@ == State::fresh(),
    {
        let tape = vec![0u8; TAPE_LEN];
        assert(tape@ =~= State::fresh().tape);
        Machine { i: 0, ptr: 0, tape }
    }

    /// Runs one step: `step` of the state and the event.
    ///
    /// The driver calls it with `Event::Tick` until it answers
    /// `Action::AwaitInput`, then reads a byte and calls it with what the
    /// read gave.
    pub fn step(
        &mut self,
        program: &Vec<SYMBOLS>,
        table: &HashMap<usize, usize>,
        event: Event,
    ) -> (result: Result<Action, Fault>)
        ensures
            (result, final(self)@) == step(ops(program@), table@, old(self)@, event),
    {
        if self.i >= program.len() {
            return Ok(Action::Halted);
        }
        match program[self.i] {
            SYMBOLS::Add(n) => {
                if self.ptr >= self.tape.len() {
                    return Err(Fault::TapeBounds);
                }
                let cell: u8 = self.tape[self.ptr].wrapping_add(low_byte(n));
                self.tape[self.ptr] = cell;
                self.i += 1;
                Ok(Action::Ran)
            },
            SYMBOLS::Move(n) => {
                proof {
                    lemma_move_cursor(self.ptr, n);
                }
                self.ptr = self.ptr.wrapping_add_signed(n);
                self.i += 1;
                Ok(Action::Ran)
            },
            SYMBOLS::Output => {
                if self.ptr >= self.tape.len() {
                    return Err(Fault::TapeBounds);
                }
                self.i += 1;
                Ok(Action::Output(self.tape[self.ptr]))
            },
            SYMBOLS::Input => {
                let byte: u8 = match event {
                    Event::Tick => {
                        return Ok(Action::AwaitInput);
                    },
                    Event::Byte(b) => b,
                    Event::Exhausted => 0,
                };
                if self.ptr >= self.tape.len() {
                    return Err(Fault::TapeBounds);
                }
                self.tape[self.ptr] = byte;
                self.i += 1;
                Ok(Action::Ran)
            },
            SYMBOLS::LoopB => {
                if self.ptr >= self.tape.len() {
                    return Err(Fault::TapeBounds);
                }
                if self.tape[self.ptr] != 0 {
                    self.i += 1;
                    return Ok(Action::Ran);
                }
                match table.get(&self.i) {
                    Some(end) => {
                        self.i = if *end < usize::MAX {
                            *end + 1
                        } else {
                            *end
                        };
                        Ok(Action::Ran)
                    },
                    None => Err(Fault::InvalidJump),
                }
            },
            SYMBOLS::LoopE => match table.get(&self.i) {
                Some(start) => {
                    self.i = *start;
                    Ok(Action::Ran)
                },
                None => Err(Fault::InvalidJump),
            },
        }
    }
}

} // verus!
