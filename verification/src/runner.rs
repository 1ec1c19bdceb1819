//! Bounded runs: a program run on a fresh machine over an input that is
//! known beforehand, for a limited number of operations.
//!
//! The engine itself knows no bound and no input but the byte it is handed.
//! A run drives it as a console driver would, with a sequence of bytes in
//! place of the input stream and a vector in place of the output stream.

use crate::engine::{
    lemma_resolved_jumps_follow_loops, step, Action, Event, Fault, Machine, State,
};
use crate::resolver::is_jump_table;
use crate::symbols::{ops, Op, SYMBOLS};
use std::collections::HashMap;
use vstd::prelude::*;

verus! {

/// How a bounded run ended.
#[derive(Clone, Copy, Debug, PartialEq, Eq, Structural)]
pub enum End {
    /// The program ran to its end.
    Halted,
    /// An operation failed; the run stands as it stood in front of it.
    Faulted(Fault),
    /// The budget was used up in front of an operation.
    Suspended,
}

/// A bounded run over an input that is known beforehand.
pub struct Run {
    /// The machine as the run left it.
    pub machine: Machine,
    /// The bytes that the run wrote, in order.
    pub output: Vec<u8>,
    /// The number of bytes of the input that the run read.
    pub consumed: usize,
    /// How the run ended.
    pub end: End,
}

/// The model of a run that is under way.
pub struct Progress {
    /// The state of the machine.
    pub state: State,
    /// The bytes written so far.
    pub output: Seq<u8>,
    /// The number of bytes of the input read so far.
    pub consumed: nat,
}

impl View for Run {
    type V = (Progress, End);

    open spec fn view(&self) -> (Progress, End) {
        (
            Progress {
                state: self.machine@,
                output: self.output@,
                consumed: self.consumed as nat,
            },
            self.end,
        )
    }
}

impl Progress {
    /// A run that has not begun: a fresh machine, nothing written and
    /// nothing read.
    pub open spec fn start() -> Progress {
        Progress { state: State::fresh(), output: Seq::empty(), consumed: 0 }
    }
}

/// What serves an `Input` once `consumed` bytes of `input` have been read:
/// the next byte, or the news that there is none.
pub open spec fn next_input(input: Seq<u8>, consumed: nat) -> Event {
    if consumed < input.len() {
        Event::Byte(input[consumed as int])
    } else {
        Event::Exhausted
    }
}

/// A run after one more operation, which is not to be past the end of the
/// program: the machine takes a step, an `Output` appends its byte to the
/// output, and an `Input` takes the next byte of the input if one is left.
pub open spec fn advance(
    program: Seq<Op>,
    table: Map<usize, usize>,
    input: Seq<u8>,
    before: Progress,
) -> Result<Progress, Fault> {
    let (result, state) = step(program, table, before.state, next_input(input, before.consumed));
    match result {
        Err(fault) => Err(fault),
        Ok(action) => Ok(
            Progress {
                state,
                output: match action {
                    Action::Output(b) => before.output.push(b),
                    _ => before.output,
                },
                consumed: if program[before.state.i as int] is Input && before.consumed
                    < input.len() {
                    before.consumed + 1
                } else {
                    before.consumed
                },
            },
        ),
    }
}

/// The run that goes on from `before` for at most `budget` operations: it
/// ends at the end of the program, at the first operation that fails, or in
/// front of the first operation that the budget does not cover.
pub open spec fn run_from(
    program: Seq<Op>,
    table: Map<usize, usize>,
    input: Seq<u8>,
    before: Progress,
    budget: nat,
) -> (Progress, End)
    decreases budget,
{
    if before.state.i >= program.len() {
        (before, End::Halted)
    } else if budget == 0 {
        (before, End::Suspended)
    } else {
        match advance(program, table, input, before) {
            Err(fault) => (before, End::Faulted(fault)),
            Ok(after) => run_from(program, table, input, after, (budget - 1) as nat),
        }
    }
}

/// A program without operations halts at once: it runs nothing, writes
/// nothing and reads nothing, whatever the table, the input and the budget.
pub proof fn lemma_empty_program_halts(table: Map<usize, usize>, input: Seq<u8>, budget: nat)
    ensures
        run_from(Seq::empty(), table, input, Progress::start(), budget) == (
            Progress::start(),
            End::Halted,
        ),
{
}

/// A run that ends within its budget ends the same way within any larger
/// one: the budget shows in the result of a run only where it cuts the run
/// short.
pub proof fn lemma_finished_run_ignores_budget(
    program: Seq<Op>,
    table: Map<usize, usize>,
    input: Seq<u8>,
    before: Progress,
    budget: nat,
    more: nat,
)
    requires
        run_from(program, table, input, before, budget).1 != End::Suspended,
    ensures
        run_from(program, table, input, before, budget + more) == run_from(
            program,
            table,
            input,
            before,
            budget,
        ),
    decreases budget,
{
    if before.state.i < program.len() && budget > 0 {
        if let Ok(after) = advance(program, table, input, before) {
            lemma_finished_run_ignores_budget(
                program,
                table,
                input,
                after,
                (budget - 1) as nat,
                more,
            );
        }
    }
}

/// With the jump table of its program a run never ends on a jump that
/// fails.
pub proof fn lemma_resolved_run_never_misses(
    program: Seq<Op>,
    table: Map<usize, usize>,
    input: Seq<u8>,
    before: Progress,
    budget: nat,
)
    requires
        program.len() <= usize::MAX,
        is_jump_table(program, table),
    ensures
        run_from(program, table, input, before, budget).1 != End::Faulted(Fault::InvalidJump),
    decreases budget,
{
    if before.state.i < program.len() && budget > 0 {
        lemma_resolved_jumps_follow_loops(
            program,
            table,
            before.state,
            next_input(input, before.consumed),
        );
        if let Ok(after) = advance(program, table, input, before) {
            lemma_resolved_run_never_misses(program, table, input, after, (budget - 1) as nat);
        }
    }
}

/// Runs a program on a fresh machine for at most `limit` operations, with
/// `input` as the whole of its input stream.
///
/// The engine itself knows no bound: a driver that wants none calls
/// `Machine::step` for as long as the program goes on.
pub fn run(
    program: &Vec<SYMBOLS>,
    table: &HashMap<usize, usize>,
    input: &Vec<u8>,
    limit: usize,
) -> (run: Run)
    ensures
        run@ == run_from(ops(program@), table@, input@, Progress::start(), limit as nat),
{
    let mut machine = Machine::new();
    let mut output: Vec<u8> = Vec::new();
    let mut consumed: usize = 0;
    let mut left: usize = limit;
    while left > 0
        invariant
            consumed <= input.len(),
            run_from(
                ops(program@),
                table@,
                input@,
                Progress { state: machine@, output: output@, consumed: consumed as nat },
                left as nat,
            ) == run_from(ops(program@), table@, input@, Progress::start(), limit as nat),
        decreases left,
    {
        let mut answer = machine.step(program, table, Event::Tick);
        if let Ok(Action::AwaitInput) = answer {
            if consumed < input.len() {
                answer = machine.step(program, table, Event::Byte(input[consumed]));
                if answer.is_ok() {
                    consumed += 1;
                }
            } else {
                answer = machine.step(program, table, Event::Exhausted);
            }
        }
        match answer {
            Ok(Action::Halted) => {
                return Run { machine, output, consumed, end: End::Halted };
            },
            Ok(Action::Output(b)) => {
                output.push(b);
            },
            Ok(_) => {},
            Err(fault) => {
                return Run { machine, output, consumed, end: End::Faulted(fault) };
            },
        }
        left -= 1;
    }
    let end = if machine.i >= program.len() {
        End::Halted
    } else {
        End::Suspended
    };
    Run { machine, output, consumed, end }
}

} // verus!
