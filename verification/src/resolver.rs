//! The resolver: from a program to the table that links each loop start to
//! its loop end and back.

use crate::symbols::{ops, Op, SYMBOLS};
use std::collections::HashMap;
use vstd::prelude::*;

verus! {

/// How an operation changes the nesting depth: a loop start opens one level,
/// a loop end closes one, and nothing else touches it.
pub open spec fn nesting(op: Op) -> int {
    match op {
        Op::LoopB => 1,
        Op::LoopE => -1,
        _ => 0,
    }
}

/// The nesting depth in front of position `k`: the number of loop starts
/// among the first `k` operations, less the number of loop ends among them.
pub open spec fn depth(program: Seq<Op>, k: int) -> int
    decreases k,
{
    if k <= 0 {
        0
    } else {
        depth(program, k - 1) + nesting(program[k - 1])
    }
}

/// Whether the loops of `program` are well nested: no loop end comes without
/// a loop start before it, and no loop start is left open at the end.
pub open spec fn balanced(program: Seq<Op>) -> bool {
    &&& forall|k: int| 0 <= k <= program.len() ==> depth(program, k) >= 0
    &&& depth(program, program.len() as int) == 0
}

/// Whether `start` and `end` are the two ends of one loop: a loop start and
/// the first loop end after it that brings the depth back to what it was in
/// front of the start.
pub open spec fn matched(program: Seq<Op>, start: int, end: int) -> bool {
    &&& 0 <= start < end < program.len()
    &&& program[start] is LoopB
    &&& program[end] is LoopE
    &&& depth(program, end + 1) == depth(program, start)
    &&& forall|k: int| start < k <= end ==> depth(program, k) > depth(program, start)
}

/// Whether `position` holds one of the two ends of a loop: a loop start or a
/// loop end.
pub open spec fn is_bracket(program: Seq<Op>, position: int) -> bool {
    0 <= position < program.len() && (program[position] is LoopB || program[position] is LoopE)
}

/// Whether `table` is the jump table of `program`: its keys are the
/// positions of the loop starts and loop ends, a loop start is sent to the
/// loop end matched with it, and a loop end to its loop start.
pub open spec fn is_jump_table(program: Seq<Op>, table: Map<usize, usize>) -> bool {
    &&& forall|i: usize| #[trigger] table.contains_key(i) <==> is_bracket(program, i as int)
    &&& forall|i: usize| #[trigger]
        table.contains_key(i) && program[i as int] is LoopB ==> matched(
            program,
            i as int,
            table[i] as int,
        )
    &&& forall|i: usize| #[trigger]
        table.contains_key(i) && program[i as int] is LoopE ==> matched(
            program,
            table[i] as int,
            i as int,
        )
}

/// A loop has one start and one end: two matched pairs that share an end
/// share the other end too.
pub proof fn lemma_matched_unique(
    program: Seq<Op>,
    start: int,
    end: int,
    other_start: int,
    other_end: int,
)
    requires
        matched(program, start, end),
        matched(program, other_start, other_end),
    ensures
        start == other_start <==> end == other_end,
{
}

/// Loops nest: a loop that starts inside another ends inside it.
pub proof fn lemma_matched_pairs_nest(
    program: Seq<Op>,
    start: int,
    end: int,
    inner_start: int,
    inner_end: int,
)
    requires
        matched(program, start, end),
        matched(program, inner_start, inner_end),
        start < inner_start < end,
    ensures
        inner_end < end,
{
}

/// A jump table is symmetric: where it sends a position, it has an entry
/// that sends back.
pub proof fn lemma_jump_table_symmetric(program: Seq<Op>, table: Map<usize, usize>)
    requires
        is_jump_table(program, table),
    ensures
        forall|x: usize| #[trigger]
            table.contains_key(x) ==> table.contains_key(table[x]) && table[table[x]] == x,
{
    assert forall|x: usize| #[trigger] table.contains_key(x) implies table.contains_key(table[x])
        && table[table[x]] == x by {
        let y: usize = table[x];
        if program[x as int] is LoopB {
            assert(table.contains_key(y));
            lemma_matched_unique(program, x as int, y as int, table[y] as int, y as int);
        } else {
            assert(table.contains_key(y));
            lemma_matched_unique(program, y as int, x as int, y as int, table[y] as int);
        }
    }
}

/// A program has at most one jump table.
pub proof fn lemma_jump_table_unique(
    program: Seq<Op>,
    table: Map<usize, usize>,
    other: Map<usize, usize>,
)
    requires
        is_jump_table(program, table),
        is_jump_table(program, other),
    ensures
        table == other,
{
    assert forall|x: usize| table.contains_key(x) implies other.contains_key(x) && table[x]
        == other[x] by {
        assert(other.contains_key(x));
        if program[x as int] is LoopB {
            lemma_matched_unique(program, x as int, table[x] as int, x as int, other[x] as int);
        } else {
            lemma_matched_unique(program, table[x] as int, x as int, other[x] as int, x as int);
        }
    }
}

/// Under a jump table no loop end comes too early: the depth in front of
/// any position is not negative.
proof fn lemma_depth_not_negative(program: Seq<Op>, table: Map<usize, usize>, k: int)
    requires
        program.len() <= usize::MAX,
        is_jump_table(program, table),
        0 <= k <= program.len(),
    ensures
        depth(program, k) >= 0,
    decreases k,
{
    if k > 0 {
        lemma_depth_not_negative(program, table, k - 1);
        if depth(program, k) < 0 {
            let end: usize = (k - 1) as usize;
            assert(table.contains_key(end));
            lemma_depth_not_negative(program, table, table[end] as int);
        }
    }
}

/// The last position up to `k` in front of which no loop is open.
spec fn last_ground(program: Seq<Op>, k: int) -> int
    decreases k,
{
    if k <= 0 || depth(program, k) == 0 {
        k
    } else {
        last_ground(program, k - 1)
    }
}

/// `last_ground` is what its name says.
proof fn lemma_last_ground(program: Seq<Op>, k: int)
    requires
        0 <= k,
    ensures
        0 <= last_ground(program, k) <= k,
        depth(program, last_ground(program, k)) == 0,
        forall|j: int| last_ground(program, k) < j <= k ==> depth(program, j) != 0,
    decreases k,
{
    if k > 0 && depth(program, k) != 0 {
        lemma_last_ground(program, k - 1);
    }
}

/// Only a program whose loops are well nested has a jump table.
pub proof fn lemma_jump_table_needs_balance(program: Seq<Op>, table: Map<usize, usize>)
    requires
        program.len() <= usize::MAX,
        is_jump_table(program, table),
    ensures
        balanced(program),
{
    let len: int = program.len() as int;
    assert forall|k: int| 0 <= k <= len implies depth(program, k) >= 0 by {
        lemma_depth_not_negative(program, table, k);
    }
    if depth(program, len) != 0 {
        let ground: int = last_ground(program, len);
        lemma_last_ground(program, len);
        let start: usize = ground as usize;
        assert(depth(program, ground + 1) > 0);
        assert(table.contains_key(start));
    }
}

/// What holds of the loop starts still open after the first `done`
/// operations: they stand in `stack` in the order they were opened, the one
/// at index `j` at depth `j`, and the depth has stayed above `j` since.
spec fn pending(program: Seq<Op>, stack: Seq<usize>, done: int) -> bool {
    &&& forall|k: int| 0 <= k <= done ==> depth(program, k) >= 0
    &&& stack.len() == depth(program, done)
    &&& forall|j: int|
        0 <= j < stack.len() ==> {
            &&& (#[trigger] stack[j]) < done
            &&& program[stack[j] as int] is LoopB
            &&& depth(program, stack[j] as int) == j
        }
    &&& forall|j: int, k: int|
        #![trigger stack[j], depth(program, k)]
        0 <= j < stack.len() && stack[j] < k <= done ==> depth(program, k) > j
}

/// What holds of the table after the first `done` operations: it links the
/// loops closed so far, and its keys are their ends.
spec fn linked(program: Seq<Op>, stack: Seq<usize>, table: Map<usize, usize>, done: int) -> bool {
    &&& forall|i: usize| #[trigger]
        table.contains_key(i) <==> is_bracket(program, i as int) && i < done && !stack.contains(i)
    &&& forall|i: usize| #[trigger]
        table.contains_key(i) && program[i as int] is LoopB ==> matched(
            program,
            i as int,
            table[i] as int,
        )
    &&& forall|i: usize| #[trigger]
        table.contains_key(i) && program[i as int] is LoopE ==> matched(
            program,
            table[i] as int,
            i as int,
        )
}

/// A loop start at position `i` joins the open loops.
proof fn lemma_loop_opened(
    program: Seq<Op>,
    stack: Seq<usize>,
    table: Map<usize, usize>,
    i: usize,
)
    requires
        i < program.len(),
        program[i as int] is LoopB,
        pending(program, stack, i as int),
        linked(program, stack, table, i as int),
    ensures
        pending(program, stack.push(i), i + 1),
        linked(program, stack.push(i), table, i + 1),
{
    let opened = stack.push(i);
    assert forall|x: usize| opened.contains(x) <==> stack.contains(x) || x == i by {
        if stack.contains(x) {
            let j: int = stack.lemma_contains_to_index(x);
            assert(opened[j] == x);
        }
        if x == i {
            assert(opened[stack.len() as int] == x);
        }
    }
}

/// A loop end at position `i` closes the loop that was opened last, and the
/// two are matched.
proof fn lemma_loop_closed(
    program: Seq<Op>,
    stack: Seq<usize>,
    table: Map<usize, usize>,
    i: usize,
)
    requires
        i < program.len(),
        program[i as int] is LoopE,
        stack.len() > 0,
        pending(program, stack, i as int),
        linked(program, stack, table, i as int),
    ensures
        pending(program, stack.drop_last(), i + 1),
        linked(
            program,
            stack.drop_last(),
            table.insert(i, stack.last()).insert(stack.last(), i),
            i + 1,
        ),
{
    let start: usize = stack.last();
    let open = stack.drop_last();
    let closed = table.insert(i, start).insert(start, i);
    assert forall|x: usize| stack.contains(x) <==> open.contains(x) || x == start by {
        if stack.contains(x) {
            let j: int = stack.lemma_contains_to_index(x);
            if j < stack.len() - 1 {
                assert(open[j] == x);
            }
        }
        if open.contains(x) {
            open.lemma_contains_to_index(x);
        }
    }
    assert(!open.contains(start)) by {
        if open.contains(start) {
            open.lemma_contains_to_index(start);
        }
    }
    assert forall|x: usize| #[trigger]
        closed.contains_key(x) <==> is_bracket(program, x as int) && x < i + 1
            && !open.contains(x) by {
        assert(table.contains_key(x) <==> is_bracket(program, x as int) && x < i
            && !stack.contains(x));
        if open.contains(x) {
            open.lemma_contains_to_index(x);
        }
    }
}

/// Builds the jump table of a program.
///
/// The result is `None` exactly when the loops are not well nested;
/// otherwise it is the jump table of the program.
pub fn tunnels(instruction: &Vec<SYMBOLS>) -> (result: Option<HashMap<usize, usize>>)
    ensures
        result is Some <==> balanced(ops(instruction@)),
        result matches Some(table) ==> is_jump_table(ops(instruction@), table@),
{
    let ghost program = ops(instruction@);
    let mut loop_stack: Vec<usize> = Vec::new();
    let mut return_list: HashMap<usize, usize> = HashMap::new();
    let mut i: usize = 0;
    while i < instruction.len()
        invariant
            i <= instruction.len(),
            program == ops(instruction@),
            pending(program, loop_stack@, i as int),
            linked(program, loop_stack@, return_list@, i as int),
        decreases instruction.len() - i,
    {
        match instruction[i] {
            SYMBOLS::LoopB => {
                proof {
                    lemma_loop_opened(program, loop_stack@, return_list@, i);
                }
                loop_stack.push(i);
            },
            SYMBOLS::LoopE => {
                proof {
                    if loop_stack@.len() > 0 {
                        lemma_loop_closed(program, loop_stack@, return_list@, i);
                    } else {
                        assert(depth(program, i + 1) < 0);
                    }
                }
                let start: usize = loop_stack.pop()?;
                return_list.insert(i, start);
                return_list.insert(start, i);
            },
            _ => {},
        }
        i += 1;
    }
    if loop_stack.is_empty() {
        Some(return_list)
    } else {
        None
    }
}

} // verus!
