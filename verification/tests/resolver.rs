use bf_interpreter::lexer::str_to_symbol;
use bf_interpreter::resolver::tunnels;
use bf_interpreter::symbols::SYMBOLS;
use std::collections::HashMap;

fn table_of(source: &str) -> Option<HashMap<usize, usize>> {
    tunnels(&str_to_symbol(source).unwrap())
}

#[test]
fn program_without_loops_has_an_empty_table() {
    assert_eq!(table_of(""), Some(HashMap::new()));
    assert_eq!(table_of("+>.<,-"), Some(HashMap::new()));
}

#[test]
fn single_loop_is_linked_both_ways() {
    let table = table_of("[]").unwrap();
    assert_eq!(table.len(), 2);
    assert_eq!(table.get(&0), Some(&1));
    assert_eq!(table.get(&1), Some(&0));
}

#[test]
fn positions_count_folded_operations() {
    // +++ [ > ++ < - ] .
    // 0   1 2 3  4 5 6 7
    let table = table_of("+++[>++<-].").unwrap();
    assert_eq!(table.len(), 2);
    assert_eq!(table.get(&1), Some(&6));
    assert_eq!(table.get(&6), Some(&1));
    assert_eq!(table.get(&0), None);
    assert_eq!(table.get(&7), None);
}

#[test]
fn nested_loops_are_matched_innermost_first() {
    let table = table_of("[[]]").unwrap();
    let mut expected = HashMap::new();
    expected.insert(0, 3);
    expected.insert(3, 0);
    expected.insert(1, 2);
    expected.insert(2, 1);
    assert_eq!(table, expected);
}

#[test]
fn loops_side_by_side_are_matched_in_turn() {
    let table = table_of("[][[][]]").unwrap();
    let mut expected = HashMap::new();
    for (start, end) in [(0, 1), (2, 7), (3, 4), (5, 6)] {
        expected.insert(start, end);
        expected.insert(end, start);
    }
    assert_eq!(table, expected);
}

#[test]
fn table_is_symmetric() {
    let program = str_to_symbol("+[>[-]<[[-]>+<]]>[.[-]],[.,]").unwrap();
    let table = tunnels(&program).unwrap();
    let loops = program
        .iter()
        .filter(|s| matches!(s, SYMBOLS::LoopB | SYMBOLS::LoopE))
        .count();
    assert_eq!(table.len(), loops);
    for (from, to) in table.iter() {
        assert_eq!(table.get(to), Some(from));
        assert_eq!(table[&table[from]], *from);
    }
}

#[test]
fn table_sends_starts_to_ends_and_ends_to_starts() {
    let program = str_to_symbol("[+[-]>[<]]").unwrap();
    let table = tunnels(&program).unwrap();
    for (from, to) in table.iter() {
        match program[*from] {
            SYMBOLS::LoopB => {
                assert!(from < to);
                assert_eq!(program[*to], SYMBOLS::LoopE);
            }
            SYMBOLS::LoopE => {
                assert!(to < from);
                assert_eq!(program[*to], SYMBOLS::LoopB);
            }
            _ => panic!("a key that is no loop"),
        }
    }
}

#[test]
fn unmatched_start_is_rejected() {
    assert_eq!(table_of("["), None);
}

#[test]
fn unmatched_end_is_rejected() {
    assert_eq!(table_of("]"), None);
}

#[test]
fn end_before_start_is_rejected() {
    assert_eq!(table_of("]["), None);
}

#[test]
fn more_starts_than_ends_is_rejected() {
    assert_eq!(table_of("[[]"), None);
    assert_eq!(table_of("+[>[-]"), None);
}

#[test]
fn more_ends_than_starts_is_rejected() {
    assert_eq!(table_of("[]]"), None);
    assert_eq!(table_of("[]]["), None);
    assert_eq!(table_of("+]-[."), None);
}

#[test]
fn program_built_by_hand_is_resolved() {
    let program = vec![
        SYMBOLS::LoopB,
        SYMBOLS::Add(-1),
        SYMBOLS::LoopE,
        SYMBOLS::Output,
    ];
    let table = tunnels(&program).unwrap();
    assert_eq!(table.len(), 2);
    assert_eq!(table[&0], 2);
    assert_eq!(table[&2], 0);
}
