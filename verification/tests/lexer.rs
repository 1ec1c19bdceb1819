use bf_interpreter::lexer::{append_line, str_to_symbol};
use bf_interpreter::symbols::SYMBOLS;

#[test]
fn each_operator_maps_to_its_operation() {
    assert_eq!(str_to_symbol("+"), Some(vec![SYMBOLS::Add(1)]));
    assert_eq!(str_to_symbol("-"), Some(vec![SYMBOLS::Add(-1)]));
    assert_eq!(str_to_symbol(">"), Some(vec![SYMBOLS::Move(1)]));
    assert_eq!(str_to_symbol("<"), Some(vec![SYMBOLS::Move(-1)]));
    assert_eq!(str_to_symbol("."), Some(vec![SYMBOLS::Output]));
    assert_eq!(str_to_symbol(","), Some(vec![SYMBOLS::Input]));
    assert_eq!(str_to_symbol("["), Some(vec![SYMBOLS::LoopB]));
    assert_eq!(str_to_symbol("]"), Some(vec![SYMBOLS::LoopE]));
}

#[test]
fn empty_line_gives_no_operations() {
    assert_eq!(str_to_symbol(""), Some(vec![]));
}

#[test]
fn commentary_is_skipped() {
    assert_eq!(str_to_symbol("hello world 123 \t!?"), Some(vec![]));
    assert_eq!(
        str_to_symbol("add one + then print . done"),
        Some(vec![SYMBOLS::Add(1), SYMBOLS::Output])
    );
}

#[test]
fn characters_outside_ascii_are_skipped() {
    assert_eq!(str_to_symbol("é+ü+日本語+🙂"), Some(vec![SYMBOLS::Add(3)]));
    assert_eq!(str_to_symbol("«,»"), Some(vec![SYMBOLS::Input]));
}

#[test]
fn commentary_between_operators_does_not_stop_folding() {
    assert_eq!(str_to_symbol("+ a + b +"), Some(vec![SYMBOLS::Add(3)]));
    assert_eq!(str_to_symbol("> x < y <"), Some(vec![SYMBOLS::Move(-1)]));
}

#[test]
fn additive_run_folds_to_its_net_count() {
    assert_eq!(str_to_symbol("+++"), Some(vec![SYMBOLS::Add(3)]));
    assert_eq!(str_to_symbol("---"), Some(vec![SYMBOLS::Add(-3)]));
    assert_eq!(str_to_symbol("+-+"), Some(vec![SYMBOLS::Add(1)]));
    assert_eq!(str_to_symbol("++---"), Some(vec![SYMBOLS::Add(-1)]));
}

#[test]
fn shifting_run_folds_to_its_net_count() {
    assert_eq!(str_to_symbol(">>>"), Some(vec![SYMBOLS::Move(3)]));
    assert_eq!(str_to_symbol("<<"), Some(vec![SYMBOLS::Move(-2)]));
    assert_eq!(str_to_symbol("><<<"), Some(vec![SYMBOLS::Move(-2)]));
}

#[test]
fn zero_delta_is_kept() {
    assert_eq!(str_to_symbol("+-"), Some(vec![SYMBOLS::Add(0)]));
    assert_eq!(str_to_symbol("<>"), Some(vec![SYMBOLS::Move(0)]));
    assert_eq!(
        str_to_symbol("+-><"),
        Some(vec![SYMBOLS::Add(0), SYMBOLS::Move(0)])
    );
}

#[test]
fn long_run_is_folded_and_not_truncated() {
    let line = "+".repeat(300);
    assert_eq!(str_to_symbol(&line), Some(vec![SYMBOLS::Add(300)]));
    let line = "-".repeat(1000);
    assert_eq!(str_to_symbol(&line), Some(vec![SYMBOLS::Add(-1000)]));
    let line = ">".repeat(70000);
    assert_eq!(str_to_symbol(&line), Some(vec![SYMBOLS::Move(70000)]));
}

#[test]
fn add_and_move_do_not_fold_into_each_other() {
    assert_eq!(
        str_to_symbol("+>+<-"),
        Some(vec![
            SYMBOLS::Add(1),
            SYMBOLS::Move(1),
            SYMBOLS::Add(1),
            SYMBOLS::Move(-1),
            SYMBOLS::Add(-1),
        ])
    );
}

#[test]
fn other_operations_are_never_folded() {
    assert_eq!(
        str_to_symbol("..,,[[]]"),
        Some(vec![
            SYMBOLS::Output,
            SYMBOLS::Output,
            SYMBOLS::Input,
            SYMBOLS::Input,
            SYMBOLS::LoopB,
            SYMBOLS::LoopB,
            SYMBOLS::LoopE,
            SYMBOLS::LoopE,
        ])
    );
}

#[test]
fn runs_are_split_by_other_operations() {
    assert_eq!(
        str_to_symbol("++.++"),
        Some(vec![SYMBOLS::Add(2), SYMBOLS::Output, SYMBOLS::Add(2)])
    );
    assert_eq!(
        str_to_symbol("++[-]>>"),
        Some(vec![
            SYMBOLS::Add(2),
            SYMBOLS::LoopB,
            SYMBOLS::Add(-1),
            SYMBOLS::LoopE,
            SYMBOLS::Move(2),
        ])
    );
}

#[test]
fn folding_stops_at_a_line_boundary() {
    let mut program = Vec::new();
    assert!(append_line(&mut program, "++"));
    assert!(append_line(&mut program, "++"));
    assert_eq!(program, vec![SYMBOLS::Add(2), SYMBOLS::Add(2)]);
}

#[test]
fn lines_lexed_one_by_one_concatenate() {
    let mut program = str_to_symbol("++").unwrap();
    program.extend(str_to_symbol("++").unwrap());
    assert_eq!(program, vec![SYMBOLS::Add(2), SYMBOLS::Add(2)]);
    assert_eq!(str_to_symbol("++++"), Some(vec![SYMBOLS::Add(4)]));
}

#[test]
fn text_in_two_parts_joins_where_the_parts_meet() {
    let whole = str_to_symbol("[-]>>+<<.").unwrap();
    for cut in 0..=9 {
        let first = str_to_symbol(&"[-]>>+<<."[..cut]).unwrap();
        let second = str_to_symbol(&"[-]>>+<<."[cut..]).unwrap();
        let mut joined = first.clone();
        match (first.last(), second.first()) {
            (Some(a), Some(b)) if a.combine(*b).is_some() => {
                joined.pop();
                joined.push(a.combine(*b).unwrap());
                joined.extend(second[1..].iter().copied());
            }
            _ => joined.extend(second.iter().copied()),
        }
        assert_eq!(joined, whole);
    }
    assert_eq!(
        whole,
        vec![
            SYMBOLS::LoopB,
            SYMBOLS::Add(-1),
            SYMBOLS::LoopE,
            SYMBOLS::Move(2),
            SYMBOLS::Add(1),
            SYMBOLS::Move(-2),
            SYMBOLS::Output,
        ]
    );
}

#[test]
fn append_line_keeps_what_the_program_holds() {
    let mut program = vec![SYMBOLS::LoopB, SYMBOLS::Move(1)];
    assert!(append_line(&mut program, ">> comment"));
    assert!(append_line(&mut program, ""));
    assert!(append_line(&mut program, "]"));
    assert_eq!(
        program,
        vec![
            SYMBOLS::LoopB,
            SYMBOLS::Move(1),
            SYMBOLS::Move(2),
            SYMBOLS::LoopE,
        ]
    );
}

#[test]
fn combine_adds_the_deltas_of_two_adds() {
    assert_eq!(
        SYMBOLS::Add(2).combine(SYMBOLS::Add(3)),
        Some(SYMBOLS::Add(5))
    );
    assert_eq!(
        SYMBOLS::Add(2).combine(SYMBOLS::Add(-2)),
        Some(SYMBOLS::Add(0))
    );
    assert_eq!(
        SYMBOLS::Add(-7).combine(SYMBOLS::Add(3)),
        Some(SYMBOLS::Add(-4))
    );
}

#[test]
fn combine_adds_the_deltas_of_two_moves() {
    assert_eq!(
        SYMBOLS::Move(1).combine(SYMBOLS::Move(1)),
        Some(SYMBOLS::Move(2))
    );
    assert_eq!(
        SYMBOLS::Move(-4).combine(SYMBOLS::Move(1)),
        Some(SYMBOLS::Move(-3))
    );
}

#[test]
fn combine_refuses_every_other_pair() {
    assert_eq!(SYMBOLS::Add(1).combine(SYMBOLS::Move(1)), None);
    assert_eq!(SYMBOLS::Move(1).combine(SYMBOLS::Add(1)), None);
    assert_eq!(SYMBOLS::Output.combine(SYMBOLS::Output), None);
    assert_eq!(SYMBOLS::Input.combine(SYMBOLS::Input), None);
    assert_eq!(SYMBOLS::LoopB.combine(SYMBOLS::LoopB), None);
    assert_eq!(SYMBOLS::LoopE.combine(SYMBOLS::LoopE), None);
    assert_eq!(SYMBOLS::LoopB.combine(SYMBOLS::LoopE), None);
    assert_eq!(SYMBOLS::Add(1).combine(SYMBOLS::Output), None);
}
