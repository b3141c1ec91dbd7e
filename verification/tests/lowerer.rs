use bfjit::bfparser::ir::{transfer_to_ir, BFIR};
use bfjit::bfparser::parser::{parse, TOKEN};
use bfjit::bftype::bferror::{RuntimeError, RuntimeErrorKind};

fn lowered(source: &str) -> Vec<BFIR> {
    transfer_to_ir(&parse(source).unwrap()).unwrap()
}

#[test]
fn folds_runs_and_builds_loops() {
    assert_eq!(
        lowered("++[>+<-]>."),
        vec![
            BFIR::Add(2),
            BFIR::Loop(vec![
                BFIR::MoveRight(1),
                BFIR::Add(1),
                BFIR::MoveLeft(1),
                BFIR::Sub(1),
            ]),
            BFIR::MoveRight(1),
            BFIR::Output,
        ]
    );
}

#[test]
fn three_increments_are_one_node() {
    assert_eq!(lowered("+++."), vec![BFIR::Add(3), BFIR::Output]);
}

#[test]
fn runs_that_cancel_leave_nothing() {
    assert_eq!(lowered("+-"), Vec::<BFIR>::new());
    assert_eq!(lowered("<><>"), Vec::<BFIR>::new());
    assert_eq!(lowered("+<>-"), vec![BFIR::Add(1), BFIR::Sub(1)]);
}

#[test]
fn mixed_runs_keep_their_sum() {
    assert_eq!(lowered("+++--"), vec![BFIR::Add(1)]);
    assert_eq!(lowered("+---"), vec![BFIR::Sub(2)]);
    assert_eq!(lowered("><<<"), vec![BFIR::MoveLeft(2)]);
    assert_eq!(lowered(">>><"), vec![BFIR::MoveRight(2)]);
}

#[test]
fn io_is_never_merged() {
    assert_eq!(
        lowered(",,.."),
        vec![BFIR::Input, BFIR::Input, BFIR::Output, BFIR::Output]
    );
}

#[test]
fn cell_runs_wrap_in_eight_bits() {
    assert_eq!(lowered(&"+".repeat(127)), vec![BFIR::Add(127)]);
    assert_eq!(lowered(&"+".repeat(128)), vec![BFIR::Sub(128)]);
    assert_eq!(lowered(&"+".repeat(129)), vec![BFIR::Sub(127)]);
    assert_eq!(lowered(&"+".repeat(256)), Vec::<BFIR>::new());
    assert_eq!(lowered(&"+".repeat(257)), vec![BFIR::Add(1)]);
    assert_eq!(lowered(&"-".repeat(128)), vec![BFIR::Sub(128)]);
    assert_eq!(lowered(&"-".repeat(129)), vec![BFIR::Add(127)]);
}

#[test]
fn nested_and_empty_loops() {
    assert_eq!(lowered("[]"), vec![BFIR::Loop(vec![])]);
    assert_eq!(
        lowered("[[-]>]"),
        vec![BFIR::Loop(vec![BFIR::Loop(vec![BFIR::Sub(1)]), BFIR::MoveRight(1)])]
    );
    assert_eq!(
        lowered("+[]"),
        vec![BFIR::Add(1), BFIR::Loop(vec![])]
    );
}

#[test]
fn stray_close_is_out_of_range_at_its_index() {
    let tokens = vec![TOKEN::Increment, TOKEN::RightLoop, TOKEN::LeftLoop];
    assert_eq!(
        transfer_to_ir(&tokens),
        Err(RuntimeError { index: 1, kind: RuntimeErrorKind::OutOfRange })
    );
}

#[test]
fn unclosed_open_is_out_of_range_at_the_last_open() {
    let tokens = vec![
        TOKEN::LeftLoop,
        TOKEN::LeftLoop,
        TOKEN::RightLoop,
        TOKEN::LeftLoop,
        TOKEN::Increment,
    ];
    assert_eq!(
        transfer_to_ir(&tokens),
        Err(RuntimeError { index: 3, kind: RuntimeErrorKind::OutOfRange })
    );
    assert_eq!(
        transfer_to_ir(&vec![TOKEN::LeftLoop]),
        Err(RuntimeError { index: 0, kind: RuntimeErrorKind::OutOfRange })
    );
}
