use bfjit::bfparser::ir::{
    clone_nodes, normal, reduce_duplicate_leftright, reduce_duplicate_updown, reduce_io,
    reduce_loop, IRStruct, BFIR,
};
use bfjit::bfparser::parser::{parse, TOKEN};
use bfjit::bftype::bferror::{RuntimeError, RuntimeErrorKind};
use bfjit::bfvm::interp::find_close;

const NO_FRAME: RuntimeError = RuntimeError { index: 0, kind: RuntimeErrorKind::OutOfRange };

fn state(source: &str) -> IRStruct {
    IRStruct::new(&parse(source).unwrap())
}

/// Closes the outermost frame and hands out what was collected in it.
fn collected(mut ir_struct: IRStruct) -> Vec<BFIR> {
    ir_struct.stack_end().unwrap();
    clone_nodes(ir_struct.get_result())
}

#[test]
fn a_new_state_holds_the_tokens_and_nothing_else() {
    let ir_struct = state("+[-]");
    assert_eq!(
        ir_struct.get_tokens(),
        &vec![TOKEN::Increment, TOKEN::LeftLoop, TOKEN::Decrement, TOKEN::RightLoop]
    );
    assert!(ir_struct.get_result().is_empty());
}

#[test]
fn init_starts_over() {
    let mut ir_struct = state("+");
    ir_struct.stack_start();
    ir_struct.tmp_push(BFIR::Input).unwrap();
    ir_struct.init(&vec![TOKEN::Output]);
    assert_eq!(ir_struct.get_tokens(), &vec![TOKEN::Output]);
    assert!(ir_struct.get_result().is_empty());
    assert_eq!(ir_struct.tmp_push(BFIR::Input), Err(NO_FRAME));
}

#[test]
fn clear_keeps_what_it_is_told_to() {
    let mut ir_struct = state("+");
    ir_struct.stack_start();
    ir_struct.tmp_push(BFIR::Add(1)).unwrap();
    ir_struct.stack_end().unwrap();
    ir_struct.init(&vec![TOKEN::Output]);
    ir_struct.stack_start();
    ir_struct.tmp_push(BFIR::Output).unwrap();
    ir_struct.stack_end().unwrap();
    assert_eq!(ir_struct.get_result(), &vec![BFIR::Output]);
    ir_struct.init(&vec![TOKEN::Input]);
    ir_struct.clear(false, false);
    assert_eq!(ir_struct.get_tokens(), &vec![TOKEN::Input]);
    ir_struct.clear(true, true);
    assert!(ir_struct.get_tokens().is_empty());
    assert!(ir_struct.get_result().is_empty());
}

#[test]
fn pushing_needs_a_frame() {
    let mut ir_struct = state("");
    assert_eq!(ir_struct.tmp_push(BFIR::Input), Err(NO_FRAME));
    assert_eq!(ir_struct.stack_end(), Err(NO_FRAME));
    ir_struct.stack_start();
    assert_eq!(ir_struct.tmp_push(BFIR::Input), Ok(()));
    assert_eq!(collected(ir_struct), vec![BFIR::Input]);
}

#[test]
fn an_inner_frame_closes_into_a_loop() {
    let mut ir_struct = state("");
    ir_struct.stack_start();
    ir_struct.tmp_push(BFIR::Add(1)).unwrap();
    ir_struct.stack_start();
    ir_struct.tmp_push(BFIR::Sub(1)).unwrap();
    ir_struct.stack_end().unwrap();
    ir_struct.tmp_push(BFIR::Output).unwrap();
    assert_eq!(
        collected(ir_struct),
        vec![BFIR::Add(1), BFIR::Loop(vec![BFIR::Sub(1)]), BFIR::Output]
    );
}

#[test]
fn closing_the_outermost_frame_drops_the_tokens() {
    let mut ir_struct = state("+");
    ir_struct.stack_start();
    ir_struct.stack_end().unwrap();
    assert!(ir_struct.get_tokens().is_empty());
}

#[test]
fn a_cell_run_is_reduced_to_its_end() {
    let mut ir_struct = state("++-+>+");
    ir_struct.stack_start();
    assert_eq!(reduce_duplicate_updown(0, &mut ir_struct), Ok(4));
    assert_eq!(reduce_duplicate_updown(4, &mut ir_struct), Ok(4));
    assert_eq!(reduce_duplicate_updown(9, &mut ir_struct), Ok(9));
    assert_eq!(collected(ir_struct), vec![BFIR::Add(2)]);
}

#[test]
fn a_move_run_is_reduced_to_its_end() {
    let mut ir_struct = state("<<<>+<");
    ir_struct.stack_start();
    assert_eq!(reduce_duplicate_leftright(1, &mut ir_struct), Ok(4));
    assert_eq!(reduce_duplicate_leftright(5, &mut ir_struct), Ok(6));
    assert_eq!(collected(ir_struct), vec![BFIR::MoveLeft(1), BFIR::MoveLeft(1)]);
}

#[test]
fn an_io_run_is_reduced_to_its_end() {
    let mut ir_struct = state(",..,+");
    ir_struct.stack_start();
    assert_eq!(reduce_io(0, &mut ir_struct), Ok(4));
    assert_eq!(
        collected(ir_struct),
        vec![BFIR::Input, BFIR::Output, BFIR::Output, BFIR::Input]
    );
}

#[test]
fn reducing_without_a_frame_fails_only_where_a_node_is_due() {
    let mut ir_struct = state("+-<>,+<");
    assert_eq!(reduce_duplicate_updown(0, &mut ir_struct), Ok(2));
    assert_eq!(reduce_duplicate_leftright(2, &mut ir_struct), Ok(4));
    assert_eq!(reduce_io(5, &mut ir_struct), Ok(5));
    assert_eq!(reduce_io(4, &mut ir_struct), Err(NO_FRAME));
    assert_eq!(reduce_duplicate_updown(5, &mut ir_struct), Err(NO_FRAME));
    assert_eq!(reduce_duplicate_leftright(6, &mut ir_struct), Err(NO_FRAME));
}

#[test]
fn a_loop_is_reduced_to_behind_its_closing_bracket() {
    let mut ir_struct = state("+[>[-]<]+");
    ir_struct.stack_start();
    assert_eq!(reduce_loop(1, &mut ir_struct), Ok(8));
    assert_eq!(
        collected(ir_struct),
        vec![BFIR::Loop(vec![
            BFIR::MoveRight(1),
            BFIR::Loop(vec![BFIR::Sub(1)]),
            BFIR::MoveLeft(1),
        ])]
    );
}

#[test]
fn normal_takes_one_item() {
    let mut ir_struct = state("++[-],.>");
    ir_struct.stack_start();
    assert_eq!(normal(0, &mut ir_struct), Ok(2));
    assert_eq!(normal(2, &mut ir_struct), Ok(5));
    assert_eq!(normal(5, &mut ir_struct), Ok(7));
    assert_eq!(normal(7, &mut ir_struct), Ok(8));
    assert_eq!(
        collected(ir_struct),
        vec![
            BFIR::Add(2),
            BFIR::Loop(vec![BFIR::Sub(1)]),
            BFIR::Input,
            BFIR::Output,
            BFIR::MoveRight(1),
        ]
    );
}

#[test]
fn normal_refuses_brackets_that_do_not_pair_up() {
    let tokens = vec![TOKEN::RightLoop, TOKEN::LeftLoop, TOKEN::LeftLoop, TOKEN::RightLoop];
    let mut ir_struct = IRStruct::new(&tokens);
    ir_struct.stack_start();
    let out_of_range = |index| RuntimeError { index, kind: RuntimeErrorKind::OutOfRange };
    assert_eq!(normal(0, &mut ir_struct), Err(out_of_range(0)));
    assert_eq!(normal(1, &mut ir_struct), Err(out_of_range(1)));
    assert_eq!(reduce_loop(2, &mut ir_struct), Ok(4));
}

#[test]
fn copies_are_equal_and_apart() {
    let nodes = vec![BFIR::Add(1), BFIR::Loop(vec![BFIR::Loop(vec![]), BFIR::MoveLeft(2)])];
    let mut copy = clone_nodes(&nodes);
    assert_eq!(copy, nodes);
    assert_eq!(nodes[1].clone(), nodes[1]);
    copy.push(BFIR::Input);
    assert_eq!(nodes.len(), 2);
}

#[test]
fn closing_brackets_are_found() {
    let tokens = parse("[[][]]+[]").unwrap();
    assert_eq!(find_close(&tokens, 0), 5);
    assert_eq!(find_close(&tokens, 1), 2);
    assert_eq!(find_close(&tokens, 3), 4);
    assert_eq!(find_close(&tokens, 7), 8);
    let open = vec![TOKEN::LeftLoop, TOKEN::LeftLoop, TOKEN::RightLoop];
    assert_eq!(find_close(&open, 0), 3);
}

#[test]
fn an_item_before_an_unclosed_bracket_is_lowered() {
    let tokens = vec![TOKEN::Increment, TOKEN::LeftLoop];
    let mut ir_struct = IRStruct::new(&tokens);
    ir_struct.stack_start();
    assert_eq!(normal(0, &mut ir_struct), Ok(1));
    assert_eq!(collected(ir_struct), vec![BFIR::Add(1)]);
}

#[test]
fn a_closed_loop_before_an_unclosed_bracket_is_lowered() {
    let tokens = vec![TOKEN::LeftLoop, TOKEN::RightLoop, TOKEN::LeftLoop];
    let mut ir_struct = IRStruct::new(&tokens);
    ir_struct.stack_start();
    assert_eq!(reduce_loop(0, &mut ir_struct), Ok(2));
    assert_eq!(collected(ir_struct), vec![BFIR::Loop(vec![])]);
}

#[test]
fn a_refused_closing_bracket_changes_nothing() {
    let tokens = vec![TOKEN::Increment, TOKEN::RightLoop];
    let mut ir_struct = IRStruct::new(&tokens);
    assert_eq!(
        normal(1, &mut ir_struct),
        Err(RuntimeError { index: 1, kind: RuntimeErrorKind::OutOfRange })
    );
    assert_eq!(ir_struct.tmp_push(BFIR::Input), Err(NO_FRAME));
    ir_struct.stack_start();
    assert_eq!(normal(0, &mut ir_struct), Ok(1));
    assert_eq!(
        normal(1, &mut ir_struct),
        Err(RuntimeError { index: 1, kind: RuntimeErrorKind::OutOfRange })
    );
    assert_eq!(ir_struct.get_tokens(), &tokens);
    assert_eq!(collected(ir_struct), vec![BFIR::Add(1)]);
}

#[test]
fn an_unclosed_loop_leaves_its_frames_open() {
    // [ + [ ] [ -
    let tokens = vec![
        TOKEN::LeftLoop,
        TOKEN::Increment,
        TOKEN::LeftLoop,
        TOKEN::RightLoop,
        TOKEN::LeftLoop,
        TOKEN::Decrement,
    ];
    let mut ir_struct = IRStruct::new(&tokens);
    ir_struct.stack_start();
    assert_eq!(
        reduce_loop(0, &mut ir_struct),
        Err(RuntimeError { index: 4, kind: RuntimeErrorKind::OutOfRange })
    );
    assert_eq!(ir_struct.get_tokens(), &tokens);
    assert!(ir_struct.get_result().is_empty());
    ir_struct.stack_end().unwrap();
    ir_struct.stack_end().unwrap();
    assert_eq!(
        collected(ir_struct),
        vec![BFIR::Loop(vec![
            BFIR::Add(1),
            BFIR::Loop(vec![]),
            BFIR::Loop(vec![BFIR::Sub(1)]),
        ])]
    );
}

#[test]
fn the_last_unclosed_bracket_is_reported_not_the_first() {
    let tokens = vec![TOKEN::LeftLoop, TOKEN::LeftLoop];
    let mut ir_struct = IRStruct::new(&tokens);
    ir_struct.stack_start();
    assert_eq!(
        normal(0, &mut ir_struct),
        Err(RuntimeError { index: 1, kind: RuntimeErrorKind::OutOfRange })
    );
}
