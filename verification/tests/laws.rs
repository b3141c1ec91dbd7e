use bfjit::bfparser::ir::{transfer_to_ir, BFIR};
use bfjit::bfparser::parser::{lex_to_string, parse, TOKEN};
use bfjit::bfparser::roundtrip::flatten_ir;
use bfjit::bftype::bferror::RuntimeErrorKind;
use bfjit::bfvm::interp::{run_ir, run_tokens, Run, Status};

const FUEL: u64 = 100_000;

fn both_runs(source: &str, input: &[u8]) -> ((Status, Run), (Status, Run)) {
    let tokens = parse(source).unwrap();
    let irs = transfer_to_ir(&tokens).unwrap();
    let input = input.to_vec();
    let mut by_tokens = Run::new(false);
    let direct = run_tokens(&tokens, 0, &input, &mut by_tokens, FUEL);
    let mut by_code = Run::new(false);
    let lowered = run_ir(&irs, &input, &mut by_code, FUEL);
    ((direct, by_tokens), (lowered, by_code))
}

#[test]
fn lexing_the_written_tokens_gives_the_tokens() {
    for source in ["", "+-<>,.[]", "a[b+c]d\n>>.", "++[>+<-]>.", "[[][]]"] {
        let tokens = parse(source).unwrap();
        let text = lex_to_string(&tokens);
        assert_eq!(parse(&text), Ok(tokens));
    }
}

#[test]
fn tokens_are_written_as_their_characters() {
    let tokens = vec![
        TOKEN::LeftLoop,
        TOKEN::Increment,
        TOKEN::Decrement,
        TOKEN::MoveLeft,
        TOKEN::MoveRight,
        TOKEN::Input,
        TOKEN::Output,
        TOKEN::RightLoop,
    ];
    assert_eq!(lex_to_string(&tokens), "[+-<>,.]");
    assert_eq!(lex_to_string(&vec![]), "");
}

fn neighbours_are_folded(nodes: &[BFIR]) -> bool {
    let cell = |n: &BFIR| matches!(n, BFIR::Add(_) | BFIR::Sub(_));
    let moves = |n: &BFIR| matches!(n, BFIR::MoveLeft(_) | BFIR::MoveRight(_));
    nodes.windows(2).all(|w| !(cell(&w[0]) && cell(&w[1])) && !(moves(&w[0]) && moves(&w[1])))
        && nodes.iter().all(|n| match n {
            BFIR::Loop(body) => neighbours_are_folded(body),
            _ => true,
        })
}

#[test]
fn lowered_code_has_no_two_neighbours_of_one_kind() {
    for source in ["++--+>><,.[+-+[>]<<]-", "+[-[>+<-]>.<]", "+>+>+>-<-<-", ",.,.++"] {
        let irs = transfer_to_ir(&parse(source).unwrap()).unwrap();
        assert!(neighbours_are_folded(&irs), "{}", source);
    }
}

#[test]
fn a_run_that_folds_to_nothing_lets_two_runs_meet() {
    let irs = transfer_to_ir(&parse("+<>-").unwrap()).unwrap();
    assert!(!neighbours_are_folded(&irs));
}

#[test]
fn a_run_that_folds_to_nothing_between_other_things_hides_nothing() {
    for source in ["+-.", ".<>+", "+<>.", ",+-<>.", "[+-]<>-", "+[<>]-"] {
        let irs = transfer_to_ir(&parse(source).unwrap()).unwrap();
        assert!(neighbours_are_folded(&irs), "{}", source);
    }
    let irs = transfer_to_ir(&parse("+-.").unwrap()).unwrap();
    assert_eq!(irs, vec![BFIR::Output]);
}

#[test]
fn every_counting_run_is_one_node() {
    let irs = transfer_to_ir(&parse("+++>>--<,++").unwrap()).unwrap();
    assert_eq!(
        irs,
        vec![
            BFIR::Add(3),
            BFIR::MoveRight(2),
            BFIR::Sub(2),
            BFIR::MoveLeft(1),
            BFIR::Input,
            BFIR::Add(2),
        ]
    );
}

#[test]
fn flattening_writes_counts_out() {
    let irs = vec![
        BFIR::Add(2),
        BFIR::Loop(vec![BFIR::MoveRight(3), BFIR::Sub(1), BFIR::Input]),
        BFIR::MoveLeft(1),
        BFIR::Output,
    ];
    assert_eq!(lex_to_string(&flatten_ir(&irs)), "++[>>>-,]<.");
}

#[test]
fn lowering_the_flattened_code_gives_the_code() {
    for source in ["++[>+<-]>.", "+[-[>+<-]>.<],,..", "", "[[[]]]", "--->>><+"] {
        let irs = transfer_to_ir(&parse(source).unwrap()).unwrap();
        assert_eq!(transfer_to_ir(&flatten_ir(&irs)), Ok(irs), "{}", source);
    }
    let wide = "+".repeat(127) + ">" + &"-".repeat(128);
    let irs = transfer_to_ir(&parse(&wide).unwrap()).unwrap();
    assert_eq!(irs, vec![BFIR::Add(127), BFIR::MoveRight(1), BFIR::Sub(128)]);
    assert_eq!(transfer_to_ir(&flatten_ir(&irs)), Ok(irs));
}

#[test]
fn lowered_code_runs_as_the_tokens_do() {
    let hello = "++++++++[>++++[>++>+++>+++>+<<<<-]>+>+>->>+[<]<-]>>.>---.+++++++..+++.>>.<-.<.+++.------.--------.>>+.>++.";
    for (source, input) in [
        ("+++.", &b""[..]),
        (",+.", &b"A"[..]),
        ("++[>+<-]>.", &b""[..]),
        (",[.,]", &b"abc\0"[..]),
        (",.", &b""[..]),
        (hello, &b""[..]),
        ("+[]", &b""[..]),
    ] {
        let (direct, lowered) = both_runs(source, input);
        assert_eq!(direct, lowered, "{}", source);
    }
}

#[test]
fn tokens_may_leave_the_tape_where_folded_code_does_not() {
    let ((direct, _), (lowered, _)) = both_runs("<>", b"");
    assert_eq!(direct, Status::Fault(RuntimeErrorKind::OutOfRange));
    assert_eq!(lowered, Status::Done);
}

#[test]
fn a_run_of_moves_leaves_the_tape_where_its_sum_does() {
    let ((direct, a), (lowered, b)) = both_runs("+<", b"");
    assert_eq!(direct, Status::Fault(RuntimeErrorKind::OutOfRange));
    assert_eq!(lowered, Status::Fault(RuntimeErrorKind::OutOfRange));
    assert_eq!((a.ptr, a.memory[0]), (0, 1));
    assert_eq!((b.ptr, b.memory[0]), (0, 1));
    let ((direct, _), (lowered, _)) = both_runs("><<.", b"");
    assert_eq!(direct, Status::Fault(RuntimeErrorKind::OutOfRange));
    assert_eq!(lowered, Status::Fault(RuntimeErrorKind::OutOfRange));
    let ((direct, _), (lowered, b)) = both_runs("<>+.", b"");
    assert_eq!(direct, Status::Fault(RuntimeErrorKind::OutOfRange));
    assert_eq!(lowered, Status::Done);
    assert_eq!(b.output, vec![1]);
}

#[test]
fn the_pointer_is_on_the_tape_at_every_read_and_write() {
    for source in [",>.>,<<.", "+[>.+]", ",[<.]", ">>>>.<<<<.<."] {
        let irs = transfer_to_ir(&parse(source).unwrap()).unwrap();
        let mut run = Run::new(false);
        let status = run_ir(&irs, &b"xyz".to_vec(), &mut run, FUEL);
        assert!(run.ptr < 30000);
        assert!(run.io_at.iter().all(|&at| at < 30000), "{}", source);
        assert!(matches!(
            status,
            Status::Done | Status::Fault(RuntimeErrorKind::OutOfRange) | Status::Fault(RuntimeErrorKind::IO)
        ));
    }
}
