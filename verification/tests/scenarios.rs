use bfjit::bfparser::ir::transfer_to_ir;
use bfjit::bfparser::parser::parse;
use bfjit::bftype::bferror::RuntimeErrorKind;
use bfjit::bfvm::interp::{run_ir, Run, Status};

fn interpret(source: &str, input: &[u8], ascii_offset: bool, fuel: u64) -> (Status, Run) {
    let irs = transfer_to_ir(&parse(source).unwrap()).unwrap();
    let mut run = Run::new(ascii_offset);
    let status = run_ir(&irs, &input.to_vec(), &mut run, fuel);
    (status, run)
}

#[test]
fn three_increments_write_three() {
    let (status, run) = interpret("+++.", b"", false, 10);
    assert_eq!(status, Status::Done);
    assert_eq!(run.output, vec![0x03]);
}

#[test]
fn a_byte_read_is_written_incremented() {
    let (status, run) = interpret(",+.", b"A", false, 10);
    assert_eq!(status, Status::Done);
    assert_eq!(run.output, vec![0x42]);
    assert_eq!(run.consumed, 1);
}

#[test]
fn a_loop_moves_a_cell() {
    let (status, run) = interpret("++[>+<-]>.", b"", false, 10);
    assert_eq!(status, Status::Done);
    assert_eq!(run.output, vec![0x02]);
    assert_eq!(run.ptr, 1);
    assert_eq!(run.memory[0], 0);
    assert_eq!(run.memory[1], 2);
}

#[test]
fn an_endless_loop_runs_out_of_fuel() {
    for fuel in [0, 1, 1000] {
        let (status, run) = interpret("+[]", b"", false, fuel);
        assert_eq!(status, Status::OutOfFuel);
        assert_eq!(run.memory[0], 1);
        assert!(run.output.is_empty());
    }
}

#[test]
fn moving_left_of_the_tape_is_out_of_range() {
    let (status, run) = interpret("<", b"", false, 10);
    assert_eq!(status, Status::Fault(RuntimeErrorKind::OutOfRange));
    assert_eq!(run.ptr, 0);
}

#[test]
fn moving_right_of_the_tape_is_out_of_range() {
    let (status, run) = interpret(&">".repeat(29_999), b"", false, 10);
    assert_eq!(status, Status::Done);
    assert_eq!(run.ptr, 29_999);
    let (status, _) = interpret(&">".repeat(30_000), b"", false, 10);
    assert_eq!(status, Status::Fault(RuntimeErrorKind::OutOfRange));
}

#[test]
fn reading_past_the_input_is_an_io_error() {
    let (status, run) = interpret(",.", b"", false, 10);
    assert_eq!(status, Status::Fault(RuntimeErrorKind::IO));
    assert!(run.output.is_empty());
}

#[test]
fn cells_wrap_around() {
    let (status, run) = interpret("-.", b"", false, 10);
    assert_eq!(status, Status::Done);
    assert_eq!(run.output, vec![255]);
    let (_, run) = interpret(&("+".repeat(256) + "+."), b"", false, 10);
    assert_eq!(run.output, vec![1]);
}

#[test]
fn digits_are_shifted_both_ways() {
    let (status, run) = interpret(",+.", b"4", true, 10);
    assert_eq!(status, Status::Done);
    assert_eq!(run.memory[0], 5);
    assert_eq!(run.output, vec![b'5']);
    let (_, run) = interpret(",.", b"\x05", true, 10);
    assert_eq!(run.memory[0], 5u8.wrapping_sub(48));
    assert_eq!(run.output, vec![5]);
}
