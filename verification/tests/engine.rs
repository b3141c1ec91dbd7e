use bfjit::bfparser::codegen::HostCalls;
use bfjit::bftype::bfcate::VMArchType;
use bfjit::bftype::bferror::{CompileErrorKind, RuntimeError, RuntimeErrorKind};
use bfjit::bftype::bfwarn::{RuntimeWarn, RuntimeWarnKind};
use bfjit::bfvm::bfjit::{VMState, VMStruct};
use bfjit::start::{
    compile, compile_start, exit_code, names_file, source_unreadable, stream_fallback, StartArgs,
    StartError, STDIN, STDOUT,
};

const HOST: HostCalls = HostCalls { read_byte: 1, write_byte: 2, overflow_error: 3 };

#[test]
fn a_new_engine_is_ready_with_a_tape_of_zeros() {
    let vm = VMStruct::new(VMArchType::X64, false).unwrap();
    assert_eq!(vm.vm_state(), VMState::Ready);
    assert_eq!(vm.memory().len(), 30000);
    assert!(vm.memory().iter().all(|&cell| cell == 0));
    assert_eq!(vm.vm_arch_type(), VMArchType::X64);
    assert!(!vm.add_48());
}

#[test]
fn an_engine_runs_once() {
    let mut vm = VMStruct::new(VMArchType::X64, false).unwrap();
    assert_eq!(vm.run(), Ok(()));
    assert_eq!(vm.vm_state(), VMState::Running);
    assert_eq!(vm.finish(None), Ok(()));
    assert_eq!(vm.vm_state(), VMState::Done);
    let unknown = RuntimeError { index: 1, kind: RuntimeErrorKind::Unknown };
    assert_eq!(vm.run(), Err(unknown));
    assert_eq!(vm.finish(None), Err(unknown));
    assert_eq!(vm.vm_state(), VMState::Done);
}

#[test]
fn a_running_engine_is_not_started_again() {
    let mut vm = VMStruct::new(VMArchType::X64, false).unwrap();
    let unknown = RuntimeError { index: 1, kind: RuntimeErrorKind::Unknown };
    assert_eq!(vm.finish(None), Err(unknown));
    assert_eq!(vm.vm_state(), VMState::Ready);
    vm.run().unwrap();
    assert_eq!(vm.run(), Err(unknown));
    assert_eq!(vm.vm_state(), VMState::Running);
}

#[test]
fn exit_codes_tell_success_from_failure() {
    let compile = StartError::Compile(bfjit::bftype::bferror::CompileError {
        line: 1,
        col: 0,
        kind: CompileErrorKind::UnclosedLeftBracket,
    });
    let runtime = StartError::Runtime(RuntimeError { index: 1, kind: RuntimeErrorKind::IO });
    assert_eq!(exit_code(None), 0);
    assert_eq!(exit_code(Some(compile)), 1);
    assert_eq!(exit_code(Some(runtime)), 2);
}

#[test]
fn an_error_from_the_code_ends_the_run() {
    let mut vm = VMStruct::new(VMArchType::X64, false).unwrap();
    vm.run().unwrap();
    let error = VMStruct::overflow_error();
    assert_eq!(error, RuntimeError { index: 1, kind: RuntimeErrorKind::OutOfRange });
    assert_eq!(vm.finish(Some(error)), Err(error));
    assert_eq!(vm.vm_state(), VMState::Error);
    assert!(vm.run().is_err());
    assert!(vm.finish(None).is_err());
    assert_eq!(vm.vm_state(), VMState::Error);
}

#[test]
fn other_architectures_do_not_run() {
    for arch in [VMArchType::ARM64, VMArchType::RISCV64] {
        let mut vm = VMStruct::new(arch, false).unwrap();
        assert_eq!(vm.run(), Err(RuntimeError { index: 1, kind: RuntimeErrorKind::Unknown }));
        assert_eq!(vm.vm_state(), VMState::Error);
    }
}

#[test]
fn bytes_pass_unchanged_without_the_offset() {
    let vm = VMStruct::new(VMArchType::X64, false).unwrap();
    assert_eq!(vm.put_x64_byte(Some(b'7')), Ok(b'7'));
    assert_eq!(vm.get_x64_byte(7), 7);
}

#[test]
fn bytes_are_shifted_by_48_with_the_offset() {
    let vm = VMStruct::new(VMArchType::X64, true).unwrap();
    assert_eq!(vm.put_x64_byte(Some(b'7')), Ok(7));
    assert_eq!(vm.put_x64_byte(Some(0)), Ok(208));
    assert_eq!(vm.get_x64_byte(7), b'7');
    assert_eq!(vm.get_x64_byte(250), 42);
}

#[test]
fn failed_reads_and_writes_are_io_errors() {
    let vm = VMStruct::new(VMArchType::X64, false).unwrap();
    let io = RuntimeError { index: 1, kind: RuntimeErrorKind::IO };
    assert_eq!(vm.put_x64_byte(None), Err(io));
    assert_eq!(VMStruct::written(Some(1)), Ok(()));
    assert_eq!(VMStruct::written(Some(0)), Err(io));
    assert_eq!(VMStruct::written(Some(2)), Err(io));
    assert_eq!(VMStruct::written(None), Err(io));
    assert_eq!(source_unreadable(), io);
}

#[test]
fn the_tape_can_be_written_through() {
    let mut vm = VMStruct::new(VMArchType::X64, false).unwrap();
    vm.memory_mut()[5] = 9;
    assert_eq!(vm.memory()[5], 9);
    assert_eq!(vm.memory().len(), 30000);
}

#[test]
fn only_the_standard_names_stand_for_the_standard_streams() {
    assert!(!names_file("STDIN", STDIN));
    assert!(!names_file("STDOUT", STDOUT));
    assert!(names_file("stdin", STDIN));
    assert!(names_file("in.txt", STDIN));
    assert!(names_file("STDIN", STDOUT));
    assert!(names_file("", STDIN));
}

#[test]
fn a_file_that_does_not_open_falls_back_with_a_warning() {
    let warn = RuntimeWarn { kind: RuntimeWarnKind::ParseInputWarn };
    assert_eq!(stream_fallback(true, false, RuntimeWarnKind::ParseInputWarn), Some(warn));
    assert_eq!(stream_fallback(true, true, RuntimeWarnKind::ParseInputWarn), None);
    assert_eq!(stream_fallback(false, false, RuntimeWarnKind::ParseOutputWarn), None);
    assert_eq!(stream_fallback(false, true, RuntimeWarnKind::ParseOutputWarn), None);
}

#[test]
fn kinds_have_their_texts() {
    assert_eq!(CompileErrorKind::UnclosedLeftBracket.message(), "Unclosed left bracket");
    assert_eq!(CompileErrorKind::UnexpectedRightBracket.message(), "Unexpected right bracket");
    assert_eq!(RuntimeErrorKind::IO.message(), "IO Error");
    assert_eq!(RuntimeErrorKind::OutOfRange.message(), "Out of range");
    assert_eq!(RuntimeErrorKind::Memory.message(), "Memory error");
    assert_eq!(RuntimeErrorKind::Unknown.message(), "Unknown error");
    assert_eq!(
        RuntimeWarn { kind: RuntimeWarnKind::ParseInputWarn }.message(),
        "Parse input error, using default value: STDIN"
    );
    assert_eq!(
        RuntimeWarnKind::ParseOutputWarn.message(),
        "Parse output error, using default value: STDOUT"
    );
}

#[test]
fn compiling_goes_through_every_stage() {
    let mut assembler = match compile("++[>+<-]>.", VMArchType::X64, HOST) {
        Ok(assembler) => assembler,
        Err(e) => panic!("{:?}", e),
    };
    assembler.ops.commit().unwrap();
    let code = assembler.ops.finalize().unwrap().to_vec();
    // prologue 21, add 3, loop head 9, move 22, add 3, move 22, sub 3,
    // loop end 9, move 22, write 33, return 12, overflow handler 17
    assert_eq!(code.len(), 21 + 3 + 9 + 22 + 3 + 22 + 3 + 9 + 22 + 33 + 12 + 17);
    assert_eq!(code[21..24], [0x80, 0x03, 0x02]);
}

#[test]
fn compiling_reports_the_first_stage_that_fails() {
    match compile("+]", VMArchType::ARM64, HOST) {
        Err(StartError::Compile(e)) => {
            assert_eq!(e.kind, CompileErrorKind::UnexpectedRightBracket);
            assert_eq!((e.line, e.col), (1, 1));
        },
        other => panic!("{:?}", other.map(|_| ())),
    }
    match compile("+[]", VMArchType::ARM64, HOST) {
        Err(StartError::Runtime(e)) => {
            assert_eq!(e, RuntimeError { index: 1, kind: RuntimeErrorKind::Unknown })
        },
        other => panic!("{:?}", other.map(|_| ())),
    }
}

#[test]
fn starting_compiles_the_text_for_the_architecture() {
    let mut args = StartArgs {
        vm_arch_type: VMArchType::X64,
        input: String::from(STDIN),
        output: String::from(STDOUT),
        str: String::from("+."),
    };
    let mut assembler = match compile_start(&args, HOST) {
        Ok(assembler) => assembler,
        Err(e) => panic!("{:?}", e),
    };
    assembler.ops.commit().unwrap();
    let code = assembler.ops.finalize().unwrap().to_vec();
    assert_eq!(code.len(), 21 + 3 + 33 + 12 + 17);
    assert_eq!(code[21..24], [0x80, 0x03, 0x01]);
    args.vm_arch_type = VMArchType::RISCV64;
    match compile_start(&args, HOST) {
        Err(StartError::Runtime(e)) => {
            assert_eq!(e, RuntimeError { index: 1, kind: RuntimeErrorKind::Unknown })
        },
        other => panic!("{:?}", other.map(|_| ())),
    }
    args.str = String::from("[[");
    match compile_start(&args, HOST) {
        Err(StartError::Compile(e)) => {
            assert_eq!(e.kind, CompileErrorKind::UnclosedLeftBracket);
            assert_eq!((e.line, e.col), (1, 1));
        },
        other => panic!("{:?}", other.map(|_| ())),
    }
}
