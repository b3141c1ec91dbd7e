use bfjit::bfparser::codegen::{can_encode, gen_code, HostCalls};
use bfjit::bfparser::ir::BFIR;
use bfjit::bftype::bfcate::VMArchType;
use bfjit::bftype::bferror::{RuntimeError, RuntimeErrorKind};

const HOST: HostCalls = HostCalls {
    read_byte: 0x1122_3344_5566_7788,
    write_byte: 0x0102_0304_0506_0708,
    overflow_error: 0x0a0b_0c0d_0e0f_1011,
};

const PROLOGUE: [u8; 21] = [
    0x53, 0x41, 0x54, 0x41, 0x55, 0x41, 0x56, 0x41, 0x57, 0x49, 0x89, 0xfc, 0x49, 0x89, 0xf5,
    0x49, 0x89, 0xd6, 0x48, 0x89, 0xf3,
];

const EPILOGUE: [u8; 12] = [0x31, 0xc0, 0x41, 0x5f, 0x41, 0x5e, 0x41, 0x5d, 0x41, 0x5c, 0x5b, 0xc3];

fn machine_code(irs: &Vec<BFIR>) -> Vec<u8> {
    let mut assembler = gen_code(irs, VMArchType::X64, HOST).unwrap();
    assembler.ops.commit().unwrap();
    assembler.ops.finalize().unwrap().to_vec()
}

/// What the code must be: the prologue, `body`, the return of null at
/// `body`'s end, and the overflow handler, whose jump goes back to the
/// epilogue.
fn framed(body: &[u8]) -> Vec<u8> {
    let mut code = PROLOGUE.to_vec();
    code.extend_from_slice(body);
    let io_error = code.len() as i32 + 2;
    code.extend_from_slice(&EPILOGUE);
    code.extend_from_slice(&[0x48, 0xb8]);
    code.extend_from_slice(&HOST.overflow_error.to_le_bytes());
    code.extend_from_slice(&[0xff, 0xd0, 0xe9]);
    let end = code.len() as i32 + 4;
    code.extend_from_slice(&(io_error - end).to_le_bytes());
    code
}

/// A jump of the body: the opcode and the distance from its end to `target`,
/// both counted from the start of the body.
fn jump(opcode: &[u8], end: i32, target: i32) -> Vec<u8> {
    let mut code = opcode.to_vec();
    code.extend_from_slice(&(target - end).to_le_bytes());
    code
}

#[test]
fn empty_program_is_prologue_epilogue_and_handlers() {
    assert_eq!(machine_code(&vec![]), framed(&[]));
}

#[test]
fn add_and_sub_are_byte_instructions() {
    assert_eq!(
        machine_code(&vec![BFIR::Add(3), BFIR::Sub(255)]),
        framed(&[0x80, 0x03, 0x03, 0x80, 0x2b, 0xff])
    );
}

#[test]
fn moves_are_checked_against_both_ends() {
    // body: add rbx, 0x12345678; jc overflow; cmp rbx, r14; jae overflow
    // the overflow handler starts 12 bytes behind the body's end
    let overflow = 22 + 12;
    let mut body = vec![0x48, 0x81, 0xc3, 0x78, 0x56, 0x34, 0x12];
    body.extend(jump(&[0x0f, 0x82], 13, overflow));
    body.extend([0x4c, 0x39, 0xf3]);
    body.extend(jump(&[0x0f, 0x83], 22, overflow));
    assert_eq!(machine_code(&vec![BFIR::MoveRight(0x1234_5678)]), framed(&body));

    let mut body = vec![0x48, 0x81, 0xeb, 0xff, 0xff, 0xff, 0x7f];
    body.extend(jump(&[0x0f, 0x82], 13, overflow));
    body.extend([0x4c, 0x39, 0xeb]);
    body.extend(jump(&[0x0f, 0x82], 22, overflow));
    assert_eq!(machine_code(&vec![BFIR::MoveLeft(0x7fff_ffff)]), framed(&body));
}

#[test]
fn input_and_output_call_the_host() {
    for (node, routine) in [(BFIR::Input, HOST.read_byte), (BFIR::Output, HOST.write_byte)] {
        let mut body = vec![0x49, 0x89, 0xdf, 0x4c, 0x89, 0xe7, 0x48, 0x89, 0xde, 0x48, 0xb8];
        body.extend(routine.to_le_bytes());
        body.extend([0xff, 0xd0, 0x48, 0x85, 0xc0]);
        // io_error stands two bytes behind the body's end
        body.extend(jump(&[0x0f, 0x85], 30, 33 + 2));
        body.extend([0x4c, 0x89, 0xfb]);
        assert_eq!(machine_code(&vec![node]), framed(&body));
    }
}

#[test]
fn loop_tests_the_cell_at_both_ends() {
    // cmp byte [rbx], 0; jz right; left: sub byte [rbx], 1;
    // cmp byte [rbx], 0; jnz left; right:
    let mut body = vec![0x80, 0x3b, 0x00];
    body.extend(jump(&[0x0f, 0x84], 9, 21));
    body.extend([0x80, 0x2b, 0x01, 0x80, 0x3b, 0x00]);
    body.extend(jump(&[0x0f, 0x85], 21, 9));
    assert_eq!(machine_code(&vec![BFIR::Loop(vec![BFIR::Sub(1)])]), framed(&body));
}

#[test]
fn nested_loops_get_labels_of_their_own() {
    // [ [ ] + ] [ ]
    let mut body = vec![0x80, 0x3b, 0x00];
    body.extend(jump(&[0x0f, 0x84], 9, 39));
    {
        body.extend([0x80, 0x3b, 0x00]);
        body.extend(jump(&[0x0f, 0x84], 18, 27));
        body.extend([0x80, 0x3b, 0x00]);
        body.extend(jump(&[0x0f, 0x85], 27, 18));
        body.extend([0x80, 0x03, 0x01]);
    }
    body.extend([0x80, 0x3b, 0x00]);
    body.extend(jump(&[0x0f, 0x85], 39, 9));
    body.extend([0x80, 0x3b, 0x00]);
    body.extend(jump(&[0x0f, 0x84], 48, 57));
    body.extend([0x80, 0x3b, 0x00]);
    body.extend(jump(&[0x0f, 0x85], 57, 48));
    let irs = vec![
        BFIR::Loop(vec![BFIR::Loop(vec![]), BFIR::Add(1)]),
        BFIR::Loop(vec![]),
    ];
    assert_eq!(machine_code(&irs), framed(&body));
}

#[test]
fn other_architectures_are_unknown() {
    for arch in [VMArchType::ARM64, VMArchType::RISCV64] {
        match gen_code(&vec![BFIR::Add(1)], arch, HOST) {
            Err(e) => assert_eq!(e, RuntimeError { index: 1, kind: RuntimeErrorKind::Unknown }),
            Ok(_) => panic!("code for {:?}", arch),
        }
    }
}

#[test]
fn moves_beyond_the_largest_count_cannot_be_encoded() {
    assert!(can_encode(&vec![]));
    assert!(can_encode(&vec![BFIR::Add(255), BFIR::Sub(0), BFIR::MoveLeft(0x7fff_ffff)]));
    assert!(can_encode(&vec![BFIR::Loop(vec![BFIR::MoveRight(0x7fff_ffff), BFIR::Input])]));
    assert!(!can_encode(&vec![BFIR::MoveRight(0x8000_0000)]));
    assert!(!can_encode(&vec![BFIR::Output, BFIR::MoveLeft(u32::MAX), BFIR::Output]));
    assert!(!can_encode(&vec![
        BFIR::Add(1),
        BFIR::Loop(vec![BFIR::Loop(vec![BFIR::MoveLeft(0x8000_0000)])]),
    ]));
}
