use bfjit::bfparser::parser::{parse, TOKEN};
use bfjit::bftype::bferror::{CompileError, CompileErrorKind};

#[test]
fn lexes_every_instruction_in_order() {
    let tokens = parse("+-<>,.[]").unwrap();
    assert_eq!(
        tokens,
        vec![
            TOKEN::Increment,
            TOKEN::Decrement,
            TOKEN::MoveLeft,
            TOKEN::MoveRight,
            TOKEN::Input,
            TOKEN::Output,
            TOKEN::LeftLoop,
            TOKEN::RightLoop,
        ]
    );
}

#[test]
fn skips_comments() {
    let tokens = parse("a + b\n- c é [x]").unwrap();
    assert_eq!(
        tokens,
        vec![TOKEN::Increment, TOKEN::Decrement, TOKEN::LeftLoop, TOKEN::RightLoop]
    );
}

#[test]
fn empty_source_has_no_tokens() {
    assert_eq!(parse("").unwrap(), Vec::<TOKEN>::new());
}

#[test]
fn unclosed_bracket_is_reported_at_line_one_column_zero() {
    assert_eq!(
        parse("["),
        Err(CompileError { line: 1, col: 0, kind: CompileErrorKind::UnclosedLeftBracket })
    );
}

#[test]
fn stray_bracket_is_reported_at_line_one_column_zero() {
    assert_eq!(
        parse("]"),
        Err(CompileError { line: 1, col: 0, kind: CompileErrorKind::UnexpectedRightBracket })
    );
}

#[test]
fn columns_restart_at_zero_after_a_newline() {
    assert_eq!(
        parse("++\n]"),
        Err(CompileError { line: 2, col: 0, kind: CompileErrorKind::UnexpectedRightBracket })
    );
    assert_eq!(
        parse("+\n\n ab]"),
        Err(CompileError { line: 3, col: 3, kind: CompileErrorKind::UnexpectedRightBracket })
    );
}

#[test]
fn columns_count_characters_not_bytes() {
    assert_eq!(
        parse("éé]"),
        Err(CompileError { line: 1, col: 2, kind: CompileErrorKind::UnexpectedRightBracket })
    );
}

#[test]
fn the_first_stray_bracket_wins() {
    assert_eq!(
        parse("[]] ] ["),
        Err(CompileError { line: 1, col: 2, kind: CompileErrorKind::UnexpectedRightBracket })
    );
}

#[test]
fn the_last_unclosed_bracket_is_named() {
    assert_eq!(
        parse("[ [] [\n [ ] "),
        Err(CompileError { line: 1, col: 5, kind: CompileErrorKind::UnclosedLeftBracket })
    );
    assert_eq!(
        parse("[\n  [+"),
        Err(CompileError { line: 2, col: 2, kind: CompileErrorKind::UnclosedLeftBracket })
    );
}

#[test]
fn balanced_sources_succeed_and_unbalanced_fail() {
    for good in ["", "[]", "[[]]", "[][]", "+[>[-]<]"] {
        assert!(parse(good).is_ok(), "{}", good);
    }
    for bad in ["[", "]", "][", "[]]", "[[]", "[]["] {
        assert!(parse(bad).is_err(), "{}", bad);
    }
}
