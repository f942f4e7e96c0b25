use bf::compiler::{compile_bf, Error};
use bf::vm::Inst::{Dec, Inc, Input, JumpIfZero, JumpUnlessZero, Next, Output, Prev};

#[test]
fn compile_simple_instructions() {
    let code = compile_bf("+-><,.".as_bytes()).unwrap();
    assert_eq!(vec![Inc, Dec, Next, Prev, Input, Output], code);
}

#[test]
fn compile_empty_loop() {
    let code = compile_bf("[]".as_bytes()).unwrap();
    assert_eq!(vec![JumpIfZero(0x02), JumpUnlessZero(0x01)], code);
}

#[test]
fn compile_clear_loop() {
    let code = compile_bf("[-]".as_bytes()).unwrap();
    assert_eq!(vec![JumpIfZero(0x03), Dec, JumpUnlessZero(0x01)], code);
}

#[test]
fn unmatched_right_bracket() {
    let error = compile_bf("[]]".as_bytes()).unwrap_err();
    assert_eq!(Error::unmatched_bracket(), error);
}

#[test]
fn unmatched_left_bracket() {
    let error = compile_bf("[][".as_bytes()).unwrap_err();
    assert_eq!(Error::unmatched_bracket(), error);
}

#[test]
fn initial_non_command_characters_doesnt_panic_the_compiler() {
    // The instruction counter must not advance on skipped bytes.
    let code = compile_bf("a+".as_bytes()).unwrap();
    assert_eq!(vec![Inc], code);
}

#[test]
fn compile_nested_loops() {
    let code = compile_bf("[[]]".as_bytes()).unwrap();
    assert_eq!(
        vec![JumpIfZero(4), JumpIfZero(3), JumpUnlessZero(2), JumpUnlessZero(1)],
        code
    );
}

#[test]
fn compile_empty_input() {
    let code = compile_bf("".as_bytes()).unwrap();
    assert_eq!(Vec::<bf::vm::Inst>::new(), code);
}

#[test]
fn compile_comments_between_commands_keep_targets_right() {
    let code = compile_bf("a[b-c]d".as_bytes()).unwrap();
    assert_eq!(vec![JumpIfZero(3), Dec, JumpUnlessZero(1)], code);
}

#[test]
fn lone_right_bracket_is_unmatched() {
    let error = compile_bf("]".as_bytes()).unwrap_err();
    assert_eq!(Error::UnmatchedBracket, error);
}

#[test]
fn error_kinds_are_distinct() {
    assert_eq!(Error::IOError, Error::io_error());
    assert_ne!(Error::unmatched_bracket(), Error::io_error());
}

#[test]
fn error_descriptions() {
    assert_eq!("unmatched bracket", Error::unmatched_bracket().description());
    assert_eq!("io error", Error::io_error().description());
}
