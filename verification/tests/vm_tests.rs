use bf::vm::Inst::{Dec, Inc, Input, JumpIfZero, JumpUnlessZero, Next, Output, Prev};
use bf::vm::Vm;

#[test]
fn test_inc_and_dec() {
    let mut vm = Vm::new(1, Vec::new(), Vec::new()).unwrap();

    vm.eval(&[Inc, Inc, Dec]);
    assert_eq!(vec![1], *vm.memory());
}

#[test]
fn test_next_and_prev() {
    let mut vm = Vm::new(2, Vec::new(), Vec::new()).unwrap();

    vm.eval(&[Next, Inc, Prev, Inc]);
    assert_eq!(vec![1, 1], *vm.memory());
}

#[test]
fn cant_move_beyond_end_of_memory() {
    let mut vm = Vm::new(1, Vec::new(), Vec::new()).unwrap();
    let code = &[Next, Inc];

    vm.eval(code);
    assert_eq!(vec![1], *vm.memory());
}

#[test]
fn test_input() {
    let mut vm = Vm::new(2, "\u{01}\u{10}".as_bytes().to_vec(), Vec::new()).unwrap();

    vm.eval(&[Input, Next, Input]);
    assert_eq!(vec![0x1, 0x10], *vm.memory());
}

#[test]
fn read_end_of_input_set_cell_to_zero() {
    let mut vm = Vm::new(1, "\u{01}".as_bytes().to_vec(), Vec::new()).unwrap();
    let code = &[Input, Input];

    vm.eval(code);
    assert_eq!(vec![0], *vm.memory());
}

#[test]
fn test_output() {
    let mut vm = Vm::new(1, Vec::new(), Vec::new()).unwrap();
    let code = &[Output, Inc, Output];
    vm.eval(code);
    assert_eq!(vec![0, 1], *vm.output());
}

#[test]
fn integer_arithmetic_wraps_around() {
    let mut code = vec![];
    for _ in 0..256 {
        code.push(Inc);
    }
    let mut vm = Vm::new(1, Vec::new(), Vec::new()).unwrap();

    vm.eval(&code);
    assert_eq!(0, vm.memory()[0]);
}

#[test]
fn an_empty_loop_doesnt_do_anything() {
    // See compile_empty_loop in the compiler tests.
    let mut vm = Vm::new(1, Vec::new(), Vec::new()).unwrap();
    let code = &[JumpIfZero(2), JumpUnlessZero(1)];

    vm.eval(code);
    assert_eq!(vec![0], *vm.memory());
}

#[test]
fn empty_loop_writes_no_output() {
    let mut vm = Vm::new(1, Vec::new(), Vec::new()).unwrap();

    vm.eval(&[JumpIfZero(2), JumpUnlessZero(1)]);
    assert_eq!(Vec::<u8>::new(), *vm.output());
}

#[test]
fn cant_move_before_start_of_memory() {
    let mut vm = Vm::new(2, Vec::new(), Vec::new()).unwrap();

    vm.eval(&[Prev, Inc]);
    assert_eq!(vec![1, 0], *vm.memory());
}

#[test]
fn decrement_wraps_below_zero() {
    let mut vm = Vm::new(1, Vec::new(), Vec::new()).unwrap();

    vm.eval(&[Dec]);
    assert_eq!(vec![-1], *vm.memory());
}

#[test]
fn increment_wraps_past_max() {
    let mut code = vec![];
    for _ in 0..128 {
        code.push(Inc);
    }
    let mut vm = Vm::new(1, Vec::new(), Vec::new()).unwrap();

    vm.eval(&code);
    assert_eq!(vec![-128], *vm.memory());
}

#[test]
fn vm_construction_with_zero_length_is_none() {
    assert!(Vm::new(0, Vec::new(), Vec::new()).is_none());
}

#[test]
fn vm_construction_gives_zeroed_tape() {
    let vm = Vm::new(3, vec![7], Vec::new()).unwrap();
    assert_eq!(vec![0, 0, 0], *vm.memory());
    assert_eq!(Vec::<u8>::new(), *vm.output());
}

#[test]
fn output_appends_to_given_sink() {
    let mut vm = Vm::new(1, Vec::new(), vec![0x41]).unwrap();

    vm.eval(&[Inc, Output]);
    assert_eq!(vec![0x41, 0x01], *vm.output());
}
