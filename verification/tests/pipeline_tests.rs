use bf::compiler::compile_bf;
use bf::vm::Vm;

#[test]
fn compiled_empty_loop_leaves_fresh_tape_unchanged() {
    let code = compile_bf("[]".as_bytes()).unwrap();
    let mut vm = Vm::new(1, Vec::new(), Vec::new()).unwrap();

    vm.eval(&code);
    assert_eq!(vec![0], *vm.memory());
    assert_eq!(Vec::<u8>::new(), *vm.output());
}

#[test]
fn compiled_clear_loop_zeroes_the_cell() {
    let code = compile_bf("+++[-]".as_bytes()).unwrap();
    let mut vm = Vm::new(1, Vec::new(), Vec::new()).unwrap();

    vm.eval(&code);
    assert_eq!(vec![0], *vm.memory());
}

#[test]
fn compiled_loop_body_runs_until_cell_is_zero() {
    // Three passes over the loop body, each writing one byte and counting
    // the cell down.
    let code = compile_bf("+++[.-]".as_bytes()).unwrap();
    let mut vm = Vm::new(1, Vec::new(), Vec::new()).unwrap();

    vm.eval(&code);
    assert_eq!(vec![0], *vm.memory());
    assert_eq!(vec![3, 2, 1], *vm.output());
}

#[test]
fn compiled_copying_program_echoes_input() {
    let code = compile_bf(",[.,]".as_bytes()).unwrap();
    let mut vm = Vm::new(1, vec![0x68, 0x69], Vec::new()).unwrap();

    vm.eval(&code);
    assert_eq!(vec![0x68, 0x69], *vm.output());
}
