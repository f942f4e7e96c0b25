use vstd::prelude::*;
use vstd::wrapping::i8_specs;

verus! {

/// One bytecode instruction of the tape machine. The two jump variants carry
/// an absolute index into the instruction sequence (a resolved landing
/// position, never a relative offset).
#[derive(Clone, Copy, Debug, PartialEq, Eq, Structural)]
pub enum Inst {
    Inc,
    Dec,
    Next,
    Prev,
    Input,
    Output,
    JumpIfZero(usize),
    JumpUnlessZero(usize),
}

/// The complete state of a running machine: program counter, tape cursor,
/// position in the input stream, tape contents, and bytes written so far.
/// The instruction sequence and the input bytes are fixed during a run and
/// are passed separately.
#[verifier::ext_equal]
pub ghost struct MachineState {
    pub pc: nat,
    pub pointer: nat,
    pub in_pos: nat,
    pub memory: Seq<i8>,
    pub output: Seq<u8>,
}

/// Execution ends exactly when the program counter leaves the instruction
/// sequence.
pub open spec fn halted(code: Seq<Inst>, s: MachineState) -> bool {
    s.pc >= code.len()
}

/// One transition of the machine: dispatch on the instruction at the program
/// counter. Meaningful when `s` is not halted and well formed.
pub open spec fn step(code: Seq<Inst>, input: Seq<u8>, s: MachineState) -> MachineState {
    match code[s.pc as int] {
        Inst::Inc => MachineState {
            pc: s.pc + 1,
            memory: s.memory.update(
                s.pointer as int,
                i8_specs::wrapping_add(s.memory[s.pointer as int], 1),
            ),
            ..s
        },
        Inst::Dec => MachineState {
            pc: s.pc + 1,
            memory: s.memory.update(
                s.pointer as int,
                i8_specs::wrapping_sub(s.memory[s.pointer as int], 1),
            ),
            ..s
        },
        Inst::Next => MachineState {
            pc: s.pc + 1,
            pointer: if s.pointer + 1 < s.memory.len() {
                s.pointer + 1
            } else {
                s.pointer
            },
            ..s
        },
        Inst::Prev => MachineState {
            pc: s.pc + 1,
            pointer: if s.pointer > 0 {
                (s.pointer - 1) as nat
            } else {
                s.pointer
            },
            ..s
        },
        Inst::Input => if s.in_pos < input.len() {
            MachineState {
                pc: s.pc + 1,
                in_pos: s.in_pos + 1,
                memory: s.memory.update(s.pointer as int, input[s.in_pos as int] as i8),
                ..s
            }
        } else {
            MachineState {
                pc: s.pc + 1,
                memory: s.memory.update(s.pointer as int, 0i8),
                ..s
            }
        },
        Inst::Output => MachineState {
            pc: s.pc + 1,
            output: s.output.push(s.memory[s.pointer as int] as u8),
            ..s
        },
        Inst::JumpIfZero(t) => MachineState {
            pc: if s.memory[s.pointer as int] == 0 {
                t as nat
            } else {
                s.pc + 1
            },
            ..s
        },
        Inst::JumpUnlessZero(t) => MachineState {
            pc: if s.memory[s.pointer as int] != 0 {
                t as nat
            } else {
                s.pc + 1
            },
            ..s
        },
    }
}

/// The state after at most `n` transitions from `s`; a halted state is left
/// as it is, so all halting runs from `s` reach one and the same state.
pub open spec fn steps(code: Seq<Inst>, input: Seq<u8>, s: MachineState, n: nat) -> MachineState
    decreases n,
{
    if n == 0 || halted(code, s) {
        s
    } else {
        steps(code, input, step(code, input, s), (n - 1) as nat)
    }
}

/// Some number of transitions from `s` reaches a halted state.
pub open spec fn halts_from(code: Seq<Inst>, input: Seq<u8>, s: MachineState) -> bool {
    exists|n: nat| halted(code, steps(code, input, s, n))
}

/// A step count after which the run from `s` has halted (any such count gives
/// the same state, since `steps` freezes a halted state).
pub open spec fn halt_time(code: Seq<Inst>, input: Seq<u8>, s: MachineState) -> nat {
    choose|n: nat| halted(code, steps(code, input, s, n))
}

/// The state in which a halting run from `s` ends.
pub open spec fn final_state(code: Seq<Inst>, input: Seq<u8>, s: MachineState) -> MachineState {
    steps(code, input, s, halt_time(code, input, s))
}

/// Running one more transition after `n` is the same as transitioning once
/// out of the state reached after `n`, as long as that state is not halted.
pub proof fn lemma_steps_extend(code: Seq<Inst>, input: Seq<u8>, s: MachineState, n: nat)
    requires
        !halted(code, steps(code, input, s, n)),
    ensures
        steps(code, input, s, n + 1) == step(code, input, steps(code, input, s, n)),
    decreases n,
{
    if halted(code, s) {
        assert(steps(code, input, s, n) == s);
    } else if n == 0 {
        assert(steps(code, input, s, 1) == steps(code, input, step(code, input, s), 0));
    } else {
        lemma_steps_extend(code, input, step(code, input, s), (n - 1) as nat);
        assert(steps(code, input, s, n + 1) == steps(code, input, step(code, input, s), n));
        assert(steps(code, input, s, n) == steps(code, input, step(code, input, s), (n - 1) as nat));
    }
}

/// Once a run has halted, taking further steps leaves the state unchanged.
pub proof fn lemma_halted_stays(code: Seq<Inst>, input: Seq<u8>, s: MachineState, m: nat, n: nat)
    requires
        m <= n,
        halted(code, steps(code, input, s, m)),
    ensures
        steps(code, input, s, n) == steps(code, input, s, m),
    decreases m,
{
    if !halted(code, s) && m > 0 {
        lemma_halted_stays(code, input, step(code, input, s), (m - 1) as nat, (n - 1) as nat);
    }
}

/// Whether an instruction can move the program counter anywhere but one
/// ahead.
pub open spec fn is_jump(inst: Inst) -> bool {
    match inst {
        Inst::JumpIfZero(_) => true,
        Inst::JumpUnlessZero(_) => true,
        _ => false,
    }
}

/// Law: an instruction sequence without jumps halts from every state, since
/// each transition moves the program counter one ahead.
pub proof fn lemma_jump_free_halts(code: Seq<Inst>, input: Seq<u8>, s: MachineState)
    requires
        forall|k: int| 0 <= k < code.len() ==> !is_jump(#[trigger] code[k]),
    ensures
        halts_from(code, input, s),
    decreases code.len() - s.pc,
{
    if halted(code, s) {
        assert(halted(code, steps(code, input, s, 0)));
    } else {
        let s2 = step(code, input, s);
        assert(!is_jump(code[s.pc as int]));
        assert(s2.pc == s.pc + 1);
        lemma_jump_free_halts(code, input, s2);
        let n = choose|n: nat| halted(code, steps(code, input, s2, n));
        assert(steps(code, input, s, n + 1) == steps(code, input, s2, n));
        assert(halted(code, steps(code, input, s, n + 1)));
    }
}

/// A machine about to run on a one-cell tape, with nothing to read and
/// nothing written yet.
pub open spec fn fresh_one_cell() -> MachineState {
    MachineState { pc: 0, pointer: 0, in_pos: 0, memory: seq![0i8], output: Seq::empty() }
}

/// Counting one higher commutes with reducing into a signed byte.
proof fn lemma_crop_inc(k: nat)
    ensures
        i8_specs::signed_crop(k as int + 1) == i8_specs::wrapping_add(
            i8_specs::signed_crop(k as int),
            1,
        ),
{
    let r = (k as int) % 256;
    vstd::arithmetic::div_mod::lemma_mod_bound(k as int, 256);
    vstd::arithmetic::div_mod::lemma_add_mod_noop(k as int, 1, 256);
    vstd::arithmetic::div_mod::lemma_small_mod(1, 256);
    if r == 255 {
        assert((k as int + 1) % 256 == 256int % 256);
        vstd::arithmetic::div_mod::lemma_mod_self_0(256);
    } else {
        assert((k as int + 1) % 256 == (r + 1) % 256);
        vstd::arithmetic::div_mod::lemma_small_mod((r + 1) as nat, 256);
    }
}

/// After `k` of the `n` increment instructions, the machine stands at
/// position `k` with the cell holding `k` reduced into a signed byte.
proof fn lemma_inc_run(n: nat, k: nat)
    requires
        k <= n,
    ensures
        steps(Seq::new(n, |i: int| Inst::Inc), Seq::empty(), fresh_one_cell(), k) == (MachineState {
            pc: k,
            pointer: 0,
            in_pos: 0,
            memory: seq![i8_specs::signed_crop(k as int)],
            output: Seq::empty(),
        }),
    decreases k,
{
    let code = Seq::new(n, |i: int| Inst::Inc);
    let input = Seq::<u8>::empty();
    if k == 0 {
        assert(seq![i8_specs::signed_crop(0)] =~= seq![0i8]);
        assert(fresh_one_cell() =~= (MachineState {
            pc: 0,
            pointer: 0,
            in_pos: 0,
            memory: seq![i8_specs::signed_crop(0)],
            output: Seq::empty(),
        }));
    } else {
        lemma_inc_run(n, (k - 1) as nat);
        lemma_steps_extend(code, input, fresh_one_cell(), (k - 1) as nat);
        lemma_crop_inc((k - 1) as nat);
        assert(step(code, input, steps(code, input, fresh_one_cell(), (k - 1) as nat))
            =~= (MachineState {
            pc: k,
            pointer: 0,
            in_pos: 0,
            memory: seq![i8_specs::signed_crop(k as int)],
            output: Seq::empty(),
        }));
    }
}

/// Law: a run of N increment instructions on a fresh one-cell tape halts with
/// the cell holding N reduced modulo 256 and read as a signed byte (so N =
/// 256 brings it back to zero), and writes no output.
pub proof fn lemma_repeated_increments(n: nat)
    ensures
        ({
            let code = Seq::new(n, |i: int| Inst::Inc);
            let f = steps(code, Seq::<u8>::empty(), fresh_one_cell(), n);
            &&& halted(code, f)
            &&& f.memory == seq![i8_specs::signed_crop(n as int)]
            &&& f.pointer == 0
            &&& f.in_pos == 0
            &&& f.output == Seq::<u8>::empty()
        }),
{
    lemma_inc_run(n, n);
}

/// The tape machine: a fixed-length tape of signed bytes with a cursor, the
/// input bytes with the position of the next unread one, and the bytes
/// written so far.
pub struct Vm {
    memory: Vec<i8>,
    pointer: usize,
    input: Vec<u8>,
    in_pos: usize,
    output: Vec<u8>,
}

/// What a `Vm` holds, as mathematical values.
#[verifier::ext_equal]
pub ghost struct VmView {
    pub memory: Seq<i8>,
    pub pointer: nat,
    pub input: Seq<u8>,
    pub in_pos: nat,
    pub output: Seq<u8>,
}

impl View for Vm {
    type V = VmView;

    closed spec fn view(&self) -> VmView {
        VmView {
            memory: self.memory@,
            pointer: self.pointer as nat,
            input: self.input@,
            in_pos: self.in_pos as nat,
            output: self.output@,
        }
    }
}

/// The tape is never empty, the cursor stays on it, and the input position
/// never passes the end of the input. Established by `new` and preserved by
/// every instruction.
pub open spec fn vm_inv(v: VmView) -> bool {
    &&& v.memory.len() > 0
    &&& v.pointer < v.memory.len()
    &&& v.in_pos <= v.input.len()
}

/// The machine state of a `Vm` under a given program counter.
pub open spec fn state_of(v: VmView, pc: nat) -> MachineState {
    MachineState {
        pc: pc,
        pointer: v.pointer,
        in_pos: v.in_pos,
        memory: v.memory,
        output: v.output,
    }
}

impl Vm {
    /// A fresh machine: an all-zero tape of `size` cells with the cursor at
    /// the first one, about to read the first input byte, with `output` as
    /// the sink to append written bytes to. Fails exactly when `size` is 0.
    pub fn new(size: usize, input: Vec<u8>, output: Vec<u8>) -> (r: Option<Vm>)
        ensures
            size == 0 ==> r is None,
            size > 0 ==> (r matches Some(vm) && vm@ == (VmView {
                memory: Seq::new(size as nat, |i: int| 0i8),
                pointer: 0,
                input: input@,
                in_pos: 0,
                output: output@,
            }) && vm_inv(vm@)),
    {
        if size == 0 {
            return None;
        }
        let mut memory: Vec<i8> = Vec::new();
        while memory.len() < size
            invariant
                memory@.len() <= size,
                forall|i: int| 0 <= i < memory@.len() ==> memory@[i] == 0i8,
            decreases size - memory.len(),
        {
            memory.push(0);
        }
        let vm = Vm { memory, pointer: 0, input, in_pos: 0, output };
        proof {
            assert(vm@.memory =~= Seq::new(size as nat, |i: int| 0i8));
            assert(vm@ =~= (VmView {
                memory: Seq::new(size as nat, |i: int| 0i8),
                pointer: 0,
                input: vm@.input,
                in_pos: 0,
                output: vm@.output,
            }));
        }
        Some(vm)
    }

    /// The tape contents, for inspection after a run.
    pub fn memory(&self) -> (r: &Vec<i8>)
        ensures
            r@ == self@.memory,
    {
        &self.memory
    }

    /// The bytes written so far, in order.
    pub fn output(&self) -> (r: &Vec<u8>)
        ensures
            r@ == self@.output,
    {
        &self.output
    }

    fn get_cell(&self) -> (r: i8)
        requires
            vm_inv(self@),
        ensures
            r == self@.memory[self@.pointer as int],
    {
        self.memory[self.pointer]
    }

    fn put_cell(&mut self, value: i8)
        requires
            vm_inv(old(self)@),
        ensures
            final(self)@ == (VmView {
                memory: old(self)@.memory.update(old(self)@.pointer as int, value),
                ..old(self)@
            }),
            vm_inv(final(self)@),
    {
        self.memory.set(self.pointer, value);
    }

    fn inc_cell(&mut self)
        requires
            vm_inv(old(self)@),
        ensures
            final(self)@ == (VmView {
                memory: old(self)@.memory.update(
                    old(self)@.pointer as int,
                    i8_specs::wrapping_add(old(self)@.memory[old(self)@.pointer as int], 1),
                ),
                ..old(self)@
            }),
            vm_inv(final(self)@),
    {
        let v = self.get_cell();
        self.put_cell(v.wrapping_add(1));
    }

    fn dec_cell(&mut self)
        requires
            vm_inv(old(self)@),
        ensures
            final(self)@ == (VmView {
                memory: old(self)@.memory.update(
                    old(self)@.pointer as int,
                    i8_specs::wrapping_sub(old(self)@.memory[old(self)@.pointer as int], 1),
                ),
                ..old(self)@
            }),
            vm_inv(final(self)@),
    {
        let v = self.get_cell();
        self.put_cell(v.wrapping_sub(1));
    }

    fn next_cell(&mut self)
        requires
            vm_inv(old(self)@),
        ensures
            final(self)@ == (VmView {
                pointer: if old(self)@.pointer + 1 < old(self)@.memory.len() {
                    old(self)@.pointer + 1
                } else {
                    old(self)@.pointer
                },
                ..old(self)@
            }),
            vm_inv(final(self)@),
    {
        if self.pointer < self.memory.len() - 1 {
            self.pointer = self.pointer + 1;
        }
    }

    fn prev_cell(&mut self)
        requires
            vm_inv(old(self)@),
        ensures
            final(self)@ == (VmView {
                pointer: if old(self)@.pointer > 0 {
                    (old(self)@.pointer - 1) as nat
                } else {
                    old(self)@.pointer
                },
                ..old(self)@
            }),
            vm_inv(final(self)@),
    {
        if self.pointer > 0 {
            self.pointer = self.pointer - 1;
        }
    }

    fn read_cell(&mut self)
        requires
            vm_inv(old(self)@),
        ensures
            final(self)@ == (if old(self)@.in_pos < old(self)@.input.len() {
                VmView {
                    memory: old(self)@.memory.update(
                        old(self)@.pointer as int,
                        old(self)@.input[old(self)@.in_pos as int] as i8,
                    ),
                    in_pos: old(self)@.in_pos + 1,
                    ..old(self)@
                }
            } else {
                VmView {
                    memory: old(self)@.memory.update(old(self)@.pointer as int, 0i8),
                    ..old(self)@
                }
            }),
            vm_inv(final(self)@),
    {
        if self.in_pos < self.input.len() {
            let b = self.input[self.in_pos];
            self.in_pos = self.in_pos + 1;
            self.put_cell(b as i8);
        } else {
            self.put_cell(0);
        }
    }

    fn write_cell(&mut self)
        requires
            vm_inv(old(self)@),
        ensures
            final(self)@ == (VmView {
                output: old(self)@.output.push(
                    old(self)@.memory[old(self)@.pointer as int] as u8,
                ),
                ..old(self)@
            }),
            vm_inv(final(self)@),
    {
        let v = self.get_cell();
        self.output.push(v as u8);
    }

    /// Run the instruction sequence to completion: dispatch at the program
    /// counter, starting from 0, until it leaves the sequence. The machine
    /// itself sets no step limit; the contract covers the runs that halt,
    /// which the precondition states over the step model.
    pub fn eval(&mut self, code: &[Inst])
        requires
            vm_inv(old(self)@),
            halts_from(code@, old(self)@.input, state_of(old(self)@, 0)),
        ensures
            vm_inv(final(self)@),
            final(self)@.input == old(self)@.input,
            ({
                let f = final_state(code@, old(self)@.input, state_of(old(self)@, 0));
                &&& halted(code@, f)
                &&& final(self)@.memory == f.memory
                &&& final(self)@.pointer == f.pointer
                &&& final(self)@.in_pos == f.in_pos
                &&& final(self)@.output == f.output
            }),
    {
        let ghost init = state_of(self@, 0);
        let ghost input_g = self@.input;
        let ghost halt_n = halt_time(code@, input_g, init);
        let ghost mut n: nat = 0;
        let mut pc: usize = 0;

        proof {
            assert(halted(code@, steps(code@, input_g, init, halt_n)));
        }

        while pc < code.len()
            invariant
                vm_inv(self@),
                self@.input == input_g,
                n <= halt_n,
                halted(code@, steps(code@, input_g, init, halt_n)),
                steps(code@, input_g, init, n) == state_of(self@, pc as nat),
            decreases halt_n - n,
        {
            let ghost pre = self@;
            let ghost pre_pc = pc as nat;

            let cmd = code[pc];
            match cmd {
                Inst::Inc => {
                    self.inc_cell();
                    pc = pc + 1;
                },
                Inst::Dec => {
                    self.dec_cell();
                    pc = pc + 1;
                },
                Inst::Next => {
                    self.next_cell();
                    pc = pc + 1;
                },
                Inst::Prev => {
                    self.prev_cell();
                    pc = pc + 1;
                },
                Inst::Input => {
                    self.read_cell();
                    pc = pc + 1;
                },
                Inst::Output => {
                    self.write_cell();
                    pc = pc + 1;
                },
                Inst::JumpIfZero(t) => {
                    if self.get_cell() == 0 {
                        pc = t;
                    } else {
                        pc = pc + 1;
                    }
                },
                Inst::JumpUnlessZero(t) => {
                    if self.get_cell() != 0 {
                        pc = t;
                    } else {
                        pc = pc + 1;
                    }
                },
            }

            proof {
                if n >= halt_n {
                    lemma_halted_stays(code@, input_g, init, halt_n, n);
                    assert(false);
                }
                lemma_steps_extend(code@, input_g, init, n);
                assert(step(code@, input_g, state_of(pre, pre_pc)) =~= state_of(
                    self@,
                    pc as nat,
                ));
                n = n + 1;
            }
        }

        proof {
            lemma_halted_stays(code@, input_g, init, n, halt_n);
        }
    }
}

} // verus!
