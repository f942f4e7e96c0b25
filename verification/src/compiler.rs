use vstd::prelude::*;
use vstd::pervasive::VecAdditionalExecFns;
use crate::vm::{halted, steps, Inst, MachineState};

verus! {

/// The command byte `+`; the other 248 byte values are comments and compile
/// to nothing.
pub const PLUS: u8 = 43;

/// The command byte `,`.
pub const COMMA: u8 = 44;

/// The command byte `-`.
pub const MINUS: u8 = 45;

/// The command byte `.`.
pub const DOT: u8 = 46;

/// The command byte `<`.
pub const LT: u8 = 60;

/// The command byte `>`.
pub const GT: u8 = 62;

/// The command byte `[`.
pub const LBRACK: u8 = 91;

/// The command byte `]`.
pub const RBRACK: u8 = 93;

/// What compilation means, one byte at a time from position `i` on: `code`
/// holds the instructions emitted so far and `stack` the positions of the
/// loop-start instructions still waiting for their partner. A loop start
/// emits a placeholder and records its position; the matching loop end emits
/// a jump back to just past the start and patches the placeholder to land
/// just past itself. `None` is an unmatched bracket, on either side.
pub open spec fn compile_from(
    input: Seq<u8>,
    i: int,
    code: Seq<Inst>,
    stack: Seq<usize>,
) -> Option<Seq<Inst>>
    decreases input.len() - i,
{
    if i < 0 || i >= input.len() {
        if stack.len() == 0 {
            Some(code)
        } else {
            None
        }
    } else {
        let b = input[i];
        if b == PLUS {
            compile_from(input, i + 1, code.push(Inst::Inc), stack)
        } else if b == MINUS {
            compile_from(input, i + 1, code.push(Inst::Dec), stack)
        } else if b == GT {
            compile_from(input, i + 1, code.push(Inst::Next), stack)
        } else if b == LT {
            compile_from(input, i + 1, code.push(Inst::Prev), stack)
        } else if b == COMMA {
            compile_from(input, i + 1, code.push(Inst::Input), stack)
        } else if b == DOT {
            compile_from(input, i + 1, code.push(Inst::Output), stack)
        } else if b == LBRACK {
            compile_from(
                input,
                i + 1,
                code.push(Inst::JumpIfZero(0)),
                stack.push(code.len() as usize),
            )
        } else if b == RBRACK {
            if stack.len() == 0 {
                None
            } else {
                let s = stack.last();
                let patched = code.update(
                    s as int,
                    Inst::JumpIfZero((code.len() + 1) as usize),
                ).push(Inst::JumpUnlessZero((s + 1) as usize));
                compile_from(input, i + 1, patched, stack.drop_last())
            }
        } else {
            compile_from(input, i + 1, code, stack)
        }
    }
}

/// The instruction sequence that a byte stream compiles to, or `None` when a
/// bracket has no partner.
pub open spec fn compile_spec(input: Seq<u8>) -> Option<Seq<Inst>> {
    compile_from(input, 0, Seq::empty(), Seq::empty())
}

/// The two ways compilation can fail: a bracket with no partner, or a failure
/// of the caller's byte source (reported by unverified adapters that read from
/// a stream before handing the bytes to `compile_bf`).
#[derive(Clone, Copy, Debug, PartialEq, Eq, Structural)]
pub enum Error {
    UnmatchedBracket,
    IOError,
}

impl Error {
    pub fn unmatched_bracket() -> (r: Error)
        ensures
            r == Error::UnmatchedBracket,
    {
        Error::UnmatchedBracket
    }

    pub fn io_error() -> (r: Error)
        ensures
            r == Error::IOError,
    {
        Error::IOError
    }

    /// A short description of the error, for reporting.
    pub fn description(&self) -> (r: &'static str)
        ensures
            self is UnmatchedBracket ==> r@ == "unmatched bracket"@,
            self is IOError ==> r@ == "io error"@,
    {
        match self {
            Error::UnmatchedBracket => "unmatched bracket",
            Error::IOError => "io error",
        }
    }
}

/// Compile a byte stream into a flat instruction sequence, matching brackets
/// and back-patching each loop start with its resolved jump target. Every
/// unrecognized byte is skipped without emitting anything, so positions count
/// emitted instructions only. Fails exactly when a bracket has no partner,
/// and returns no partial sequence.
pub fn compile_bf(input: &[u8]) -> (r: Result<Vec<Inst>, Error>)
    ensures
        r matches Ok(code) ==> compile_spec(input@) == Some(code@),
        r matches Err(e) ==> compile_spec(input@) is None && e == Error::UnmatchedBracket,
{
    let mut code: Vec<Inst> = Vec::new();
    let mut loop_stack: Vec<usize> = Vec::new();
    let mut i: usize = 0;

    while i < input.len()
        invariant
            i <= input.len(),
            code@.len() <= i,
            forall|j: int| 0 <= j < loop_stack@.len() ==> (loop_stack@[j] as int) < code@.len(),
            compile_spec(input@) == compile_from(input@, i as int, code@, loop_stack@),
        decreases input.len() - i,
    {
        let ghost pre_code = code@;
        let ghost pre_stack = loop_stack@;

        let byte = input[i];
        if byte == PLUS {
            code.push(Inst::Inc);
        } else if byte == MINUS {
            code.push(Inst::Dec);
        } else if byte == GT {
            code.push(Inst::Next);
        } else if byte == LT {
            code.push(Inst::Prev);
        } else if byte == COMMA {
            code.push(Inst::Input);
        } else if byte == DOT {
            code.push(Inst::Output);
        } else if byte == LBRACK {
            loop_stack.push(code.len());
            code.push(Inst::JumpIfZero(0));
        } else if byte == RBRACK {
            if let Some(matching_counter) = loop_stack.pop() {
                let counter = code.len();
                code.push(Inst::JumpUnlessZero(matching_counter + 1));
                code.set(matching_counter, Inst::JumpIfZero(counter + 1));
                proof {
                    assert(code@ =~= pre_code.update(
                        pre_stack.last() as int,
                        Inst::JumpIfZero((pre_code.len() + 1) as usize),
                    ).push(Inst::JumpUnlessZero((pre_stack.last() + 1) as usize)));
                    assert(loop_stack@ =~= pre_stack.drop_last());
                }
            } else {
                return Err(Error::unmatched_bracket());
            }
        }
        i = i + 1;
    }

    if loop_stack.len() > 0 {
        return Err(Error::unmatched_bracket());
    }
    Ok(code)
}

/// Every jump target in `code` is at most `bound`.
pub open spec fn targets_le(code: Seq<Inst>, bound: int) -> bool {
    forall|k: int|
        0 <= k < code.len() ==> match #[trigger] code[k] {
            Inst::JumpIfZero(t) => t <= bound,
            Inst::JumpUnlessZero(t) => t <= bound,
            _ => true,
        }
}

proof fn lemma_compile_from_targets(
    input: Seq<u8>,
    i: int,
    code: Seq<Inst>,
    stack: Seq<usize>,
    res: Seq<Inst>,
)
    requires
        compile_from(input, i, code, stack) == Some(res),
        targets_le(code, code.len() as int),
        forall|j: int| 0 <= j < stack.len() ==> (stack[j] as int) < code.len(),
    ensures
        code.len() <= res.len(),
        targets_le(res, res.len() as int),
    decreases input.len() - i,
{
    if i < 0 || i >= input.len() {
    } else {
        let b = input[i];
        if b == PLUS || b == MINUS || b == GT || b == LT || b == COMMA || b == DOT {
            let inst = if b == PLUS {
                Inst::Inc
            } else if b == MINUS {
                Inst::Dec
            } else if b == GT {
                Inst::Next
            } else if b == LT {
                Inst::Prev
            } else if b == COMMA {
                Inst::Input
            } else {
                Inst::Output
            };
            lemma_compile_from_targets(input, i + 1, code.push(inst), stack, res);
        } else if b == LBRACK {
            lemma_compile_from_targets(
                input,
                i + 1,
                code.push(Inst::JumpIfZero(0)),
                stack.push(code.len() as usize),
                res,
            );
        } else if b == RBRACK {
            let s = stack.last();
            let patched = code.update(
                s as int,
                Inst::JumpIfZero((code.len() + 1) as usize),
            ).push(Inst::JumpUnlessZero((s + 1) as usize));
            lemma_compile_from_targets(input, i + 1, patched, stack.drop_last(), res);
        } else {
            lemma_compile_from_targets(input, i + 1, code, stack, res);
        }
    }
}

/// Law: a finalized instruction sequence is well formed — every jump target
/// lands inside the sequence or exactly one past its end, so a branch can
/// only re-enter the sequence or halt the machine.
pub proof fn lemma_compiled_targets_in_range(input: Seq<u8>, code: Seq<Inst>)
    requires
        compile_spec(input) == Some(code),
    ensures
        targets_le(code, code.len() as int),
{
    lemma_compile_from_targets(input, 0, Seq::empty(), Seq::empty(), code);
}

/// A loop-end jump at `e` goes back to one past its partner, a loop start
/// that jumps one past `e`.
pub open spec fn end_paired(code: Seq<Inst>, e: int) -> bool {
    match code[e] {
        Inst::JumpUnlessZero(t) => {
            &&& 1 <= t <= e
            &&& code[t - 1] == Inst::JumpIfZero((e + 1) as usize)
        },
        _ => true,
    }
}

/// A resolved loop start at `s` jumps one past its partner, a loop end that
/// jumps back to one past `s`. Target 0 marks a placeholder still waiting to
/// be patched; none survives a finished compilation.
pub open spec fn start_paired(code: Seq<Inst>, s: int) -> bool {
    match code[s] {
        Inst::JumpIfZero(u) => u == 0 || {
            &&& s + 2 <= u <= code.len()
            &&& code[u - 1] == Inst::JumpUnlessZero((s + 1) as usize)
        },
        _ => true,
    }
}

/// The bracket invariant of a finalized instruction sequence: no placeholder
/// target remains, and the two jumps of each loop land one past each other's
/// position, so both re-enter just after the opposite bracket.
pub open spec fn brackets_paired(code: Seq<Inst>) -> bool {
    &&& forall|k: int| 0 <= k < code.len() ==> end_paired(code, k)
    &&& forall|k: int| 0 <= k < code.len() ==> start_paired(code, k)
    &&& forall|k: int| 0 <= k < code.len() ==> #[trigger] code[k] != Inst::JumpIfZero(0)
}

proof fn lemma_compile_from_paired(
    input: Seq<u8>,
    i: int,
    code: Seq<Inst>,
    stack: Seq<usize>,
    res: Seq<Inst>,
)
    requires
        input.len() <= usize::MAX,
        0 <= i <= input.len(),
        code.len() <= i,
        compile_from(input, i, code, stack) == Some(res),
        forall|j: int| 0 <= j < stack.len() ==> (#[trigger] stack[j] as int) < code.len(),
        forall|j: int| 0 <= j < stack.len() ==> code[#[trigger] stack[j] as int]
            == Inst::JumpIfZero(0),
        forall|j1: int, j2: int| 0 <= j1 < j2 < stack.len() ==> stack[j1] < stack[j2],
        forall|s: int|
            0 <= s < code.len() && #[trigger] code[s] == Inst::JumpIfZero(0) ==> stack.contains(
                s as usize,
            ),
        forall|k: int| 0 <= k < code.len() ==> end_paired(code, k),
        forall|k: int| 0 <= k < code.len() ==> start_paired(code, k),
    ensures
        brackets_paired(res),
    decreases input.len() - i,
{
    if i >= input.len() {
        assert(res == code);
        assert forall|k: int| 0 <= k < res.len() implies #[trigger] res[k] != Inst::JumpIfZero(0) by {
            if res[k] == Inst::JumpIfZero(0) {
                assert(stack.contains(k as usize));
            }
        }
        assert forall|k: int| 0 <= k < res.len() implies start_paired(res, k) by {
            assert(start_paired(code, k));
        }
    } else {
        let b = input[i];
        if b == PLUS || b == MINUS || b == GT || b == LT || b == COMMA || b == DOT {
            let inst = if b == PLUS {
                Inst::Inc
            } else if b == MINUS {
                Inst::Dec
            } else if b == GT {
                Inst::Next
            } else if b == LT {
                Inst::Prev
            } else if b == COMMA {
                Inst::Input
            } else {
                Inst::Output
            };
            let code2 = code.push(inst);
            assert forall|k: int| 0 <= k < code2.len() implies end_paired(code2, k) by {
                if k < code.len() {
                    assert(end_paired(code, k));
                }
            }
            assert forall|k: int| 0 <= k < code2.len() implies start_paired(code2, k) by {
                if k < code.len() {
                    assert(start_paired(code, k));
                }
            }
            assert forall|s: int|
                0 <= s < code2.len() && #[trigger] code2[s] == Inst::JumpIfZero(0)
                implies stack.contains(s as usize) by {
                if s < code.len() {
                    assert(code[s] == Inst::JumpIfZero(0));
                }
            }
            lemma_compile_from_paired(input, i + 1, code2, stack, res);
        } else if b == LBRACK {
            let c = code.len() as int;
            let code2 = code.push(Inst::JumpIfZero(0));
            let stack2 = stack.push(c as usize);
            assert forall|k: int| 0 <= k < code2.len() implies end_paired(code2, k) by {
                if k < c {
                    assert(end_paired(code, k));
                }
            }
            assert forall|k: int| 0 <= k < code2.len() implies start_paired(code2, k) by {
                if k < c {
                    assert(start_paired(code, k));
                }
            }
            assert forall|s: int|
                0 <= s < code2.len() && #[trigger] code2[s] == Inst::JumpIfZero(0)
                implies stack2.contains(s as usize) by {
                if s < c {
                    assert(code[s] == Inst::JumpIfZero(0));
                    let j = choose|j: int| 0 <= j < stack.len() && stack[j] == s as usize;
                    assert(stack2[j] == s as usize);
                } else {
                    assert(stack2[stack.len() as int] == s as usize);
                }
            }
            lemma_compile_from_paired(input, i + 1, code2, stack2, res);
        } else if b == RBRACK {
            let s = stack.last();
            let c = code.len() as int;
            let code2 = code.update(s as int, Inst::JumpIfZero((code.len() + 1) as usize)).push(
                Inst::JumpUnlessZero((s + 1) as usize),
            );
            let stack2 = stack.drop_last();
            assert((s as int) < c);
            assert(code[s as int] == Inst::JumpIfZero(0));
            assert forall|k: int| 0 <= k < code2.len() implies end_paired(code2, k) by {
                if k == c {
                    assert(code2[s as int] == Inst::JumpIfZero((c + 1) as usize));
                } else if k < c && k != s as int {
                    assert(end_paired(code, k));
                    match code[k] {
                        Inst::JumpUnlessZero(t) => {
                            assert(code[t - 1] == Inst::JumpIfZero((k + 1) as usize));
                            assert(t - 1 != s as int);
                            assert(code2[t - 1] == code[t - 1]);
                        },
                        _ => {},
                    }
                }
            }
            assert forall|k: int| 0 <= k < code2.len() implies start_paired(code2, k) by {
                if k == s as int {
                    assert(code2[k] == Inst::JumpIfZero((c + 1) as usize));
                    assert(code2[c] == Inst::JumpUnlessZero((s + 1) as usize));
                } else if k < c {
                    assert(start_paired(code, k));
                    match code[k] {
                        Inst::JumpIfZero(u) => {
                            if u != 0 {
                                assert(code[u - 1] == Inst::JumpUnlessZero((k + 1) as usize));
                                assert(u - 1 != s as int);
                                assert(code2[u - 1] == code[u - 1]);
                            }
                        },
                        _ => {},
                    }
                }
            }
            assert forall|j: int| 0 <= j < stack2.len() implies code2[#[trigger] stack2[j] as int]
                == Inst::JumpIfZero(0) by {
                assert(stack2[j] == stack[j]);
                assert(stack[j] < s);
                assert(code[stack[j] as int] == Inst::JumpIfZero(0));
            }
            assert forall|k: int|
                0 <= k < code2.len() && #[trigger] code2[k] == Inst::JumpIfZero(0)
                implies stack2.contains(k as usize) by {
                assert(k != s as int && k != c);
                assert(code[k] == Inst::JumpIfZero(0));
                let j = choose|j: int| 0 <= j < stack.len() && stack[j] == k as usize;
                assert(j != stack.len() - 1);
                assert(stack2[j] == k as usize);
            }
            lemma_compile_from_paired(input, i + 1, code2, stack2, res);
        } else {
            lemma_compile_from_paired(input, i + 1, code, stack, res);
        }
    }
}

/// Law: a compilation that succeeds returns a fully resolved sequence — no
/// placeholder target remains, and the two jumps of every bracket pair each
/// land one past the other, re-entering just after the opposite bracket.
pub proof fn lemma_compiled_brackets_paired(input: Seq<u8>, code: Seq<Inst>)
    requires
        input.len() <= usize::MAX,
        compile_spec(input) == Some(code),
    ensures
        brackets_paired(code),
{
    lemma_compile_from_paired(input, 0, Seq::empty(), Seq::empty(), code);
}

/// Law: an empty loop compiles to the jump pair that skips its zero-iteration
/// body — on a fresh tape of any length, whatever the input, the run halts
/// after one transition with the tape untouched and nothing written.
pub proof fn lemma_empty_loop_skips(len: nat, input: Seq<u8>)
    requires
        len > 0,
    ensures
        ({
            let code = seq![Inst::JumpIfZero(2), Inst::JumpUnlessZero(1)];
            let init = MachineState {
                pc: 0,
                pointer: 0,
                in_pos: 0,
                memory: Seq::new(len, |i: int| 0i8),
                output: Seq::empty(),
            };
            let f = steps(code, input, init, 1);
            &&& compile_spec(seq![LBRACK, RBRACK]) == Some(code)
            &&& halted(code, f)
            &&& f.memory == init.memory
            &&& f.pointer == 0
            &&& f.in_pos == 0
            &&& f.output == Seq::<u8>::empty()
        }),
{
    let code = seq![Inst::JumpIfZero(2), Inst::JumpUnlessZero(1)];
    let inp = seq![LBRACK, RBRACK];
    let e: Seq<Inst> = Seq::empty();
    let es: Seq<usize> = Seq::empty();
    let placed = e.push(Inst::JumpIfZero(0));
    let pending = es.push(0usize);
    assert(compile_from(inp, 0, e, es) == compile_from(inp, 1, placed, pending));
    let patched = placed.update(0, Inst::JumpIfZero(2)).push(Inst::JumpUnlessZero(1));
    assert(compile_from(inp, 1, placed, pending) == compile_from(
        inp,
        2,
        patched,
        pending.drop_last(),
    ));
    assert(pending.drop_last() =~= es);
    assert(compile_from(inp, 2, patched, es) == Some(patched));
    assert(patched =~= code);

    let init = MachineState {
        pc: 0,
        pointer: 0,
        in_pos: 0,
        memory: Seq::new(len, |i: int| 0i8),
        output: Seq::empty(),
    };
    assert(init.memory[0] == 0i8);
    let s2 = crate::vm::step(code, input, init);
    assert(s2.pc == 2);
    assert(steps(code, input, init, 1) == steps(code, input, s2, 0));
}

} // verus!
