//! What an Intcode machine does, as spec functions over its abstract state,
//! and the facts proved about it.
use vstd::prelude::*;
use crate::decode::{decode_spec, Opcode, Value};
use crate::error::{AocErr, AocResult};

verus! {

/// Instructions that one resumption may execute before it gives up.
pub const MAX_STEPS: usize = 500_000;

/// The abstract state of a machine.
pub struct MachineState {
    pub mem: Seq<i64>,
    pub input: Seq<i64>,
    pub output: Seq<i64>,
    pub pc: int,
    pub base: int,
    pub halted: bool,
}

/// A fresh machine over a program image and a batch of inputs.
pub open spec fn initial_state(image: Seq<i64>, inputs: Seq<i64>) -> MachineState {
    MachineState { mem: image, input: inputs, output: Seq::empty(), pc: 0, base: 0, halted: false }
}

/// Whether an integer fits in an `i64` (the machine's cells).
pub open spec fn fits(v: int) -> bool {
    i64::MIN <= v <= i64::MAX
}

/// The cell at address `a`, if there is one.
pub open spec fn cell(mem: Seq<i64>, a: int) -> Option<i64> {
    if 0 <= a < mem.len() {
        Some(mem[a])
    } else {
        None
    }
}

/// What an operand reads as in state `s`, or `None` if its address is outside memory.
pub open spec fn read_spec(s: MachineState, v: Value) -> Option<i64> {
    match v {
        Value::Immediate(x) => Some(x),
        Value::Position(p) => cell(s.mem, p as int),
        Value::Relative(o) => cell(s.mem, s.base + o),
    }
}

/// The address an operand writes to in state `s`.
pub open spec fn write_target(s: MachineState, v: Value) -> AocResult<int> {
    match v {
        Value::Immediate(_) => Err(AocErr::ImmediateWrite),
        Value::Position(p) => if 0 <= p < s.mem.len() {
            Ok(p as int)
        } else {
            Err(AocErr::OutOfBounds)
        },
        Value::Relative(o) => if 0 <= s.base + o < s.mem.len() {
            Ok(s.base + o)
        } else {
            Err(AocErr::OutOfBounds)
        },
    }
}

/// Writes `v` through `dst` and moves on to `next`; the instruction does not yield.
pub open spec fn store(s: MachineState, dst: Value, v: int, next: int) -> AocResult<(MachineState, bool)> {
    if !fits(v) {
        Err(AocErr::Overflow)
    } else {
        match write_target(s, dst) {
            Err(e) => Err(e),
            Ok(t) => Ok((MachineState { mem: s.mem.update(t, v as i64), pc: next, ..s }, false)),
        }
    }
}

/// The result of a two-operand operation: sum, product, or a comparison as 1 or 0.
pub open spec fn combine(op: Opcode, x: int, y: int) -> int {
    match op {
        Opcode::Add(..) => x + y,
        Opcode::Mul(..) => x * y,
        Opcode::CmpLt(..) => if x < y { 1 } else { 0 },
        _ => if x == y { 1 } else { 0 },
    }
}

/// A two-operand instruction: reads `a` and `b`, writes the combination to `dst`.
pub open spec fn binary(s: MachineState, op: Opcode, a: Value, b: Value, dst: Value, next: int) -> AocResult<(MachineState, bool)> {
    match (read_spec(s, a), read_spec(s, b)) {
        (Some(x), Some(y)) => store(s, dst, combine(op, x as int, y as int), next),
        _ => Err(AocErr::OutOfBounds),
    }
}

/// A conditional jump: to the target when `cond` holds of the first operand.
pub open spec fn jump(s: MachineState, a: Value, t: Value, on_zero: bool, next: int) -> AocResult<(MachineState, bool)> {
    match read_spec(s, a) {
        None => Err(AocErr::OutOfBounds),
        Some(x) => if (x == 0) == on_zero {
            match read_spec(s, t) {
                None => Err(AocErr::OutOfBounds),
                Some(target) => if 0 <= target < s.mem.len() {
                    Ok((MachineState { pc: target as int, ..s }, false))
                } else {
                    Err(AocErr::OutOfBounds)
                },
            }
        } else {
            Ok((MachineState { pc: next, ..s }, false))
        },
    }
}

/// One instruction: the next state and whether the machine yields (after an
/// Output or a Halt), or the fault, in which case the state is left as it was.
pub open spec fn step_spec(s: MachineState) -> AocResult<(MachineState, bool)> {
    match decode_spec(s.mem, s.pc) {
        Err(e) => Err(e),
        Ok((op, len)) => {
            let next = s.pc + len;
            match op {
                Opcode::Add(a, b, c) => binary(s, op, a, b, c, next),
                Opcode::Mul(a, b, c) => binary(s, op, a, b, c, next),
                Opcode::CmpLt(a, b, c) => binary(s, op, a, b, c, next),
                Opcode::CmpEq(a, b, c) => binary(s, op, a, b, c, next),
                Opcode::In(dst) => if s.input.len() == 0 {
                    Err(AocErr::NotEnoughInputs)
                } else {
                    store(MachineState { input: s.input.drop_first(), ..s }, dst, s.input[0] as int, next)
                },
                Opcode::Out(a) => match read_spec(s, a) {
                    None => Err(AocErr::OutOfBounds),
                    Some(x) => Ok((MachineState { output: s.output.push(x), pc: next, ..s }, true)),
                },
                Opcode::JumpTrue(a, t) => jump(s, a, t, false, next),
                Opcode::JumpFalse(a, t) => jump(s, a, t, true, next),
                Opcode::SetBase(a) => match read_spec(s, a) {
                    None => Err(AocErr::OutOfBounds),
                    Some(x) => if fits(s.base + x) {
                        Ok((MachineState { base: s.base + x, pc: next, ..s }, false))
                    } else {
                        Err(AocErr::Overflow)
                    },
                },
                Opcode::Halt => Ok((MachineState { halted: true, pc: next, ..s }, true)),
            }
        },
    }
}

/// Runs at most `fuel` more instructions until one yields; `done` counts the
/// instructions executed so far. On a fault the state is the one before the
/// faulting instruction.
pub open spec fn run_spec(s: MachineState, done: int, fuel: nat) -> (AocResult<int>, MachineState)
    decreases fuel,
{
    if fuel == 0 {
        (Err(AocErr::ExceededMaxSteps), s)
    } else {
        match step_spec(s) {
            Err(e) => (Err(e), s),
            Ok((s2, yields)) => if yields {
                (Ok(done + 1), s2)
            } else {
                run_spec(s2, done + 1, (fuel - 1) as nat)
            },
        }
    }
}

/// What `resume` does: nothing on a halted machine, else run to the next yield.
pub open spec fn resume_spec(s: MachineState) -> (AocResult<int>, MachineState) {
    if s.halted {
        (Ok(0), s)
    } else {
        run_spec(s, 0, MAX_STEPS as nat)
    }
}

/// The image padded with zeros up to `len` cells.
pub open spec fn padded(image: Seq<i64>, len: int) -> Seq<i64> {
    if image.len() >= len {
        image
    } else {
        image + Seq::new((len - image.len()) as nat, |i: int| 0i64)
    }
}

/// The most recent output, if any.
pub open spec fn last_output(output: Seq<i64>) -> AocResult<i64> {
    if output.len() == 0 {
        Err(AocErr::NoOutput)
    } else {
        Ok(output.last())
    }
}

/// What `exec` does after `total` instructions: resume until the machine
/// halts, then give the latest output.
pub open spec fn exec_spec(s: MachineState, total: int) -> (AocResult<i64>, MachineState)
    decreases (if total > MAX_STEPS { 0 } else { MAX_STEPS + 1 - total }),
{
    if total > MAX_STEPS {
        (Err(AocErr::ExceededMaxSteps), s)
    } else {
        let (r, s2) = resume_spec(s);
        match r {
            Err(e) => (Err(e), s2),
            Ok(n) => if s2.halted {
                (last_output(s2.output), s2)
            } else {
                proof {
                    lemma_resume_bounds(s);
                }
                exec_spec(s2, total + n)
            },
        }
    }
}

/// One resumption's worth of `exec_spec`, unfolded.
pub proof fn lemma_exec_unfold(s: MachineState, total: int)
    requires
        0 <= total <= MAX_STEPS,
    ensures
        exec_spec(s, total) == (match resume_spec(s).0 {
            Err(e) => (Err(e), resume_spec(s).1),
            Ok(n) => if resume_spec(s).1.halted {
                (last_output(resume_spec(s).1.output), resume_spec(s).1)
            } else {
                exec_spec(resume_spec(s).1, total + n)
            },
        }),
{
}

proof fn lemma_run_bounds(s: MachineState, done: int, fuel: nat)
    ensures
        run_spec(s, done, fuel).0 matches Ok(n) ==> done + 1 <= n <= done + fuel,
    decreases fuel,
{
    if fuel > 0 {
        if let Ok((s2, yields)) = step_spec(s) {
            if !yields {
                lemma_run_bounds(s2, done + 1, (fuel - 1) as nat);
            }
        }
    }
}

/// `resume` counts at most the step budget, and at least one instruction
/// unless the machine was already halted.
pub proof fn lemma_resume_bounds(s: MachineState)
    ensures
        resume_spec(s).0 matches Ok(n) ==> 0 <= n <= MAX_STEPS,
        resume_spec(s).0 matches Ok(n) ==> (n == 0 <==> s.halted),
{
    if !s.halted {
        lemma_run_bounds(s, 0, MAX_STEPS as nat);
    }
}

/// Running a program to completion depends on nothing but its image and
/// inputs: two machines started alike end with the same result and state.
pub proof fn lemma_exec_deterministic(image: Seq<i64>, inputs: Seq<i64>, a: MachineState, b: MachineState)
    requires
        a == initial_state(image, inputs),
        b == initial_state(image, inputs),
    ensures
        exec_spec(a, 0) == exec_spec(b, 0),
{
}

proof fn lemma_step_output(s: MachineState)
    requires
        !s.halted,
    ensures
        step_spec(s) matches Ok((s2, y)) ==> if !y {
            s2.output == s.output && !s2.halted
        } else if s2.halted {
            s2.output == s.output
        } else {
            s2.output.len() == s.output.len() + 1 && s2.output.drop_last() == s.output
        },
{
    if let Ok((s2, y)) = step_spec(s) {
        if y && !s2.halted {
            assert(s2.output.drop_last() =~= s.output);
        }
    }
}

proof fn lemma_run_output(s: MachineState, done: int, fuel: nat)
    requires
        !s.halted,
    ensures
        run_spec(s, done, fuel).0 is Err ==> run_spec(s, done, fuel).1.output == s.output,
        run_spec(s, done, fuel).0 is Ok && run_spec(s, done, fuel).1.halted
            ==> run_spec(s, done, fuel).1.output == s.output,
        run_spec(s, done, fuel).0 is Ok && !run_spec(s, done, fuel).1.halted ==> {
            let out = run_spec(s, done, fuel).1.output;
            out.len() == s.output.len() + 1 && out.drop_last() == s.output
        },
    decreases fuel,
{
    if fuel > 0 {
        lemma_step_output(s);
        if let Ok((s2, yields)) = step_spec(s) {
            if !yields {
                lemma_run_output(s2, done + 1, (fuel - 1) as nat);
            }
        }
    }
}

/// Each resumption of a running machine appends exactly one output and
/// returns, unless it halts (or faults), in which case the output log is
/// unchanged; resuming a halted machine changes nothing.
pub proof fn lemma_resume_one_output(s: MachineState)
    ensures
        s.halted ==> resume_spec(s) == (Ok::<int, AocErr>(0), s),
        resume_spec(s).0 is Ok && resume_spec(s).1.halted ==> resume_spec(s).1.output == s.output,
        resume_spec(s).0 is Ok && !resume_spec(s).1.halted ==> {
            let out = resume_spec(s).1.output;
            out.len() == s.output.len() + 1 && out.drop_last() == s.output
        },
        resume_spec(s).0 is Err ==> resume_spec(s).1.output == s.output,
{
    if !s.halted {
        lemma_run_output(s, 0, MAX_STEPS as nat);
    }
}

/// Resuming a running machine whose next instruction is an Input while its
/// queue is empty faults and leaves the machine exactly as it was, with the
/// program counter still on that Input.
pub proof fn lemma_input_starvation(s: MachineState)
    requires
        !s.halted,
        decode_spec(s.mem, s.pc) matches Ok((op, _)) && op is In,
        s.input.len() == 0,
    ensures
        resume_spec(s) == (Err::<int, AocErr>(AocErr::NotEnoughInputs), s),
{
    assert(step_spec(s) == Err::<(MachineState, bool), AocErr>(AocErr::NotEnoughInputs));
}

/// A value that an Input stores through a relative operand reads back
/// through a relative operand naming the same cell after the next
/// instruction, an AdjustBase, has moved the base.
pub proof fn lemma_relative_round_trip(s: MachineState, o: i64, o2: i64)
    requires
        decode_spec(s.mem, s.pc) matches Ok((op, _)) && op == Opcode::In(Value::Relative(o)),
    ensures
        step_spec(s) matches Ok((s2, _)) ==> (decode_spec(s2.mem, s2.pc) matches Ok((op2, _))
            ==> (op2 is SetBase ==> (step_spec(s2) matches Ok((s3, _)) ==> (s3.base + o2 == s.base + o
            ==> read_spec(s3, Value::Relative(o2)) == Some(s.input[0]))))),
{
}

/// An Add or Multiply stores the exact sum or product of its operands when
/// that fits in a cell; when it does not, the instruction faults with
/// `Overflow` and nothing is stored.
pub proof fn lemma_arith_exact(s: MachineState, a: Value, b: Value, c: Value, mul: bool, x: i64, y: i64)
    requires
        decode_spec(s.mem, s.pc) matches Ok((op, _)) && op == (if mul {
            Opcode::Mul(a, b, c)
        } else {
            Opcode::Add(a, b, c)
        }),
        read_spec(s, a) == Some(x),
        read_spec(s, b) == Some(y),
    ensures
        !fits(if mul { x * y } else { x + y }) ==> step_spec(s) == Err::<(MachineState, bool), AocErr>(
            AocErr::Overflow,
        ),
        fits(if mul { x * y } else { x + y }) && write_target(s, c) is Ok ==> (step_spec(s) matches Ok((
            s2,
            yields,
        )) && !yields && s2.mem == s.mem.update(write_target(s, c)->Ok_0, (if mul { x * y } else { x + y }) as i64)
            && s2.mem[write_target(s, c)->Ok_0] == (if mul { x * y } else { x + y })),
{
}

/// A value written through an operand reads back through the same operand,
/// and no other cell changes.
pub proof fn lemma_write_then_read(s: MachineState, v: Value, x: i64)
    requires
        write_target(s, v) is Ok,
    ensures
        ({
            let s2 = MachineState { mem: s.mem.update(write_target(s, v)->Ok_0, x), ..s };
            &&& read_spec(s2, v) == Some(x)
            &&& s2.mem.len() == s.mem.len()
            &&& forall|j: int| 0 <= j < s.mem.len() && j != write_target(s, v)->Ok_0 ==> #[trigger] s2.mem[j] == s.mem[j]
        }),
{
}

} // verus!
