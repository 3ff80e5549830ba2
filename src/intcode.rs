//! A resumable Intcode machine: growable memory addressed by position,
//! immediate or relative operands, a FIFO input queue and an output log.
use vstd::prelude::*;
use std::collections::VecDeque;
use crate::decode::{decode, Opcode, Value};
use crate::error::{AocErr, AocResult};
use crate::machine::{
    exec_spec, initial_state, lemma_exec_unfold, lemma_write_then_read, lemma_resume_bounds, padded,
    read_spec, resume_spec, run_spec, step_spec, write_target, MachineState, MAX_STEPS,
};

verus! {

/// Memory length that `Context::from_data_fill_up` reserves.
pub const FILL_UP_LEN: usize = 16_000;

/// A program image: the initial memory of a machine.
#[derive(Clone, Debug)]
pub struct Data(pub Vec<i64>);

/// A resumable Intcode machine.
pub struct Context {
    data: Vec<i64>,
    input: VecDeque<i64>,
    output: Vec<i64>,
    pc: usize,
    halted: bool,
    base: i64,
}

impl View for Context {
    type V = MachineState;

    closed spec fn view(&self) -> MachineState {
        MachineState {
            mem: self.data@,
            input: self.input@,
            output: self.output@,
            pc: self.pc as int,
            base: self.base as int,
            halted: self.halted,
        }
    }
}

/// A count result seen as an integer result.
pub open spec fn as_int_result(r: AocResult<usize>) -> AocResult<int> {
    match r {
        Ok(n) => Ok(n as int),
        Err(e) => Err(e),
    }
}

impl Context {
    /// A fresh machine whose memory is the image and whose queue holds `inputs`.
    pub fn from_data(data: Data, inputs: &[i64]) -> (r: Context)
        ensures
            r@ == initial_state(data.0@, inputs@),
    {
        let mut input: VecDeque<i64> = VecDeque::new();
        let mut i: usize = 0;
        while i < inputs.len()
            invariant
                i <= inputs.len(),
                input@ == inputs@.subrange(0, i as int),
            decreases inputs.len() - i,
        {
            input.push_back(inputs[i]);
            i += 1;
        }
        proof {
            assert(inputs@.subrange(0, inputs@.len() as int) =~= inputs@);
        }
        Context { data: data.0, input, output: Vec::new(), pc: 0, halted: false, base: 0 }
    }

    /// A fresh machine whose memory is the image padded with zeros up to
    /// `target_len` cells (an image that is already that long is kept as it is).
    pub fn from_data_reserved(data: Data, inputs: &[i64], target_len: usize) -> (r: Context)
        ensures
            r@ == initial_state(padded(data.0@, target_len as int), inputs@),
    {
        let mut mem = data.0;
        let ghost image = mem@;
        while mem.len() < target_len
            invariant
                image.len() <= mem@.len(),
                mem@.len() <= target_len || mem@.len() == image.len(),
                mem@.subrange(0, image.len() as int) == image,
                forall|i: int| image.len() <= i < mem@.len() ==> mem@[i] == 0,
            decreases target_len - mem.len(),
        {
            mem.push(0);
        }
        proof {
            assert(mem@ =~= padded(image, target_len as int));
        }
        Self::from_data(Data(mem), inputs)
    }

    /// A fresh machine with memory padded with zeros to `FILL_UP_LEN` cells.
    pub fn from_data_fill_up(data: Data, inputs: &[i64]) -> (r: Context)
        ensures
            r@ == initial_state(padded(data.0@, FILL_UP_LEN as int), inputs@),
    {
        Self::from_data_reserved(data, inputs, FILL_UP_LEN)
    }

    /// The whole memory.
    pub fn data(&self) -> (r: &[i64])
        ensures
            r@ == self@.mem,
    {
        self.data.as_slice()
    }

    /// The memory cell at `ix`.
    pub fn read(&self, ix: usize) -> (r: i64)
        requires
            ix < self@.mem.len(),
        ensures
            r == self@.mem[ix as int],
    {
        self.data[ix]
    }

    /// Whether the machine has executed a Halt.
    pub fn halted(&self) -> (r: bool)
        ensures
            r == self@.halted,
    {
        self.halted
    }

    /// The most recent output, if there is one.
    pub fn output(&self) -> (r: Option<i64>)
        ensures
            r == (if self@.output.len() == 0 {
                None
            } else {
                Some(self@.output.last())
            }),
    {
        if self.output.len() == 0 {
            None
        } else {
            Some(self.output[self.output.len() - 1])
        }
    }

    /// Every output so far, oldest first.
    pub fn outputs(&self) -> (r: &[i64])
        ensures
            r@ == self@.output,
    {
        self.output.as_slice()
    }

    /// Appends a value to the input queue.
    pub fn push_input(&mut self, input: i64)
        ensures
            final(self)@ == (MachineState { input: old(self)@.input.push(input), ..old(self)@ }),
    {
        self.input.push_back(input);
    }

    fn bool_to_num(b: bool) -> (r: i64)
        ensures
            r == (if b { 1i64 } else { 0i64 }),
    {
        if b {
            1
        } else {
            0
        }
    }

    /// The cell address that `base + off` names, if it lies in memory.
    fn relative_address(&self, off: i64) -> (r: AocResult<usize>)
        ensures
            match r {
                Ok(a) => 0 <= self@.base + off < self@.mem.len() && a == self@.base + off,
                Err(e) => !(0 <= self@.base + off < self@.mem.len()) && e == AocErr::OutOfBounds,
            },
    {
        let a: i128 = self.base as i128 + off as i128;
        if a < 0 || a >= self.data.len() as i128 {
            Err(AocErr::OutOfBounds)
        } else {
            Ok(a as usize)
        }
    }

    fn read_val(&self, val: &Value) -> (r: AocResult<i64>)
        ensures
            match read_spec(self@, *val) {
                Some(x) => r == Ok::<i64, AocErr>(x),
                None => r == Err::<i64, AocErr>(AocErr::OutOfBounds),
            },
    {
        match val {
            Value::Immediate(v) => Ok(*v),
            Value::Position(ix) => {
                if *ix < 0 || *ix as i128 >= self.data.len() as i128 {
                    Err(AocErr::OutOfBounds)
                } else {
                    Ok(self.data[*ix as usize])
                }
            },
            Value::Relative(off) => {
                let a = self.relative_address(*off)?;
                Ok(self.data[a])
            },
        }
    }

    /// Writes `value` through `val`, leaving everything else as it was; on a
    /// fault nothing changes.
    fn write_val(&mut self, val: &Value, value: i64) -> (r: AocResult<()>)
        ensures
            match write_target(old(self)@, *val) {
                Ok(t) => r is Ok && final(self)@ == (MachineState {
                    mem: old(self)@.mem.update(t, value),
                    ..old(self)@
                }) && read_spec(final(self)@, *val) == Some(value),
                Err(e) => r == Err::<(), AocErr>(e) && final(self)@ == old(self)@,
            },
    {
        let a = match val {
            Value::Immediate(_) => {
                return Err(AocErr::ImmediateWrite);
            },
            Value::Position(ix) => {
                if *ix < 0 || *ix as i128 >= self.data.len() as i128 {
                    return Err(AocErr::OutOfBounds);
                }
                *ix as usize
            },
            Value::Relative(off) => self.relative_address(*off)?,
        };
        proof {
            lemma_write_then_read(self@, *val, value);
        }
        self.data.set(a, value);
        Ok(())
    }

    /// Jumps to the target operand when `cond` holds, else moves to `next`.
    fn jump_if(&mut self, cond: bool, dst: &Value, next: usize) -> (r: AocResult<()>)
        ensures
            cond ==> match read_spec(old(self)@, *dst) {
                Some(t) => if 0 <= t < old(self)@.mem.len() {
                    r is Ok && final(self)@ == (MachineState { pc: t as int, ..old(self)@ })
                } else {
                    r == Err::<(), AocErr>(AocErr::OutOfBounds) && final(self)@ == old(self)@
                },
                None => r == Err::<(), AocErr>(AocErr::OutOfBounds) && final(self)@ == old(self)@,
            },
            !cond ==> r is Ok && final(self)@ == (MachineState { pc: next as int, ..old(self)@ }),
    {
        if cond {
            let t = self.read_val(dst)?;
            if t < 0 || t as i128 >= self.data.len() as i128 {
                return Err(AocErr::OutOfBounds);
            }
            self.pc = t as usize;
        } else {
            self.pc = next;
        }
        Ok(())
    }

    /// Executes one instruction. Returns whether it yields (Output or Halt);
    /// on a fault the machine is left as it was.
    fn step(&mut self) -> (r: AocResult<bool>)
        ensures
            match step_spec(old(self)@) {
                Ok((s2, yields)) => r == Ok::<bool, AocErr>(yields) && final(self)@ == s2,
                Err(e) => r == Err::<bool, AocErr>(e) && final(self)@ == old(self)@,
            },
    {
        let mem_len = self.data.len();
        let (op, len) = decode(self.data.as_slice(), self.pc)?;
        assert(self.pc + len <= mem_len);
        let next = self.pc + len;
        match op {
            Opcode::Halt => {
                self.halted = true;
                self.pc = next;
                Ok(true)
            },
            Opcode::Add(a, b, c) => {
                let x = self.read_val(&a)?;
                let y = self.read_val(&b)?;
                let value = match x.checked_add(y) {
                    Some(v) => v,
                    None => {
                        return Err(AocErr::Overflow);
                    },
                };
                self.write_val(&c, value)?;
                self.pc = next;
                Ok(false)
            },
            Opcode::Mul(a, b, c) => {
                let x = self.read_val(&a)?;
                let y = self.read_val(&b)?;
                let value = match x.checked_mul(y) {
                    Some(v) => v,
                    None => {
                        return Err(AocErr::Overflow);
                    },
                };
                self.write_val(&c, value)?;
                self.pc = next;
                Ok(false)
            },
            Opcode::In(a) => {
                if self.input.len() == 0 {
                    return Err(AocErr::NotEnoughInputs);
                }
                let value = self.input[0];
                self.write_val(&a, value)?;
                let _ = self.input.pop_front();
                self.pc = next;
                Ok(false)
            },
            Opcode::Out(a) => {
                let x = self.read_val(&a)?;
                self.output.push(x);
                self.pc = next;
                Ok(true)
            },
            Opcode::JumpTrue(a, dst) => {
                let x = self.read_val(&a)?;
                self.jump_if(x != 0, &dst, next)?;
                Ok(false)
            },
            Opcode::JumpFalse(a, dst) => {
                let x = self.read_val(&a)?;
                self.jump_if(x == 0, &dst, next)?;
                Ok(false)
            },
            Opcode::CmpLt(a, b, dst) => {
                let x = self.read_val(&a)?;
                let y = self.read_val(&b)?;
                let value = Self::bool_to_num(x < y);
                self.write_val(&dst, value)?;
                self.pc = next;
                Ok(false)
            },
            Opcode::CmpEq(a, b, dst) => {
                let x = self.read_val(&a)?;
                let y = self.read_val(&b)?;
                let value = Self::bool_to_num(x == y);
                self.write_val(&dst, value)?;
                self.pc = next;
                Ok(false)
            },
            Opcode::SetBase(a) => {
                let x = self.read_val(&a)?;
                self.base = match self.base.checked_add(x) {
                    Some(v) => v,
                    None => {
                        return Err(AocErr::Overflow);
                    },
                };
                self.pc = next;
                Ok(false)
            },
        }
    }

    /// Runs until the next Output (after appending it) or Halt and returns
    /// the number of instructions executed. Does nothing on a halted machine.
    /// Fails when an instruction faults, leaving the machine just before it,
    /// or when `MAX_STEPS` instructions pass without a yield.
    #[verifier::loop_isolation(false)]
    pub fn resume(&mut self) -> (r: AocResult<usize>)
        ensures
            (as_int_result(r), final(self)@) == resume_spec(old(self)@),
            r matches Ok(n) ==> n <= MAX_STEPS,
    {
        if self.halted {
            return Ok(0);
        }
        let ghost s0 = self@;
        let mut cycle: usize = 0;
        while cycle < MAX_STEPS
            invariant
                cycle <= MAX_STEPS,
                !self@.halted,
                run_spec(self@, cycle as int, (MAX_STEPS - cycle) as nat) == run_spec(s0, 0, MAX_STEPS as nat),
            decreases MAX_STEPS - cycle,
        {
            let ghost pre = self@;
            match self.step() {
                Err(e) => {
                    assert(run_spec(pre, cycle as int, (MAX_STEPS - cycle) as nat) == (
                    Err::<int, AocErr>(e), pre));
                    return Err(e);
                },
                Ok(yields) => {
                    cycle += 1;
                    if yields {
                        return Ok(cycle);
                    }
                },
            }
        }
        Err(AocErr::ExceededMaxSteps)
    }

    /// Resumes until the machine halts and returns its latest output. Fails
    /// when a resumption fails, when more than `MAX_STEPS` instructions pass
    /// in all, or when the program halts without any output.
    #[verifier::loop_isolation(false)]
    pub fn exec(&mut self) -> (r: AocResult<i64>)
        ensures
            (r, final(self)@) == exec_spec(old(self)@, 0),
    {
        let ghost s0 = self@;
        let mut cycle: usize = 0;
        while cycle <= MAX_STEPS
            invariant
                exec_spec(self@, cycle as int) == exec_spec(s0, 0),
            decreases MAX_STEPS + 1 - cycle,
        {
            let ghost before = self@;
            proof {
                lemma_resume_bounds(before);
            }
            let res = self.resume();
            proof {
                lemma_exec_unfold(before, cycle as int);
            }
            let n = match res {
                Ok(n) => n,
                Err(e) => {
                    return Err(e);
                },
            };
            if self.halted() {
                return match self.output() {
                    Some(v) => Ok(v),
                    None => Err(AocErr::NoOutput),
                };
            }
            assert(!before.halted);
            // Past the budget every count fails alike, so the count is capped.
            cycle = if n > MAX_STEPS - cycle {
                MAX_STEPS + 1
            } else {
                cycle + n
            };
        }
        Err(AocErr::ExceededMaxSteps)
    }
}

/// Runs a program to completion with a single input and returns its latest output.
pub fn run(data: Data, input: i64) -> (r: AocResult<i64>)
    ensures
        r == exec_spec(initial_state(data.0@, seq![input]), 0).0,
{
    let inputs = [input];
    assert(inputs@ =~= seq![input]);
    let mut ctx = Context::from_data(data, &inputs);
    ctx.exec()
}

} // verus!
