//! Decoding Intcode instructions: an operation number and parameter modes
//! packed in the first cell, operands in the cells after it.
use vstd::prelude::*;
use crate::error::{AocErr, AocResult};

verus! {

/// An operand of a decoded instruction.
#[derive(Debug, Clone, Copy)]
pub enum Value {
    /// The operand names a memory cell by its address.
    Position(i64),
    /// The operand is the literal value itself.
    Immediate(i64),
    /// The operand names the cell at the relative base plus this offset.
    Relative(i64),
}

/// A decoded instruction with its operands.
#[derive(Debug, Clone, Copy)]
pub enum Opcode {
    Add(Value, Value, Value),
    Mul(Value, Value, Value),
    In(Value),
    Out(Value),
    JumpTrue(Value, Value),
    JumpFalse(Value, Value),
    CmpLt(Value, Value, Value),
    CmpEq(Value, Value, Value),
    Halt,
    SetBase(Value),
}

/// Number of cells an instruction with this operation number occupies,
/// or 0 where the number names no operation.
pub open spec fn opcode_len(op: int) -> usize {
    if op == 1 || op == 2 || op == 7 || op == 8 {
        4
    } else if op == 5 || op == 6 {
        3
    } else if op == 3 || op == 4 || op == 9 {
        2
    } else if op == 99 {
        1
    } else {
        0
    }
}

/// The mode of parameter `k` (0, 1 or 2) of a non-negative instruction word.
pub open spec fn mode_digit(word: int, k: int) -> int {
    if k == 0 {
        (word / 100) % 10
    } else if k == 1 {
        (word / 1000) % 10
    } else {
        (word / 10000) % 10
    }
}

/// Whether the first `n` parameter modes of `word` are supported.
pub open spec fn modes_valid(word: int, n: int) -> bool {
    &&& (n < 1 || mode_digit(word, 0) <= 2)
    &&& (n < 2 || mode_digit(word, 1) <= 2)
    &&& (n < 3 || mode_digit(word, 2) <= 2)
}

/// The operand that a cell holds under a parameter mode.
pub open spec fn value_of(cell: i64, mode: int) -> Value {
    if mode == 1 {
        Value::Immediate(cell)
    } else if mode == 2 {
        Value::Relative(cell)
    } else {
        Value::Position(cell)
    }
}

/// Operand `k` of the instruction at `pc`.
pub open spec fn operand(mem: Seq<i64>, pc: int, k: int) -> Value {
    value_of(mem[pc + 1 + k], mode_digit(mem[pc] as int, k))
}

/// The instruction with operation number `op` over the operands `a`, `b`, `c`
/// (those it does not take are ignored).
pub open spec fn instr_of(op: int, a: Value, b: Value, c: Value) -> Opcode {
    if op == 1 {
        Opcode::Add(a, b, c)
    } else if op == 2 {
        Opcode::Mul(a, b, c)
    } else if op == 3 {
        Opcode::In(a)
    } else if op == 4 {
        Opcode::Out(a)
    } else if op == 5 {
        Opcode::JumpTrue(a, b)
    } else if op == 6 {
        Opcode::JumpFalse(a, b)
    } else if op == 7 {
        Opcode::CmpLt(a, b, c)
    } else if op == 8 {
        Opcode::CmpEq(a, b, c)
    } else if op == 9 {
        Opcode::SetBase(a)
    } else {
        Opcode::Halt
    }
}

/// The instruction at `pc` and its length, or why it cannot be decoded.
pub open spec fn decode_spec(mem: Seq<i64>, pc: int) -> AocResult<(Opcode, usize)> {
    if pc < 0 || pc >= mem.len() {
        Err(AocErr::OutOfBounds)
    } else {
        let word = mem[pc];
        let len = opcode_len(word as int % 100);
        if word < 0 || len == 0 {
            Err(AocErr::InvalidOpcode(word))
        } else if pc + len > mem.len() {
            Err(AocErr::OutOfBounds)
        } else if !modes_valid(word as int, len - 1) {
            Err(AocErr::InvalidOpcode(word))
        } else {
            Ok(
                (
                    instr_of(word as int % 100, operand(mem, pc, 0), operand(mem, pc, 1), operand(mem, pc, 2)),
                    len,
                ),
            )
        }
    }
}

/// Turns a cell and its parameter mode into an operand.
pub fn decode_val(value: i64, mode: u8) -> (r: Value)
    requires
        mode <= 2,
    ensures
        r == value_of(value, mode as int),
{
    match mode {
        0 => Value::Position(value),
        1 => Value::Immediate(value),
        _ => Value::Relative(value),
    }
}

fn opcode_length(op: i64) -> (r: usize)
    ensures
        r == opcode_len(op as int),
{
    match op {
        1 | 2 | 7 | 8 => 4,
        5 | 6 => 3,
        3 | 4 | 9 => 2,
        99 => 1,
        _ => 0,
    }
}

/// Decodes the instruction that starts at `pc` in `mem`; never changes memory.
pub fn decode(mem: &[i64], pc: usize) -> (r: AocResult<(Opcode, usize)>)
    ensures
        r == decode_spec(mem@, pc as int),
        r matches Ok((_, len)) ==> 1 <= len <= 4 && pc + len <= mem@.len(),
{
    if pc >= mem.len() {
        return Err(AocErr::OutOfBounds);
    }
    let word = mem[pc];
    if word < 0 {
        return Err(AocErr::InvalidOpcode(word));
    }
    let op = word % 100;
    let len = opcode_length(op);
    if len == 0 {
        return Err(AocErr::InvalidOpcode(word));
    }
    if len > mem.len() - pc {
        return Err(AocErr::OutOfBounds);
    }
    let first = word / 100 % 10;
    let second = word / 1000 % 10;
    let third = word / 10000 % 10;
    if (len > 1 && first > 2) || (len > 2 && second > 2) || (len > 3 && third > 2) {
        return Err(AocErr::InvalidOpcode(word));
    }
    let instr = if len == 1 {
        Opcode::Halt
    } else {
        let a = decode_val(mem[pc + 1], first as u8);
        if len == 2 {
            match op {
                3 => Opcode::In(a),
                4 => Opcode::Out(a),
                _ => Opcode::SetBase(a),
            }
        } else {
            let b = decode_val(mem[pc + 2], second as u8);
            if len == 3 {
                match op {
                    5 => Opcode::JumpTrue(a, b),
                    _ => Opcode::JumpFalse(a, b),
                }
            } else {
                let c = decode_val(mem[pc + 3], third as u8);
                match op {
                    1 => Opcode::Add(a, b, c),
                    2 => Opcode::Mul(a, b, c),
                    7 => Opcode::CmpLt(a, b, c),
                    _ => Opcode::CmpEq(a, b, c),
                }
            }
        }
    };
    Ok((instr, len))
}

} // verus!
