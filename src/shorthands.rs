use vstd::prelude::*;
use crate::instruction::{
    ArithmeticOperation, BranchType, CarryOperation, Condition, Instruction, ReducedRegister, Register,
};

verus! {

/// Does nothing: an unconditional move from the null register to itself.
pub fn nop() -> (r: Instruction)
    ensures
        r == (Instruction::Move {
            condition: Condition::Unconditional,
            set_flags: false,
            src: Register::Rnull,
            dst: Register::Rnull,
        }),
{
    Instruction::Move { condition: Condition::Unconditional, set_flags: false, src: Register::Rnull, dst: Register::Rnull }
}

/// `dst = src1 + src2`.
pub fn add(src1: ReducedRegister, src2: Register, dst: Register) -> (r: Instruction)
    ensures
        r == (Instruction::Arithmetic {
            op: ArithmeticOperation::Add,
            carry: CarryOperation::WithoutCarry,
            src1,
            src2: src2,
            dst: dst,
        }),
{
    Instruction::Arithmetic { op: ArithmeticOperation::Add, carry: CarryOperation::WithoutCarry, src1, src2: src2, dst: dst }
}

/// `dst = src1 + src2 + carry`.
pub fn add_carry(src1: ReducedRegister, src2: Register, dst: Register) -> (r: Instruction)
    ensures
        r == (Instruction::Arithmetic {
            op: ArithmeticOperation::Add,
            carry: CarryOperation::WithCarry,
            src1,
            src2: src2,
            dst: dst,
        }),
{
    Instruction::Arithmetic { op: ArithmeticOperation::Add, carry: CarryOperation::WithCarry, src1, src2: src2, dst: dst }
}

/// `dst = src1 + 1`.
pub fn inc(src1: ReducedRegister, dst: Register) -> (r: Instruction)
    ensures
        r == (Instruction::Arithmetic {
            op: ArithmeticOperation::Add,
            carry: CarryOperation::WithoutCarry,
            src1,
            src2: Register::Rone,
            dst: dst,
        }),
{
    Instruction::Arithmetic { op: ArithmeticOperation::Add, carry: CarryOperation::WithoutCarry, src1, src2: Register::Rone, dst: dst }
}

/// `dst = src1 - src2`.
pub fn sub(src1: ReducedRegister, src2: Register, dst: Register) -> (r: Instruction)
    ensures
        r == (Instruction::Arithmetic {
            op: ArithmeticOperation::Sub,
            carry: CarryOperation::WithoutCarry,
            src1,
            src2: src2,
            dst: dst,
        }),
{
    Instruction::Arithmetic { op: ArithmeticOperation::Sub, carry: CarryOperation::WithoutCarry, src1, src2: src2, dst: dst }
}

/// `dst = src1 - src2 - carry`.
pub fn sub_carry(src1: ReducedRegister, src2: Register, dst: Register) -> (r: Instruction)
    ensures
        r == (Instruction::Arithmetic {
            op: ArithmeticOperation::Sub,
            carry: CarryOperation::WithCarry,
            src1,
            src2: src2,
            dst: dst,
        }),
{
    Instruction::Arithmetic { op: ArithmeticOperation::Sub, carry: CarryOperation::WithCarry, src1, src2: src2, dst: dst }
}

/// `dst = src1 - 1`.
pub fn dec(src1: ReducedRegister, dst: Register) -> (r: Instruction)
    ensures
        r == (Instruction::Arithmetic {
            op: ArithmeticOperation::Sub,
            carry: CarryOperation::WithoutCarry,
            src1,
            src2: Register::Rone,
            dst: dst,
        }),
{
    Instruction::Arithmetic { op: ArithmeticOperation::Sub, carry: CarryOperation::WithoutCarry, src1, src2: Register::Rone, dst: dst }
}

/// Compares `src1` with `src2`, keeping only the flags.
pub fn cmp(src1: ReducedRegister, src2: Register) -> (r: Instruction)
    ensures
        r == (Instruction::Arithmetic {
            op: ArithmeticOperation::Sub,
            carry: CarryOperation::WithoutCarry,
            src1,
            src2: src2,
            dst: Register::Rnull,
        }),
{
    Instruction::Arithmetic { op: ArithmeticOperation::Sub, carry: CarryOperation::WithoutCarry, src1, src2: src2, dst: Register::Rnull }
}

/// Compares with carry, keeping only the flags.
pub fn cmp_carry(src1: ReducedRegister, src2: Register) -> (r: Instruction)
    ensures
        r == (Instruction::Arithmetic {
            op: ArithmeticOperation::Sub,
            carry: CarryOperation::WithCarry,
            src1,
            src2: src2,
            dst: Register::Rnull,
        }),
{
    Instruction::Arithmetic { op: ArithmeticOperation::Sub, carry: CarryOperation::WithCarry, src1, src2: src2, dst: Register::Rnull }
}

/// Compares `src1` with zero.
pub fn cmp_0(src1: ReducedRegister) -> (r: Instruction)
    ensures
        r == (Instruction::Arithmetic {
            op: ArithmeticOperation::Sub,
            carry: CarryOperation::WithoutCarry,
            src1,
            src2: Register::Rnull,
            dst: Register::Rnull,
        }),
{
    Instruction::Arithmetic { op: ArithmeticOperation::Sub, carry: CarryOperation::WithoutCarry, src1, src2: Register::Rnull, dst: Register::Rnull }
}

/// Compares `src1` with one.
pub fn cmp_1(src1: ReducedRegister) -> (r: Instruction)
    ensures
        r == (Instruction::Arithmetic {
            op: ArithmeticOperation::Sub,
            carry: CarryOperation::WithoutCarry,
            src1,
            src2: Register::Rone,
            dst: Register::Rnull,
        }),
{
    Instruction::Arithmetic { op: ArithmeticOperation::Sub, carry: CarryOperation::WithoutCarry, src1, src2: Register::Rone, dst: Register::Rnull }
}

/// `dst = src`.
pub fn mov(src: Register, dst: Register) -> (r: Instruction)
    ensures
        r == (Instruction::Move { condition: Condition::Unconditional, set_flags: false, src, dst }),
{
    Instruction::Move { condition: Condition::Unconditional, set_flags: false, src, dst }
}

/// `dst = src` where the last comparison was equal.
pub fn cmoveq(src: Register, dst: Register) -> (r: Instruction)
    ensures
        r == (Instruction::Move { condition: Condition::Equal, set_flags: false, src, dst }),
{
    Instruction::Move { condition: Condition::Equal, set_flags: false, src, dst }
}

/// `dst = src` where the last comparison was not equal.
pub fn cmovneq(src: Register, dst: Register) -> (r: Instruction)
    ensures
        r == (Instruction::Move { condition: Condition::NotEqual, set_flags: false, src, dst }),
{
    Instruction::Move { condition: Condition::NotEqual, set_flags: false, src, dst }
}

/// Jumps to `address`.
pub fn jmp(address: u8) -> (r: Instruction)
    ensures
        r == (Instruction::Branch { address, branch_type: BranchType::Absolute, condition: Condition::Unconditional }),
{
    Instruction::Branch { address, branch_type: BranchType::Absolute, condition: Condition::Unconditional }
}

/// Jumps by `offset`, stored as its two's complement byte.
pub fn jmp_rel(offset: i8) -> (r: Instruction)
    ensures
        r == (Instruction::Branch {
            address: (if offset < 0 { offset + 256 } else { offset as int }) as u8,
            branch_type: BranchType::Relative,
            condition: Condition::Unconditional,
        }),
{
    let address: u8 = if offset < 0 {
        (offset as i16 + 256) as u8
    } else {
        offset as u8
    };
    Instruction::Branch { address, branch_type: BranchType::Relative, condition: Condition::Unconditional }
}

/// Jumps to `address` where the last comparison was equal.
pub fn jeq(address: u8) -> (r: Instruction)
    ensures
        r == (Instruction::Branch { address, branch_type: BranchType::Absolute, condition: Condition::Equal }),
{
    Instruction::Branch { address, branch_type: BranchType::Absolute, condition: Condition::Equal }
}

/// Jumps by `offset` where the last comparison was equal.
pub fn jeq_rel(offset: i8) -> (r: Instruction)
    ensures
        r == (Instruction::Branch {
            address: (if offset < 0 { offset + 256 } else { offset as int }) as u8,
            branch_type: BranchType::Relative,
            condition: Condition::Equal,
        }),
{
    let address: u8 = if offset < 0 {
        (offset as i16 + 256) as u8
    } else {
        offset as u8
    };
    Instruction::Branch { address, branch_type: BranchType::Relative, condition: Condition::Equal }
}

} // verus!
