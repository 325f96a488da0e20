use vstd::prelude::*;

verus! {

/// The eight registers that an arithmetic instruction can read as its first operand.
#[derive(Debug, Clone, Copy, PartialEq, Eq, Structural)]
pub enum ReducedRegister {
    Rra,
    Rrb,
    Rrc,
    Rrd,
    Rre,
    Rrf,
    Rrg,
    Rrh,
}

impl ReducedRegister {
    pub open spec fn code(self) -> u8 {
        match self {
            ReducedRegister::Rra => 0,
            ReducedRegister::Rrb => 1,
            ReducedRegister::Rrc => 2,
            ReducedRegister::Rrd => 3,
            ReducedRegister::Rre => 4,
            ReducedRegister::Rrf => 5,
            ReducedRegister::Rrg => 6,
            ReducedRegister::Rrh => 7,
        }
    }

    /// The register's three-bit number.
    pub fn encode(&self) -> (r: u8)
        ensures
            r == self.code(),
            r < 8,
    {
        match self {
            ReducedRegister::Rra => 0,
            ReducedRegister::Rrb => 1,
            ReducedRegister::Rrc => 2,
            ReducedRegister::Rrd => 3,
            ReducedRegister::Rre => 4,
            ReducedRegister::Rrf => 5,
            ReducedRegister::Rrg => 6,
            ReducedRegister::Rrh => 7,
        }
    }

    /// The register with number `n`, if there is one.
    pub fn from_num(n: u8) -> (r: Option<Self>)
        ensures
            n < 8 <==> r is Some,
            r matches Some(reg) ==> reg.code() == n,
    {
        match n {
            0 => Some(ReducedRegister::Rra),
            1 => Some(ReducedRegister::Rrb),
            2 => Some(ReducedRegister::Rrc),
            3 => Some(ReducedRegister::Rrd),
            4 => Some(ReducedRegister::Rre),
            5 => Some(ReducedRegister::Rrf),
            6 => Some(ReducedRegister::Rrg),
            7 => Some(ReducedRegister::Rrh),
            _ => None,
        }
    }

    /// The full register with the same number.
    pub fn into_register(self) -> (r: Register)
        ensures
            r.code() == self.code(),
    {
        match self {
            ReducedRegister::Rra => Register::Ra,
            ReducedRegister::Rrb => Register::Rb,
            ReducedRegister::Rrc => Register::Rc,
            ReducedRegister::Rrd => Register::Rd,
            ReducedRegister::Rre => Register::Re,
            ReducedRegister::Rrf => Register::Rf,
            ReducedRegister::Rrg => Register::Rg,
            ReducedRegister::Rrh => Register::Rh,
        }
    }
}

/// The sixteen registers of the machine.
#[derive(Debug, Clone, Copy, PartialEq, Eq, Structural)]
pub enum Register {
    Ra,
    Rb,
    Rc,
    Rd,
    Re,
    Rf,
    Rg,
    Rh,
    Rnull,
    Rone,
    Rout,
    Rin,
    Rreserved1,
    Rreserved2,
    Rflags,
    Rpc,
}

impl Register {
    pub open spec fn code(self) -> u8 {
        match self {
            Register::Ra => 0,
            Register::Rb => 1,
            Register::Rc => 2,
            Register::Rd => 3,
            Register::Re => 4,
            Register::Rf => 5,
            Register::Rg => 6,
            Register::Rh => 7,
            Register::Rnull => 8,
            Register::Rone => 9,
            Register::Rout => 10,
            Register::Rin => 11,
            Register::Rreserved1 => 12,
            Register::Rreserved2 => 13,
            Register::Rflags => 14,
            Register::Rpc => 15,
        }
    }

    /// The register's four-bit number.
    pub fn encode(&self) -> (r: u8)
        ensures
            r == self.code(),
            r < 16,
    {
        match self {
            Register::Ra => 0,
            Register::Rb => 1,
            Register::Rc => 2,
            Register::Rd => 3,
            Register::Re => 4,
            Register::Rf => 5,
            Register::Rg => 6,
            Register::Rh => 7,
            Register::Rnull => 8,
            Register::Rone => 9,
            Register::Rout => 10,
            Register::Rin => 11,
            Register::Rreserved1 => 12,
            Register::Rreserved2 => 13,
            Register::Rflags => 14,
            Register::Rpc => 15,
        }
    }

    /// The reduced register with the same number, if the number is below eight.
    pub fn reduce(&self) -> (r: Option<ReducedRegister>)
        ensures
            self.code() < 8 <==> r is Some,
            r matches Some(reg) ==> reg.code() == self.code(),
    {
        ReducedRegister::from_num(self.encode())
    }

    /// The register with number `n`, if there is one.
    pub fn from_num(n: u8) -> (r: Option<Self>)
        ensures
            n < 16 <==> r is Some,
            r matches Some(reg) ==> reg.code() == n,
    {
        match n {
            0 => Some(Register::Ra),
            1 => Some(Register::Rb),
            2 => Some(Register::Rc),
            3 => Some(Register::Rd),
            4 => Some(Register::Re),
            5 => Some(Register::Rf),
            6 => Some(Register::Rg),
            7 => Some(Register::Rh),
            8 => Some(Register::Rnull),
            9 => Some(Register::Rone),
            10 => Some(Register::Rout),
            11 => Some(Register::Rin),
            12 => Some(Register::Rreserved1),
            13 => Some(Register::Rreserved2),
            14 => Some(Register::Rflags),
            15 => Some(Register::Rpc),
            _ => None,
        }
    }
}

/// The condition under which a move or a branch takes effect.
#[derive(Debug, Clone, Copy, PartialEq, Eq, Structural)]
pub enum Condition {
    Unconditional,
    Greater,
    Less,
    Equal,
    NotEqual,
    Overflow,
    Even,
    Carry,
}

impl Condition {
    pub open spec fn code(self) -> u8 {
        match self {
            Condition::Unconditional => 0,
            Condition::Greater => 1,
            Condition::Less => 2,
            Condition::Equal => 3,
            Condition::NotEqual => 4,
            Condition::Overflow => 5,
            Condition::Even => 6,
            Condition::Carry => 7,
        }
    }

    /// The condition's three-bit number.
    pub fn encode(&self) -> (r: u8)
        ensures
            r == self.code(),
            r < 8,
    {
        match self {
            Condition::Unconditional => 0,
            Condition::Greater => 1,
            Condition::Less => 2,
            Condition::Equal => 3,
            Condition::NotEqual => 4,
            Condition::Overflow => 5,
            Condition::Even => 6,
            Condition::Carry => 7,
        }
    }

    /// The condition with number `n`, if there is one.
    pub fn from_num(n: u8) -> (r: Option<Self>)
        ensures
            n < 8 <==> r is Some,
            r matches Some(c) ==> c.code() == n,
    {
        match n {
            0 => Some(Condition::Unconditional),
            1 => Some(Condition::Greater),
            2 => Some(Condition::Less),
            3 => Some(Condition::Equal),
            4 => Some(Condition::NotEqual),
            5 => Some(Condition::Overflow),
            6 => Some(Condition::Even),
            7 => Some(Condition::Carry),
            _ => None,
        }
    }
}

#[derive(Debug, Clone, Copy, PartialEq, Eq, Structural)]
pub enum MemoryOperation {
    Load,
    Store,
}

#[derive(Debug, Clone, Copy, PartialEq, Eq, Structural)]
pub enum CarryOperation {
    WithCarry,
    WithoutCarry,
}

#[derive(Debug, Clone, Copy, PartialEq, Eq, Structural)]
pub enum ArithmeticOperation {
    Add,
    Sub,
}

#[derive(Debug, Clone, Copy, PartialEq, Eq, Structural)]
pub enum BranchType {
    Relative,
    Absolute,
}

/// One machine instruction, before it is packed into a 16-bit word.
#[derive(Debug, Clone, Copy, PartialEq, Eq, Structural)]
pub enum Instruction {
    Arithmetic {
        op: ArithmeticOperation,
        carry: CarryOperation,
        src1: ReducedRegister,
        src2: Register,
        dst: Register,
    },
    Move { condition: Condition, set_flags: bool, src: Register, dst: Register },
    Branch { address: u8, branch_type: BranchType, condition: Condition },
}

/// The 16-bit word of an instruction. An arithmetic instruction is `001` in the top
/// three bits, then one bit for addition, one for carry, the first source in bits
/// 8..11, the second source in bits 4..8 and the destination in bits 0..4. A move
/// is `100`, the condition in bits 9..12, the flag bit 8, the source and the
/// destination as above. A branch is `101`, the condition in bits 9..12, bit 8 set
/// for a relative branch, and the address in the low byte.
pub open spec fn instruction_word(i: Instruction) -> int {
    match i {
        Instruction::Arithmetic { op, carry, src1, src2, dst } => 0x2000 + (if op
            == ArithmeticOperation::Add {
            0x1000int
        } else {
            0
        }) + (if carry == CarryOperation::WithCarry {
            0x0800int
        } else {
            0
        }) + src1.code() * 0x100 + src2.code() * 0x10 + dst.code(),
        Instruction::Move { condition, set_flags, src, dst } => 0x8000 + condition.code()
            * 0x200 + (if set_flags {
            0x100int
        } else {
            0
        }) + src.code() * 0x10 + dst.code(),
        Instruction::Branch { address, branch_type, condition } => 0xA000 + condition.code()
            * 0x200 + (if branch_type == BranchType::Relative {
            0x100int
        } else {
            0
        }) + address,
    }
}

impl Instruction {
    /// Packs the instruction into its 16-bit word.
    pub fn encode(&self) -> (r: u16)
        ensures
            r as int == instruction_word(*self),
    {
        match *self {
            Instruction::Arithmetic { op, carry, src1, src2, dst } => {
                let opcode: u16 = 0x2000;
                let op: u16 = if op == ArithmeticOperation::Add {
                    0x1000
                } else {
                    0
                };
                let carry: u16 = if carry == CarryOperation::WithCarry {
                    0x0800
                } else {
                    0
                };
                let src1: u16 = src1.encode() as u16 * 0x100;
                let src2: u16 = src2.encode() as u16 * 0x10;
                let dst: u16 = dst.encode() as u16;
                opcode + op + carry + src1 + src2 + dst
            },
            Instruction::Move { condition, set_flags, src, dst } => {
                let opcode: u16 = 0x8000;
                let set_flags: u16 = if set_flags {
                    0x100
                } else {
                    0
                };
                let condition: u16 = condition.encode() as u16 * 0x200;
                let src: u16 = src.encode() as u16 * 0x10;
                let dst: u16 = dst.encode() as u16;
                opcode + condition + set_flags + src + dst
            },
            Instruction::Branch { address, branch_type, condition } => {
                let opcode: u16 = 0xA000;
                let branch_type: u16 = if branch_type == BranchType::Relative {
                    0x100
                } else {
                    0
                };
                let condition: u16 = condition.encode() as u16 * 0x200;
                opcode + condition + branch_type + address as u16
            },
        }
    }
}

} // verus!
