//! The bytecode instructions the profiler counts, by opcode.

use vstd::prelude::*;

verus! {

/// How many opcodes there are.
pub const OPCODE_COUNT: usize = 11;

/// An instruction's operation, without its operands.
#[derive(Debug, Clone, Copy, PartialEq, Eq, Hash, Structural)]
pub enum Opcode {
    LoadNil,
    LoadInt,
    LoadConst,
    Move,
    Jump,
    JumpIfFalse,
    Call,
    CallNative,
    Return,
    GetField,
    SetField,
}

/// The position of an opcode in the opcode list.
pub open spec fn opcode_index(op: Opcode) -> nat {
    match op {
        Opcode::LoadNil => 0,
        Opcode::LoadInt => 1,
        Opcode::LoadConst => 2,
        Opcode::Move => 3,
        Opcode::Jump => 4,
        Opcode::JumpIfFalse => 5,
        Opcode::Call => 6,
        Opcode::CallNative => 7,
        Opcode::Return => 8,
        Opcode::GetField => 9,
        Opcode::SetField => 10,
    }
}

/// The opcode at a position of the opcode list.
pub open spec fn opcode_at(i: nat) -> Opcode {
    if i == 0 {
        Opcode::LoadNil
    } else if i == 1 {
        Opcode::LoadInt
    } else if i == 2 {
        Opcode::LoadConst
    } else if i == 3 {
        Opcode::Move
    } else if i == 4 {
        Opcode::Jump
    } else if i == 5 {
        Opcode::JumpIfFalse
    } else if i == 6 {
        Opcode::Call
    } else if i == 7 {
        Opcode::CallNative
    } else if i == 8 {
        Opcode::Return
    } else if i == 9 {
        Opcode::GetField
    } else {
        Opcode::SetField
    }
}

/// The name an opcode is reported under: its variant's name.
pub open spec fn opcode_name(op: Opcode) -> Seq<char> {
    match op {
        Opcode::LoadNil => seq!['L', 'o', 'a', 'd', 'N', 'i', 'l'],
        Opcode::LoadInt => seq!['L', 'o', 'a', 'd', 'I', 'n', 't'],
        Opcode::LoadConst => seq!['L', 'o', 'a', 'd', 'C', 'o', 'n', 's', 't'],
        Opcode::Move => seq!['M', 'o', 'v', 'e'],
        Opcode::Jump => seq!['J', 'u', 'm', 'p'],
        Opcode::JumpIfFalse => seq!['J', 'u', 'm', 'p', 'I', 'f', 'F', 'a', 'l', 's', 'e'],
        Opcode::Call => seq!['C', 'a', 'l', 'l'],
        Opcode::CallNative => seq!['C', 'a', 'l', 'l', 'N', 'a', 't', 'i', 'v', 'e'],
        Opcode::Return => seq!['R', 'e', 't', 'u', 'r', 'n'],
        Opcode::GetField => seq!['G', 'e', 't', 'F', 'i', 'e', 'l', 'd'],
        Opcode::SetField => seq!['S', 'e', 't', 'F', 'i', 'e', 'l', 'd'],
    }
}

impl Opcode {
    /// The position of this opcode in the opcode list.
    pub fn index(self) -> (i: usize)
        ensures
            i == opcode_index(self),
            i < OPCODE_COUNT,
            opcode_at(i as nat) == self,
    {
        match self {
            Opcode::LoadNil => 0,
            Opcode::LoadInt => 1,
            Opcode::LoadConst => 2,
            Opcode::Move => 3,
            Opcode::Jump => 4,
            Opcode::JumpIfFalse => 5,
            Opcode::Call => 6,
            Opcode::CallNative => 7,
            Opcode::Return => 8,
            Opcode::GetField => 9,
            Opcode::SetField => 10,
        }
    }

    /// The opcode at position `i` of the opcode list.
    pub fn from_index(i: usize) -> (op: Opcode)
        requires
            i < OPCODE_COUNT,
        ensures
            op == opcode_at(i as nat),
            opcode_index(op) == i,
    {
        if i == 0 {
            Opcode::LoadNil
        } else if i == 1 {
            Opcode::LoadInt
        } else if i == 2 {
            Opcode::LoadConst
        } else if i == 3 {
            Opcode::Move
        } else if i == 4 {
            Opcode::Jump
        } else if i == 5 {
            Opcode::JumpIfFalse
        } else if i == 6 {
            Opcode::Call
        } else if i == 7 {
            Opcode::CallNative
        } else if i == 8 {
            Opcode::Return
        } else if i == 9 {
            Opcode::GetField
        } else {
            Opcode::SetField
        }
    }

    /// The opcode's name, as reports print it.
    pub fn name(self) -> (s: &'static str)
        ensures
            s@ == opcode_name(self),
    {
        proof {
            reveal_strlit("LoadNil");
            reveal_strlit("LoadInt");
            reveal_strlit("LoadConst");
            reveal_strlit("Move");
            reveal_strlit("Jump");
            reveal_strlit("JumpIfFalse");
            reveal_strlit("Call");
            reveal_strlit("CallNative");
            reveal_strlit("Return");
            reveal_strlit("GetField");
            reveal_strlit("SetField");
        }
        match self {
            Opcode::LoadNil => "LoadNil",
            Opcode::LoadInt => "LoadInt",
            Opcode::LoadConst => "LoadConst",
            Opcode::Move => "Move",
            Opcode::Jump => "Jump",
            Opcode::JumpIfFalse => "JumpIfFalse",
            Opcode::Call => "Call",
            Opcode::CallNative => "CallNative",
            Opcode::Return => "Return",
            Opcode::GetField => "GetField",
            Opcode::SetField => "SetField",
        }
    }
}

/// A bytecode instruction with its operands.
#[derive(Debug, Clone, Copy, PartialEq, Eq, Structural)]
pub enum Inst {
    LoadNil { dst: u16 },
    LoadInt { dst: u16, value: i64 },
    LoadConst { dst: u16, idx: u32 },
    Move { dst: u16, src: u16 },
    Jump { to: u32 },
    JumpIfFalse { cond: u16, to: u32 },
    Call { dst: u16, func: u16, argc: u16 },
    CallNative { dst: u16, native: u32, argc: u16 },
    Return { src: u16 },
    GetField { dst: u16, obj: u16, key: u32 },
    SetField { obj: u16, key: u32, src: u16 },
}

/// The opcode of an instruction.
pub open spec fn inst_opcode(inst: Inst) -> Opcode {
    match inst {
        Inst::LoadNil { .. } => Opcode::LoadNil,
        Inst::LoadInt { .. } => Opcode::LoadInt,
        Inst::LoadConst { .. } => Opcode::LoadConst,
        Inst::Move { .. } => Opcode::Move,
        Inst::Jump { .. } => Opcode::Jump,
        Inst::JumpIfFalse { .. } => Opcode::JumpIfFalse,
        Inst::Call { .. } => Opcode::Call,
        Inst::CallNative { .. } => Opcode::CallNative,
        Inst::Return { .. } => Opcode::Return,
        Inst::GetField { .. } => Opcode::GetField,
        Inst::SetField { .. } => Opcode::SetField,
    }
}

impl Inst {
    /// The instruction's opcode.
    pub fn opcode(&self) -> (op: Opcode)
        ensures
            op == inst_opcode(*self),
    {
        match self {
            Inst::LoadNil { .. } => Opcode::LoadNil,
            Inst::LoadInt { .. } => Opcode::LoadInt,
            Inst::LoadConst { .. } => Opcode::LoadConst,
            Inst::Move { .. } => Opcode::Move,
            Inst::Jump { .. } => Opcode::Jump,
            Inst::JumpIfFalse { .. } => Opcode::JumpIfFalse,
            Inst::Call { .. } => Opcode::Call,
            Inst::CallNative { .. } => Opcode::CallNative,
            Inst::Return { .. } => Opcode::Return,
            Inst::GetField { .. } => Opcode::GetField,
            Inst::SetField { .. } => Opcode::SetField,
        }
    }
}

} // verus!
