//! Decoding of 32-bit instruction words.
//!
//! An instruction word holds the opcode in its six low bits; the remaining
//! bits are split into operand fields according to the opcode's format:
//! three unsigned fields (A, B, C), one unsigned field plus a wide unsigned
//! field (A, Bx), or one unsigned field plus a wide signed field (A, sBx)
//! obtained by subtracting a fixed bias from the wide field.

use vstd::prelude::*;

use crate::cursor::{read_u32, u32_at, ByteOrder, DecodeError};

verus! {

/// The bias subtracted from the wide field to obtain a signed offset.
pub const WIDE_FIELD_BIAS: u32 = 131071;

/// The symbolic operations of the instruction set, in table order.
#[derive(Clone, Copy, Debug, PartialEq, Eq, Structural)]
pub enum Opcode {
    Move,
    LoadK,
    LoadBool,
    LoadNil,
    GetUpval,
    GetGlobal,
    GetTable,
    SetGlobal,
    SetUpval,
    SetTable,
    NewTable,
    SelfCall,
    Add,
    Sub,
    Mul,
    Div,
    Mod,
    Pow,
    Unm,
    Not,
    Len,
    Concat,
    Jmp,
    Eq,
    Lt,
    Le,
    Test,
    TestSet,
    Call,
    TailCall,
    Return,
    ForLoop,
    ForPrep,
    TForLoop,
    SetList,
    Close,
    Closure,
    Vararg,
}

/// The three fixed bit layouts of an instruction word's operand fields.
#[derive(Clone, Copy, Debug, PartialEq, Eq, Structural)]
pub enum InstructionFormat {
    ABC,
    ABx,
    AsBx,
}

/// One decoded instruction: the opcode and its operand fields, laid out
/// according to the opcode's format.
#[derive(Clone, Copy, Debug, PartialEq, Eq, Structural)]
pub enum Instruction {
    ABC { opcode: Opcode, a: u8, b: u16, c: u16 },
    ABx { opcode: Opcode, a: u8, bx: u32 },
    AsBx { opcode: Opcode, a: u8, sbx: i32 },
}

/// The opcode table: which operation each opcode field value names.
/// Values outside the table decode to `None`.
#[verifier::opaque]
pub open spec fn spec_opcode(v: u8) -> Option<Opcode> {
    if v == 0 {
        Some(Opcode::Move)
    } else if v == 1 {
        Some(Opcode::LoadK)
    } else if v == 2 {
        Some(Opcode::LoadBool)
    } else if v == 3 {
        Some(Opcode::LoadNil)
    } else if v == 4 {
        Some(Opcode::GetUpval)
    } else if v == 5 {
        Some(Opcode::GetGlobal)
    } else if v == 6 {
        Some(Opcode::GetTable)
    } else if v == 7 {
        Some(Opcode::SetGlobal)
    } else if v == 8 {
        Some(Opcode::SetUpval)
    } else if v == 9 {
        Some(Opcode::SetTable)
    } else if v == 10 {
        Some(Opcode::NewTable)
    } else if v == 11 {
        Some(Opcode::SelfCall)
    } else if v == 12 {
        Some(Opcode::Add)
    } else if v == 13 {
        Some(Opcode::Sub)
    } else if v == 14 {
        Some(Opcode::Mul)
    } else if v == 15 {
        Some(Opcode::Div)
    } else if v == 16 {
        Some(Opcode::Mod)
    } else if v == 17 {
        Some(Opcode::Pow)
    } else if v == 18 {
        Some(Opcode::Unm)
    } else if v == 19 {
        Some(Opcode::Not)
    } else if v == 20 {
        Some(Opcode::Len)
    } else if v == 21 {
        Some(Opcode::Concat)
    } else if v == 22 {
        Some(Opcode::Jmp)
    } else if v == 23 {
        Some(Opcode::Eq)
    } else if v == 24 {
        Some(Opcode::Lt)
    } else if v == 25 {
        Some(Opcode::Le)
    } else if v == 26 {
        Some(Opcode::Test)
    } else if v == 27 {
        Some(Opcode::TestSet)
    } else if v == 28 {
        Some(Opcode::Call)
    } else if v == 29 {
        Some(Opcode::TailCall)
    } else if v == 30 {
        Some(Opcode::Return)
    } else if v == 31 {
        Some(Opcode::ForLoop)
    } else if v == 32 {
        Some(Opcode::ForPrep)
    } else if v == 33 {
        Some(Opcode::TForLoop)
    } else if v == 34 {
        Some(Opcode::SetList)
    } else if v == 35 {
        Some(Opcode::Close)
    } else if v == 36 {
        Some(Opcode::Closure)
    } else if v == 37 {
        Some(Opcode::Vararg)
    } else {
        None
    }
}

/// The operand format each opcode declares.
pub open spec fn spec_format(op: Opcode) -> InstructionFormat {
    match op {
        Opcode::LoadK => InstructionFormat::ABx,
        Opcode::GetGlobal => InstructionFormat::ABx,
        Opcode::SetGlobal => InstructionFormat::ABx,
        Opcode::Closure => InstructionFormat::ABx,
        Opcode::Jmp => InstructionFormat::AsBx,
        Opcode::ForLoop => InstructionFormat::AsBx,
        Opcode::ForPrep => InstructionFormat::AsBx,
        _ => InstructionFormat::ABC,
    }
}

/// The opcode field: the six low bits of the word.
pub open spec fn spec_opcode_field(w: u32) -> u8 {
    (w % 64) as u8
}

/// The A field: eight bits above the opcode field.
pub open spec fn spec_a_field(w: u32) -> u8 {
    ((w / 64) % 256) as u8
}

/// The C field: nine bits above the A field.
pub open spec fn spec_c_field(w: u32) -> u16 {
    ((w / 16384) % 512) as u16
}

/// The B field: the nine top bits of the word.
pub open spec fn spec_b_field(w: u32) -> u16 {
    (w / 8388608) as u16
}

/// The wide field: the eighteen top bits of the word.
pub open spec fn spec_bx_field(w: u32) -> u32 {
    w / 16384
}

/// The wide field read as a signed offset: the raw value minus the bias.
pub open spec fn spec_sbx_field(w: u32) -> i32 {
    (w / 16384 - WIDE_FIELD_BIAS) as i32
}

/// What one instruction word decodes to: the opcode named by the low six
/// bits, with the remaining bits split per the opcode's format, or
/// `UnknownOpcode` when the opcode field value has no table entry.
#[verifier::opaque]
pub open spec fn spec_decode_instruction(w: u32) -> Result<Instruction, DecodeError> {
    match spec_opcode(spec_opcode_field(w)) {
        None => Err(DecodeError::UnknownOpcode(spec_opcode_field(w))),
        Some(op) => match spec_format(op) {
            InstructionFormat::ABC => Ok(
                Instruction::ABC {
                    opcode: op,
                    a: spec_a_field(w),
                    b: spec_b_field(w),
                    c: spec_c_field(w),
                },
            ),
            InstructionFormat::ABx => Ok(
                Instruction::ABx { opcode: op, a: spec_a_field(w), bx: spec_bx_field(w) },
            ),
            InstructionFormat::AsBx => Ok(
                Instruction::AsBx { opcode: op, a: spec_a_field(w), sbx: spec_sbx_field(w) },
            ),
        },
    }
}

impl Opcode {
    /// Looks an opcode field value up in the opcode table.
    pub fn from_field(v: u8) -> (r: Option<Opcode>)
        ensures
            r == spec_opcode(v),
    {
        proof {
            reveal(spec_opcode);
        }
        match v {
            0 => Some(Opcode::Move),
            1 => Some(Opcode::LoadK),
            2 => Some(Opcode::LoadBool),
            3 => Some(Opcode::LoadNil),
            4 => Some(Opcode::GetUpval),
            5 => Some(Opcode::GetGlobal),
            6 => Some(Opcode::GetTable),
            7 => Some(Opcode::SetGlobal),
            8 => Some(Opcode::SetUpval),
            9 => Some(Opcode::SetTable),
            10 => Some(Opcode::NewTable),
            11 => Some(Opcode::SelfCall),
            12 => Some(Opcode::Add),
            13 => Some(Opcode::Sub),
            14 => Some(Opcode::Mul),
            15 => Some(Opcode::Div),
            16 => Some(Opcode::Mod),
            17 => Some(Opcode::Pow),
            18 => Some(Opcode::Unm),
            19 => Some(Opcode::Not),
            20 => Some(Opcode::Len),
            21 => Some(Opcode::Concat),
            22 => Some(Opcode::Jmp),
            23 => Some(Opcode::Eq),
            24 => Some(Opcode::Lt),
            25 => Some(Opcode::Le),
            26 => Some(Opcode::Test),
            27 => Some(Opcode::TestSet),
            28 => Some(Opcode::Call),
            29 => Some(Opcode::TailCall),
            30 => Some(Opcode::Return),
            31 => Some(Opcode::ForLoop),
            32 => Some(Opcode::ForPrep),
            33 => Some(Opcode::TForLoop),
            34 => Some(Opcode::SetList),
            35 => Some(Opcode::Close),
            36 => Some(Opcode::Closure),
            37 => Some(Opcode::Vararg),
            _ => None,
        }
    }

    /// The operand format this opcode declares.
    pub fn format(&self) -> (r: InstructionFormat)
        ensures
            r == spec_format(*self),
    {
        match self {
            Opcode::LoadK => InstructionFormat::ABx,
            Opcode::GetGlobal => InstructionFormat::ABx,
            Opcode::SetGlobal => InstructionFormat::ABx,
            Opcode::Closure => InstructionFormat::ABx,
            Opcode::Jmp => InstructionFormat::AsBx,
            Opcode::ForLoop => InstructionFormat::AsBx,
            Opcode::ForPrep => InstructionFormat::AsBx,
            _ => InstructionFormat::ABC,
        }
    }

    /// Decodes one instruction word into its opcode and operand fields.
    pub fn decode(word: u32) -> (r: Result<Instruction, DecodeError>)
        ensures
            r == spec_decode_instruction(word),
    {
        proof {
            reveal(spec_decode_instruction);
        }
        let field = (word % 64) as u8;
        match Opcode::from_field(field) {
            None => Err(DecodeError::UnknownOpcode(field)),
            Some(op) => match op.format() {
                InstructionFormat::ABC => Ok(
                    Instruction::ABC {
                        opcode: op,
                        a: ((word / 64) % 256) as u8,
                        b: (word / 8388608) as u16,
                        c: ((word / 16384) % 512) as u16,
                    },
                ),
                InstructionFormat::ABx => Ok(
                    Instruction::ABx { opcode: op, a: ((word / 64) % 256) as u8, bx: word / 16384 },
                ),
                InstructionFormat::AsBx => Ok(
                    Instruction::AsBx {
                        opcode: op,
                        a: ((word / 64) % 256) as u8,
                        sbx: (word / 16384) as i32 - (WIDE_FIELD_BIAS as i32),
                    },
                ),
            },
        }
    }
}

/// The instruction arrays of `n` further words starting at `off`: each word
/// is decoded independently, and the first failure fails the whole array.
pub open spec fn spec_parse_code(s: Seq<u8>, off: int, order: ByteOrder, n: nat) -> Result<
    (Seq<Instruction>, int),
    DecodeError,
>
    decreases n,
{
    if n == 0 {
        Ok((Seq::empty(), off))
    } else if off + 4 > s.len() {
        Err(DecodeError::UnexpectedEndOfInput)
    } else {
        match spec_decode_instruction(u32_at(s, off, order)) {
            Err(e) => Err(e),
            Ok(inst) => match spec_parse_code(s, off + 4, order, (n - 1) as nat) {
                Err(e) => Err(e),
                Ok(rest) => Ok((seq![inst] + rest.0, rest.1)),
            },
        }
    }
}

/// The instruction array at `off`: a four-byte count, then that many
/// four-byte words, each decoded independently.
pub open spec fn spec_parse_instruction_list(s: Seq<u8>, off: int, order: ByteOrder) -> Result<
    (Seq<Instruction>, int),
    DecodeError,
> {
    if off + 4 > s.len() {
        Err(DecodeError::UnexpectedEndOfInput)
    } else {
        spec_parse_code(s, off + 4, order, u32_at(s, off, order) as nat)
    }
}

/// The decoded instruction array of one chunk.
#[derive(Debug)]
pub struct Instructions(pub Vec<Instruction>);

impl Instructions {
    /// Reads a four-byte count and then that many instruction words. On
    /// success the offset stands just past the last word; on failure it is
    /// unchanged and nothing of the array is returned.
    #[verifier::rlimit(60)]
    #[verifier::loop_isolation(false)]
    pub fn read(src: &[u8], offset: &mut usize, order: ByteOrder) -> (r: Result<
        Instructions,
        DecodeError,
    >)
        ensures
            match spec_parse_instruction_list(src@, *old(offset) as int, order) {
                Ok(v) => r is Ok && r->Ok_0.0@ == v.0 && *final(offset) == v.1 && *old(offset)
                    <= *final(offset) <= src@.len(),
                Err(e) => r == Err::<Instructions, DecodeError>(e) && *final(offset) == *old(
                    offset,
                ),
            },
    {
        let ghost s = src@;
        let ghost off0 = *offset as int;
        let mut pos: usize = *offset;
        let count = match read_u32(src, &mut pos, order) {
            Ok(c) => c,
            Err(e) => {
                return Err(e);
            },
        };
        let mut acc: Vec<Instruction> = Vec::new();
        let mut i: u32 = 0;
        while i < count
            invariant
                src@ == s,
                i <= count,
                acc@.len() == i,
                off0 + 4 <= pos <= s.len(),
                spec_parse_instruction_list(s, off0, order) == (match spec_parse_code(
                    s,
                    pos as int,
                    order,
                    (count - i) as nat,
                ) {
                    Ok(v) => Ok::<(Seq<Instruction>, int), DecodeError>((acc@ + v.0, v.1)),
                    Err(e) => Err::<(Seq<Instruction>, int), DecodeError>(e),
                }),
            decreases count - i,
        {
            let word = match read_u32(src, &mut pos, order) {
                Ok(w) => w,
                Err(e) => {
                    return Err(e);
                },
            };
            let inst = match Opcode::decode(word) {
                Ok(inst) => inst,
                Err(e) => {
                    return Err(e);
                },
            };
            let ghost acc_old = acc@;
            acc.push(inst);
            proof {
                assert(acc@ =~= acc_old + seq![inst]);
                if let Ok(v) = spec_parse_code(s, pos as int, order, (count - i - 1) as nat) {
                    assert(acc_old + (seq![inst] + v.0) =~= acc@ + v.0);
                }
            }
            i = i + 1;
        }
        *offset = pos;
        proof {
            assert(spec_parse_code(s, pos as int, order, 0) == Ok::<
                (Seq<Instruction>, int),
                DecodeError,
            >((Seq::<Instruction>::empty(), pos as int)));
            assert(acc@ + Seq::<Instruction>::empty() =~= acc@);
        }
        Ok(Instructions(acc))
    }
}

/// Law: in the signed wide format, a raw wide field equal to the bias
/// decodes to a signed offset of exactly zero.
pub proof fn lemma_bias_decodes_to_zero(w: u32)
    requires
        spec_bx_field(w) == WIDE_FIELD_BIAS,
    ensures
        spec_sbx_field(w) == 0,
{
}

/// Law: an instruction word whose opcode field value has no table entry
/// decodes to `UnknownOpcode` carrying that value.
pub proof fn lemma_unknown_opcode(w: u32)
    requires
        spec_opcode_field(w) > 37,
    ensures
        spec_decode_instruction(w) == Err::<Instruction, DecodeError>(
            DecodeError::UnknownOpcode(spec_opcode_field(w)),
        ),
{
    reveal(spec_opcode);
    reveal(spec_decode_instruction);
}

/// A successful word-sequence parse ends within the buffer and not before
/// its start.
pub proof fn lemma_parse_code_bounds(s: Seq<u8>, off: int, order: ByteOrder, n: nat)
    requires
        off <= s.len(),
    ensures
        spec_parse_code(s, off, order, n) matches Ok(v) ==> off <= v.1 <= s.len(),
    decreases n,
{
    if n > 0 && off + 4 <= s.len() {
        if spec_decode_instruction(u32_at(s, off, order)) is Ok {
            lemma_parse_code_bounds(s, off + 4, order, (n - 1) as nat);
        }
    }
}

/// A successful instruction-array parse ends past its count field and
/// within the buffer.
pub proof fn lemma_parse_instruction_list_bounds(s: Seq<u8>, off: int, order: ByteOrder)
    ensures
        spec_parse_instruction_list(s, off, order) matches Ok(v) ==> off < v.1 <= s.len(),
{
    if off + 4 <= s.len() {
        lemma_parse_code_bounds(s, off + 4, order, u32_at(s, off, order) as nat);
    }
}

/// Cutting the buffer anywhere at or past the end of a word sequence
/// leaves its parse unchanged.
pub proof fn lemma_code_prefix_agreement(s: Seq<u8>, off: int, order: ByteOrder, n: nat, m: int)
    requires
        0 <= off,
        spec_parse_code(s, off, order, n) is Ok,
        spec_parse_code(s, off, order, n)->Ok_0.1 <= m <= s.len(),
        off <= spec_parse_code(s, off, order, n)->Ok_0.1,
    ensures
        spec_parse_code(s.subrange(0, m), off, order, n) == spec_parse_code(s, off, order, n),
    decreases n,
{
    let t = s.subrange(0, m);
    assert forall|i: int| 0 <= i < m implies t[i] == s[i] by {}
    if n > 0 {
        lemma_parse_code_bounds(s, off + 4, order, (n - 1) as nat);
        assert(u32_at(t, off, order) == u32_at(s, off, order));
        lemma_code_prefix_agreement(s, off + 4, order, (n - 1) as nat, m);
    }
}

/// Law: a buffer cut short of what a word count declares fails with
/// `UnexpectedEndOfInput`.
pub proof fn lemma_code_truncation(s: Seq<u8>, off: int, order: ByteOrder, n: nat, m: int)
    requires
        0 <= off,
        spec_parse_code(s, off, order, n) is Ok,
        off <= m < spec_parse_code(s, off, order, n)->Ok_0.1,
        m <= s.len(),
    ensures
        spec_parse_code(s.subrange(0, m), off, order, n) == Err::<
            (Seq<Instruction>, int),
            DecodeError,
        >(DecodeError::UnexpectedEndOfInput),
    decreases n,
{
    let t = s.subrange(0, m);
    assert forall|i: int| 0 <= i < m implies t[i] == s[i] by {}
    if n > 0 {
        lemma_parse_code_bounds(s, off + 4, order, (n - 1) as nat);
        if off + 4 <= m {
            assert(u32_at(t, off, order) == u32_at(s, off, order));
            lemma_code_truncation(s, off + 4, order, (n - 1) as nat, m);
        }
    }
}

/// Law: a buffer cut short of what an instruction array's count implies
/// always fails with `UnexpectedEndOfInput`; cut at or past the array's
/// end, the parse is unchanged.
pub proof fn lemma_instruction_list_truncation(s: Seq<u8>, off: int, order: ByteOrder, m: int)
    requires
        0 <= off,
        spec_parse_instruction_list(s, off, order) is Ok,
        off <= m <= s.len(),
    ensures
        m < spec_parse_instruction_list(s, off, order)->Ok_0.1 ==> spec_parse_instruction_list(
            s.subrange(0, m),
            off,
            order,
        ) == Err::<(Seq<Instruction>, int), DecodeError>(DecodeError::UnexpectedEndOfInput),
        m >= spec_parse_instruction_list(s, off, order)->Ok_0.1 ==> spec_parse_instruction_list(
            s.subrange(0, m),
            off,
            order,
        ) == spec_parse_instruction_list(s, off, order),
{
    let t = s.subrange(0, m);
    assert forall|i: int| 0 <= i < m implies t[i] == s[i] by {}
    let n = u32_at(s, off, order) as nat;
    lemma_parse_code_bounds(s, off + 4, order, n);
    if off + 4 <= m {
        assert(u32_at(t, off, order) == u32_at(s, off, order));
        if m < spec_parse_instruction_list(s, off, order)->Ok_0.1 {
            lemma_code_truncation(s, off + 4, order, n, m);
        } else {
            lemma_code_prefix_agreement(s, off + 4, order, n, m);
        }
    }
}


} // verus!
