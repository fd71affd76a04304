use vstd::prelude::*;

verus! {

/// The largest value a machine word holds.
pub const WORD_MAX: u16 = 0xFFFF;

/// The operations of the machine, without their operands.
///
/// The numeric encoding of each operation is given by `Operation::code` and is the
/// wire format between the assembler and the interpreter.
#[derive(Clone, Copy, Debug, PartialEq, Eq, Structural)]
pub enum Operation {
    NOP,
    DEF,
    MOV,
    ADD,
    SUB,
    INC,
    DEC,
    MUL,
    DIV,
    MOD,
    AND,
    OR,
    XOR,
    NOT,
    SHL,
    SHR,
    JMP,
    JG,
    JL,
    JZ,
    JNZ,
    CMP,
    PUSH,
    POP,
    IMM,
    CALL,
    RET,
    HLT,
}

/// The operation encoded by the word `w`, if any.
pub open spec fn operation_of(w: u16) -> Option<Operation> {
    if w == 0x020 {
        Some(Operation::NOP)
    } else if w == 0x021 {
        Some(Operation::DEF)
    } else if w == 0x022 {
        Some(Operation::MOV)
    } else if w == 0x023 {
        Some(Operation::ADD)
    } else if w == 0x024 {
        Some(Operation::SUB)
    } else if w == 0x025 {
        Some(Operation::INC)
    } else if w == 0x026 {
        Some(Operation::DEC)
    } else if w == 0x027 {
        Some(Operation::MUL)
    } else if w == 0x028 {
        Some(Operation::DIV)
    } else if w == 0x029 {
        Some(Operation::MOD)
    } else if w == 0x02A {
        Some(Operation::AND)
    } else if w == 0x02B {
        Some(Operation::OR)
    } else if w == 0x02C {
        Some(Operation::XOR)
    } else if w == 0x02D {
        Some(Operation::NOT)
    } else if w == 0x02E {
        Some(Operation::SHL)
    } else if w == 0x02F {
        Some(Operation::SHR)
    } else if w == 0x030 {
        Some(Operation::JMP)
    } else if w == 0x031 {
        Some(Operation::JG)
    } else if w == 0x032 {
        Some(Operation::JL)
    } else if w == 0x033 {
        Some(Operation::JZ)
    } else if w == 0x034 {
        Some(Operation::JNZ)
    } else if w == 0x035 {
        Some(Operation::CMP)
    } else if w == 0x036 {
        Some(Operation::PUSH)
    } else if w == 0x037 {
        Some(Operation::POP)
    } else if w == 0x038 {
        Some(Operation::IMM)
    } else if w == 0x039 {
        Some(Operation::CALL)
    } else if w == 0x03A {
        Some(Operation::RET)
    } else if w == 0x03B {
        Some(Operation::HLT)
    } else {
        None
    }
}

impl Operation {
    /// The word that encodes this operation.
    pub open spec fn code(self) -> u16 {
        match self {
            Operation::NOP => 0x020,
            Operation::DEF => 0x021,
            Operation::MOV => 0x022,
            Operation::ADD => 0x023,
            Operation::SUB => 0x024,
            Operation::INC => 0x025,
            Operation::DEC => 0x026,
            Operation::MUL => 0x027,
            Operation::DIV => 0x028,
            Operation::MOD => 0x029,
            Operation::AND => 0x02A,
            Operation::OR => 0x02B,
            Operation::XOR => 0x02C,
            Operation::NOT => 0x02D,
            Operation::SHL => 0x02E,
            Operation::SHR => 0x02F,
            Operation::JMP => 0x030,
            Operation::JG => 0x031,
            Operation::JL => 0x032,
            Operation::JZ => 0x033,
            Operation::JNZ => 0x034,
            Operation::CMP => 0x035,
            Operation::PUSH => 0x036,
            Operation::POP => 0x037,
            Operation::IMM => 0x038,
            Operation::CALL => 0x039,
            Operation::RET => 0x03A,
            Operation::HLT => 0x03B,
        }
    }

    /// The word that encodes this operation; see `code`.
    pub fn to_word(&self) -> (r: u16)
        ensures
            r == self.code(),
    {
        match self {
            Operation::NOP => 0x020,
            Operation::DEF => 0x021,
            Operation::MOV => 0x022,
            Operation::ADD => 0x023,
            Operation::SUB => 0x024,
            Operation::INC => 0x025,
            Operation::DEC => 0x026,
            Operation::MUL => 0x027,
            Operation::DIV => 0x028,
            Operation::MOD => 0x029,
            Operation::AND => 0x02A,
            Operation::OR => 0x02B,
            Operation::XOR => 0x02C,
            Operation::NOT => 0x02D,
            Operation::SHL => 0x02E,
            Operation::SHR => 0x02F,
            Operation::JMP => 0x030,
            Operation::JG => 0x031,
            Operation::JL => 0x032,
            Operation::JZ => 0x033,
            Operation::JNZ => 0x034,
            Operation::CMP => 0x035,
            Operation::PUSH => 0x036,
            Operation::POP => 0x037,
            Operation::IMM => 0x038,
            Operation::CALL => 0x039,
            Operation::RET => 0x03A,
            Operation::HLT => 0x03B,
        }
    }

    /// Decodes an opcode byte; `None` for a byte that encodes no operation.
    pub fn from_u8(num: u8) -> (r: Option<Operation>)
        ensures
            r == operation_of(num as u16),
    {
        match num {
            0x020 => Some(Operation::NOP),
            0x021 => Some(Operation::DEF),
            0x022 => Some(Operation::MOV),
            0x023 => Some(Operation::ADD),
            0x024 => Some(Operation::SUB),
            0x025 => Some(Operation::INC),
            0x026 => Some(Operation::DEC),
            0x027 => Some(Operation::MUL),
            0x028 => Some(Operation::DIV),
            0x029 => Some(Operation::MOD),
            0x02A => Some(Operation::AND),
            0x02B => Some(Operation::OR),
            0x02C => Some(Operation::XOR),
            0x02D => Some(Operation::NOT),
            0x02E => Some(Operation::SHL),
            0x02F => Some(Operation::SHR),
            0x030 => Some(Operation::JMP),
            0x031 => Some(Operation::JG),
            0x032 => Some(Operation::JL),
            0x033 => Some(Operation::JZ),
            0x034 => Some(Operation::JNZ),
            0x035 => Some(Operation::CMP),
            0x036 => Some(Operation::PUSH),
            0x037 => Some(Operation::POP),
            0x038 => Some(Operation::IMM),
            0x039 => Some(Operation::CALL),
            0x03A => Some(Operation::RET),
            0x03B => Some(Operation::HLT),
            _ => None,
        }
    }

    /// Decodes a full machine word; words above a byte encode no operation.
    pub fn from_word(w: u16) -> (r: Option<Operation>)
        ensures
            r == operation_of(w),
    {
        if w <= 0xFF {
            Operation::from_u8(w as u8)
        } else {
            None
        }
    }

    /// Whether the operation transfers control to the address in its first operand.
    pub open spec fn is_branch(self) -> bool {
        match self {
            Operation::JMP | Operation::JG | Operation::JL | Operation::JZ | Operation::JNZ
            | Operation::CALL => true,
            _ => false,
        }
    }

    /// See `is_branch`.
    pub fn branches(&self) -> (r: bool)
        ensures
            r == self.is_branch(),
    {
        match self {
            Operation::JMP | Operation::JG | Operation::JL | Operation::JZ | Operation::JNZ
            | Operation::CALL => true,
            _ => false,
        }
    }
}

/// The operation whose mnemonic (upper case, as in `Operation`) is `t`, if any.
pub open spec fn operation_named(t: Seq<char>) -> Option<Operation> {
    if t =~= seq!['N', 'O', 'P'] {
        Some(Operation::NOP)
    } else if t =~= seq!['D', 'E', 'F'] {
        Some(Operation::DEF)
    } else if t =~= seq!['M', 'O', 'V'] {
        Some(Operation::MOV)
    } else if t =~= seq!['A', 'D', 'D'] {
        Some(Operation::ADD)
    } else if t =~= seq!['S', 'U', 'B'] {
        Some(Operation::SUB)
    } else if t =~= seq!['I', 'N', 'C'] {
        Some(Operation::INC)
    } else if t =~= seq!['D', 'E', 'C'] {
        Some(Operation::DEC)
    } else if t =~= seq!['M', 'U', 'L'] {
        Some(Operation::MUL)
    } else if t =~= seq!['D', 'I', 'V'] {
        Some(Operation::DIV)
    } else if t =~= seq!['M', 'O', 'D'] {
        Some(Operation::MOD)
    } else if t =~= seq!['A', 'N', 'D'] {
        Some(Operation::AND)
    } else if t =~= seq!['O', 'R'] {
        Some(Operation::OR)
    } else if t =~= seq!['X', 'O', 'R'] {
        Some(Operation::XOR)
    } else if t =~= seq!['N', 'O', 'T'] {
        Some(Operation::NOT)
    } else if t =~= seq!['S', 'H', 'L'] {
        Some(Operation::SHL)
    } else if t =~= seq!['S', 'H', 'R'] {
        Some(Operation::SHR)
    } else if t =~= seq!['J', 'M', 'P'] {
        Some(Operation::JMP)
    } else if t =~= seq!['J', 'G'] {
        Some(Operation::JG)
    } else if t =~= seq!['J', 'L'] {
        Some(Operation::JL)
    } else if t =~= seq!['J', 'Z'] {
        Some(Operation::JZ)
    } else if t =~= seq!['J', 'N', 'Z'] {
        Some(Operation::JNZ)
    } else if t =~= seq!['C', 'M', 'P'] {
        Some(Operation::CMP)
    } else if t =~= seq!['P', 'U', 'S', 'H'] {
        Some(Operation::PUSH)
    } else if t =~= seq!['P', 'O', 'P'] {
        Some(Operation::POP)
    } else if t =~= seq!['I', 'M', 'M'] {
        Some(Operation::IMM)
    } else if t =~= seq!['C', 'A', 'L', 'L'] {
        Some(Operation::CALL)
    } else if t =~= seq!['R', 'E', 'T'] {
        Some(Operation::RET)
    } else if t =~= seq!['H', 'L', 'T'] {
        Some(Operation::HLT)
    } else {
        None
    }
}

impl Operation {
    /// Looks up an operation by its mnemonic; see `operation_named`.
    pub fn from_mnemonic(t: &[char]) -> (r: Option<Operation>)
        ensures
            r == operation_named(t@),
    {
        if t.len() == 3 && t[0] == 'N' && t[1] == 'O' && t[2] == 'P' {
            assert(t@ =~= seq!['N', 'O', 'P']);
            return Some(Operation::NOP);
        }
        if t.len() == 3 && t[0] == 'D' && t[1] == 'E' && t[2] == 'F' {
            assert(t@ =~= seq!['D', 'E', 'F']);
            return Some(Operation::DEF);
        }
        if t.len() == 3 && t[0] == 'M' && t[1] == 'O' && t[2] == 'V' {
            assert(t@ =~= seq!['M', 'O', 'V']);
            return Some(Operation::MOV);
        }
        if t.len() == 3 && t[0] == 'A' && t[1] == 'D' && t[2] == 'D' {
            assert(t@ =~= seq!['A', 'D', 'D']);
            return Some(Operation::ADD);
        }
        if t.len() == 3 && t[0] == 'S' && t[1] == 'U' && t[2] == 'B' {
            assert(t@ =~= seq!['S', 'U', 'B']);
            return Some(Operation::SUB);
        }
        if t.len() == 3 && t[0] == 'I' && t[1] == 'N' && t[2] == 'C' {
            assert(t@ =~= seq!['I', 'N', 'C']);
            return Some(Operation::INC);
        }
        if t.len() == 3 && t[0] == 'D' && t[1] == 'E' && t[2] == 'C' {
            assert(t@ =~= seq!['D', 'E', 'C']);
            return Some(Operation::DEC);
        }
        if t.len() == 3 && t[0] == 'M' && t[1] == 'U' && t[2] == 'L' {
            assert(t@ =~= seq!['M', 'U', 'L']);
            return Some(Operation::MUL);
        }
        if t.len() == 3 && t[0] == 'D' && t[1] == 'I' && t[2] == 'V' {
            assert(t@ =~= seq!['D', 'I', 'V']);
            return Some(Operation::DIV);
        }
        if t.len() == 3 && t[0] == 'M' && t[1] == 'O' && t[2] == 'D' {
            assert(t@ =~= seq!['M', 'O', 'D']);
            return Some(Operation::MOD);
        }
        if t.len() == 3 && t[0] == 'A' && t[1] == 'N' && t[2] == 'D' {
            assert(t@ =~= seq!['A', 'N', 'D']);
            return Some(Operation::AND);
        }
        if t.len() == 2 && t[0] == 'O' && t[1] == 'R' {
            assert(t@ =~= seq!['O', 'R']);
            return Some(Operation::OR);
        }
        if t.len() == 3 && t[0] == 'X' && t[1] == 'O' && t[2] == 'R' {
            assert(t@ =~= seq!['X', 'O', 'R']);
            return Some(Operation::XOR);
        }
        if t.len() == 3 && t[0] == 'N' && t[1] == 'O' && t[2] == 'T' {
            assert(t@ =~= seq!['N', 'O', 'T']);
            return Some(Operation::NOT);
        }
        if t.len() == 3 && t[0] == 'S' && t[1] == 'H' && t[2] == 'L' {
            assert(t@ =~= seq!['S', 'H', 'L']);
            return Some(Operation::SHL);
        }
        if t.len() == 3 && t[0] == 'S' && t[1] == 'H' && t[2] == 'R' {
            assert(t@ =~= seq!['S', 'H', 'R']);
            return Some(Operation::SHR);
        }
        if t.len() == 3 && t[0] == 'J' && t[1] == 'M' && t[2] == 'P' {
            assert(t@ =~= seq!['J', 'M', 'P']);
            return Some(Operation::JMP);
        }
        if t.len() == 2 && t[0] == 'J' && t[1] == 'G' {
            assert(t@ =~= seq!['J', 'G']);
            return Some(Operation::JG);
        }
        if t.len() == 2 && t[0] == 'J' && t[1] == 'L' {
            assert(t@ =~= seq!['J', 'L']);
            return Some(Operation::JL);
        }
        if t.len() == 2 && t[0] == 'J' && t[1] == 'Z' {
            assert(t@ =~= seq!['J', 'Z']);
            return Some(Operation::JZ);
        }
        if t.len() == 3 && t[0] == 'J' && t[1] == 'N' && t[2] == 'Z' {
            assert(t@ =~= seq!['J', 'N', 'Z']);
            return Some(Operation::JNZ);
        }
        if t.len() == 3 && t[0] == 'C' && t[1] == 'M' && t[2] == 'P' {
            assert(t@ =~= seq!['C', 'M', 'P']);
            return Some(Operation::CMP);
        }
        if t.len() == 4 && t[0] == 'P' && t[1] == 'U' && t[2] == 'S' && t[3] == 'H' {
            assert(t@ =~= seq!['P', 'U', 'S', 'H']);
            return Some(Operation::PUSH);
        }
        if t.len() == 3 && t[0] == 'P' && t[1] == 'O' && t[2] == 'P' {
            assert(t@ =~= seq!['P', 'O', 'P']);
            return Some(Operation::POP);
        }
        if t.len() == 3 && t[0] == 'I' && t[1] == 'M' && t[2] == 'M' {
            assert(t@ =~= seq!['I', 'M', 'M']);
            return Some(Operation::IMM);
        }
        if t.len() == 4 && t[0] == 'C' && t[1] == 'A' && t[2] == 'L' && t[3] == 'L' {
            assert(t@ =~= seq!['C', 'A', 'L', 'L']);
            return Some(Operation::CALL);
        }
        if t.len() == 3 && t[0] == 'R' && t[1] == 'E' && t[2] == 'T' {
            assert(t@ =~= seq!['R', 'E', 'T']);
            return Some(Operation::RET);
        }
        if t.len() == 3 && t[0] == 'H' && t[1] == 'L' && t[2] == 'T' {
            assert(t@ =~= seq!['H', 'L', 'T']);
            return Some(Operation::HLT);
        }
        None
    }
}

/// The value of a hexadecimal digit, if `c` is one (either case).
pub open spec fn hex_digit(c: char) -> Option<nat> {
    if '0' <= c && c <= '9' {
        Some((c as nat - '0' as nat) as nat)
    } else if 'a' <= c && c <= 'f' {
        Some((c as nat - 'a' as nat + 10) as nat)
    } else if 'A' <= c && c <= 'F' {
        Some((c as nat - 'A' as nat + 10) as nat)
    } else {
        None
    }
}

/// Whether every character of `s` is a hexadecimal digit.
pub open spec fn all_hex_digits(s: Seq<char>) -> bool {
    forall|i: int| 0 <= i < s.len() ==> hex_digit(#[trigger] s[i]) is Some
}

/// The number that the hexadecimal digits `s` spell, most significant first.
pub open spec fn hex_value(s: Seq<char>) -> nat
    decreases s.len(),
{
    if s.len() == 0 {
        0
    } else {
        hex_value(s.drop_last()) * 16 + hex_digit(s.last())->0
    }
}

/// A literal token: `0x` followed by one or more hexadecimal digits whose value fits
/// a machine word.
pub open spec fn hex_literal(t: Seq<char>) -> Option<u16> {
    if t.len() > 2 && t[0] == '0' && t[1] == 'x' && all_hex_digits(t.skip(2))
        && hex_value(t.skip(2)) <= WORD_MAX {
        Some(hex_value(t.skip(2)) as u16)
    } else {
        None
    }
}

/// Appending a digit never makes the value smaller.
proof fn lemma_hex_value_grows(s: Seq<char>, i: int)
    requires
        0 <= i <= s.len(),
        all_hex_digits(s),
    ensures
        hex_value(s.take(i)) <= hex_value(s),
    decreases s.len(),
{
    if i < s.len() {
        assert(s.take(i) == s.drop_last().take(i));
        lemma_hex_value_grows(s.drop_last(), i);
    } else {
        assert(s.take(i) == s);
    }
}

fn digit_value(c: char) -> (r: Option<u32>)
    ensures
        r matches Some(v) ==> hex_digit(c) == Some(v as nat),
        r is None ==> hex_digit(c) is None,
{
    if '0' <= c && c <= '9' {
        Some(c as u32 - '0' as u32)
    } else if 'a' <= c && c <= 'f' {
        Some(c as u32 - 'a' as u32 + 10)
    } else if 'A' <= c && c <= 'F' {
        Some(c as u32 - 'A' as u32 + 10)
    } else {
        None
    }
}

/// Reads a literal token given as characters; see `hex_literal`.
pub fn parse_hex_chars(t: &[char]) -> (r: Option<u16>)
    ensures
        r == hex_literal(t@),
{
    if t.len() <= 2 || t[0] != '0' || t[1] != 'x' {
        return None;
    }
    let ghost digits = t@.skip(2);
    let mut value: u32 = 0;
    let mut i: usize = 2;
    while i < t.len()
        invariant
            2 <= i <= t.len(),
            digits == t@.skip(2),
            all_hex_digits(digits.take(i - 2)),
            value == hex_value(digits.take(i - 2)),
            value <= WORD_MAX,
        decreases t.len() - i,
    {
        let d = digit_value(t[i]);
        assert(digits.take(i - 2 + 1).drop_last() == digits.take(i - 2));
        assert(digits[i - 2] == t@[i as int]);
        match d {
            None => {
                assert(!all_hex_digits(digits));
                return None;
            },
            Some(v) => {
                let next: u32 = value * 16 + v;
                if next > 0xFFFF {
                    proof {
                        if all_hex_digits(digits) {
                            lemma_hex_value_grows(digits, i - 2 + 1);
                        }
                    }
                    return None;
                }
                value = next;
                i = i + 1;
            },
        }
    }
    assert(digits.take(i - 2) == digits);
    Some(value as u16)
}

/// Reads a literal token such as `0x1F`; `None` when the token is not one or its value
/// does not fit a machine word.
pub fn parse_hex(s: &str) -> (r: Option<u16>)
    ensures
        r == hex_literal(s@),
{
    let t = crate::text::chars_of(s);
    parse_hex_chars(t.as_slice())
}

/// A decoded row: an operation with its operands. Operands are addresses, except the
/// branch target of the jumps and `CALL`, the literal of `IMM` and the exit code of `HLT`.
#[derive(Clone, Copy, Debug, PartialEq, Eq, Structural)]
pub enum Instruction {
    NOP,
    DEF,
    /// `MOV src dest`
    MOV(u16, u16),
    /// `ADD src dest`
    ADD(u16, u16),
    /// `SUB src dest`
    SUB(u16, u16),
    /// `INC dest`
    INC(u16),
    /// `DEC dest`
    DEC(u16),
    /// `MUL src dest`
    MUL(u16, u16),
    /// `DIV src dest`
    DIV(u16, u16),
    /// `MOD src dest`
    MOD(u16, u16),
    /// `AND src dest`
    AND(u16, u16),
    /// `OR src dest`
    OR(u16, u16),
    /// `XOR src dest`
    XOR(u16, u16),
    /// `NOT dest`
    NOT(u16),
    /// `SHL amount dest`
    SHL(u16, u16),
    /// `SHR amount dest`
    SHR(u16, u16),
    /// `JMP target`
    JMP(u16),
    /// `JG target a b`
    JG(u16, u16, u16),
    /// `JL target a b`
    JL(u16, u16, u16),
    /// `JZ target a`
    JZ(u16, u16),
    /// `JNZ target a`
    JNZ(u16, u16),
    /// `CMP a b`
    CMP(u16, u16),
    /// `PUSH src`
    PUSH(u16),
    /// `POP dest`
    POP(u16),
    /// `IMM literal dest`
    IMM(u16, u16),
    /// `CALL target`
    CALL(u16),
    RET,
    /// `HLT exit_code`
    HLT(u16),
}

/// Why a row does not decode.
#[derive(Clone, Copy, Debug, PartialEq, Eq, Structural)]
pub enum DecodeError {
    /// The row has no words.
    EmptyRow,
    /// The first word encodes no operation.
    UnknownOperation { code: u16 },
    /// The row has fewer operands than the operation takes.
    MissingOperand { op: Operation },
}

/// The number of operands that an operation takes.
pub open spec fn arity(op: Operation) -> nat {
    match op {
        Operation::NOP | Operation::DEF | Operation::RET => 0,
        Operation::INC | Operation::DEC | Operation::NOT | Operation::JMP | Operation::PUSH
        | Operation::POP | Operation::CALL | Operation::HLT => 1,
        Operation::JG | Operation::JL => 3,
        _ => 2,
    }
}

/// The instruction that operation `op` forms with the operands that follow it in `row`.
pub open spec fn build(op: Operation, row: Seq<u16>) -> Instruction {
    match op {
        Operation::NOP => Instruction::NOP,
        Operation::DEF => Instruction::DEF,
        Operation::RET => Instruction::RET,
        Operation::MOV => Instruction::MOV(row[1], row[2]),
        Operation::ADD => Instruction::ADD(row[1], row[2]),
        Operation::SUB => Instruction::SUB(row[1], row[2]),
        Operation::MUL => Instruction::MUL(row[1], row[2]),
        Operation::DIV => Instruction::DIV(row[1], row[2]),
        Operation::MOD => Instruction::MOD(row[1], row[2]),
        Operation::AND => Instruction::AND(row[1], row[2]),
        Operation::OR => Instruction::OR(row[1], row[2]),
        Operation::XOR => Instruction::XOR(row[1], row[2]),
        Operation::SHL => Instruction::SHL(row[1], row[2]),
        Operation::SHR => Instruction::SHR(row[1], row[2]),
        Operation::IMM => Instruction::IMM(row[1], row[2]),
        Operation::CMP => Instruction::CMP(row[1], row[2]),
        Operation::JZ => Instruction::JZ(row[1], row[2]),
        Operation::JNZ => Instruction::JNZ(row[1], row[2]),
        Operation::INC => Instruction::INC(row[1]),
        Operation::DEC => Instruction::DEC(row[1]),
        Operation::NOT => Instruction::NOT(row[1]),
        Operation::JMP => Instruction::JMP(row[1]),
        Operation::PUSH => Instruction::PUSH(row[1]),
        Operation::POP => Instruction::POP(row[1]),
        Operation::CALL => Instruction::CALL(row[1]),
        Operation::HLT => Instruction::HLT(row[1]),
        Operation::JG => Instruction::JG(row[1], row[2], row[3]),
        Operation::JL => Instruction::JL(row[1], row[2], row[3]),
    }
}

/// The instruction that a row encodes: its first word is the operation and the words
/// after it are the operands; words beyond the operation's operands are ignored.
pub open spec fn decode(row: Seq<u16>) -> Result<Instruction, DecodeError> {
    if row.len() == 0 {
        Err(DecodeError::EmptyRow)
    } else {
        match operation_of(row[0]) {
            None => Err(DecodeError::UnknownOperation { code: row[0] }),
            Some(op) => if row.len() < arity(op) + 1 {
                Err(DecodeError::MissingOperand { op })
            } else {
                Ok(build(op, row))
            },
        }
    }
}

impl Instruction {
    /// Decodes a row; see `decode`.
    pub fn decode(row: &[u16]) -> (r: Result<Instruction, DecodeError>)
        ensures
            r == decode(row@),
    {
        if row.len() == 0 {
            return Err(DecodeError::EmptyRow);
        }
        let op = match Operation::from_word(row[0]) {
            None => {
                return Err(DecodeError::UnknownOperation { code: row[0] });
            },
            Some(op) => op,
        };
        let n: usize = match op {
            Operation::NOP | Operation::DEF | Operation::RET => 0,
            Operation::INC | Operation::DEC | Operation::NOT | Operation::JMP | Operation::PUSH
            | Operation::POP | Operation::CALL | Operation::HLT => 1,
            Operation::JG | Operation::JL => 3,
            _ => 2,
        };
        if row.len() < n + 1 {
            return Err(DecodeError::MissingOperand { op });
        }
        let ins = match op {
            Operation::NOP => Instruction::NOP,
            Operation::DEF => Instruction::DEF,
            Operation::RET => Instruction::RET,
            Operation::MOV => Instruction::MOV(row[1], row[2]),
            Operation::ADD => Instruction::ADD(row[1], row[2]),
            Operation::SUB => Instruction::SUB(row[1], row[2]),
            Operation::MUL => Instruction::MUL(row[1], row[2]),
            Operation::DIV => Instruction::DIV(row[1], row[2]),
            Operation::MOD => Instruction::MOD(row[1], row[2]),
            Operation::AND => Instruction::AND(row[1], row[2]),
            Operation::OR => Instruction::OR(row[1], row[2]),
            Operation::XOR => Instruction::XOR(row[1], row[2]),
            Operation::SHL => Instruction::SHL(row[1], row[2]),
            Operation::SHR => Instruction::SHR(row[1], row[2]),
            Operation::IMM => Instruction::IMM(row[1], row[2]),
            Operation::CMP => Instruction::CMP(row[1], row[2]),
            Operation::JZ => Instruction::JZ(row[1], row[2]),
            Operation::JNZ => Instruction::JNZ(row[1], row[2]),
            Operation::INC => Instruction::INC(row[1]),
            Operation::DEC => Instruction::DEC(row[1]),
            Operation::NOT => Instruction::NOT(row[1]),
            Operation::JMP => Instruction::JMP(row[1]),
            Operation::PUSH => Instruction::PUSH(row[1]),
            Operation::POP => Instruction::POP(row[1]),
            Operation::CALL => Instruction::CALL(row[1]),
            Operation::HLT => Instruction::HLT(row[1]),
            Operation::JG => Instruction::JG(row[1], row[2], row[3]),
            Operation::JL => Instruction::JL(row[1], row[2], row[3]),
        };
        Ok(ins)
    }
}

} // verus!
