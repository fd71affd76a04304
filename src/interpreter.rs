use vstd::prelude::*;
use crate::compiler::rows_view;
use crate::instruction::{decode, DecodeError, Instruction, Operation};

verus! {

/// The number of words of machine memory.
pub const MEMORY_SIZE: usize = 4096;

/// The program counter: the index of the row to run next.
pub const PC_ADDR: u16 = 0x010;

/// The stack pointer: how many words are on the stack.
pub const SP_ADDR: u16 = 0x011;

/// The stack base: the address below the first stack slot.
pub const BASE_ADDR: u16 = 0x012;

/// The carry flag, which `CMP` sets.
pub const CARRY_ADDR: u16 = 0x013;

/// The return register, which `HLT` sets to its exit code.
pub const RET_ADDR: u16 = 0x014;

/// Where the stack region starts: the initial value of the stack base.
pub const STACK_BASE: u16 = 0xFE0;

/// The bit rule for operand addresses: an address whose low five bits and whose bits
/// six to eleven are all zero is reserved.
pub open spec fn address_ok(a: u16) -> bool {
    (a & 0x1F) > 0 || (a & 0xFC0) > 0
}

/// Whether an operand address may be read and written: it passes the bit rule and lies
/// inside memory. An instruction with an operand that is not usable has no effect but
/// the step to the next row.
pub open spec fn usable(a: u16) -> bool {
    (a as int) < MEMORY_SIZE && address_ok(a)
}

/// An integer reduced to a machine word, modulo 2^16.
pub open spec fn wrap(x: int) -> u16 {
    (x % 0x10000) as u16
}

/// Memory with the program counter moved to the next row.
pub open spec fn advance(m: Seq<u16>) -> Seq<u16> {
    m.update(PC_ADDR as int, wrap(m[PC_ADDR as int] + 1))
}

/// The address of stack slot `sp`: the stack base plus `sp`, modulo the memory size.
pub open spec fn stack_slot(m: Seq<u16>, sp: u16) -> int {
    (m[BASE_ADDR as int] + sp) % (MEMORY_SIZE as int)
}

/// Memory as a run starts: all zero but the stack base.
pub open spec fn initial_memory() -> Seq<u16> {
    Seq::new(MEMORY_SIZE as nat, |i: int| if i == BASE_ADDR { STACK_BASE } else { 0u16 })
}

/// Why a run stopped with an error, with the program counter of the failing row.
#[derive(Clone, Copy, Debug, PartialEq, Eq, Structural)]
pub enum RuntimeError {
    /// The row has no words.
    EmptyRow { pc: u16 },
    /// The row's first word encodes no operation.
    UnknownOperation { pc: u16, code: u16 },
    /// The row has fewer operands than its operation takes.
    MissingOperand { pc: u16, op: Operation },
    /// `DIV` or `MOD` by a zero word.
    DivisionByZero { pc: u16 },
    /// `RET` with an empty stack.
    StackUnderflow { pc: u16 },
}

/// A decoding failure at row `pc`.
pub open spec fn decode_failure(e: DecodeError, pc: u16) -> RuntimeError {
    match e {
        DecodeError::EmptyRow => RuntimeError::EmptyRow { pc },
        DecodeError::UnknownOperation { code } => RuntimeError::UnknownOperation { pc, code },
        DecodeError::MissingOperand { op } => RuntimeError::MissingOperand { pc, op },
    }
}

/// Whether an instruction divides by its source operand.
pub open spec fn divides(ins: Instruction) -> bool {
    ins matches Instruction::DIV(_, _) || ins matches Instruction::MOD(_, _)
}

/// What a two-operand data instruction stores in its destination, from the destination
/// value `d` and the source value `s`. Arithmetic wraps; shifts by 16 or more give 0.
pub open spec fn combine(ins: Instruction, d: u16, s: u16) -> u16 {
    match ins {
        Instruction::ADD(_, _) => wrap(d + s),
        Instruction::SUB(_, _) => wrap(d - s),
        Instruction::MUL(_, _) => wrap(d * s),
        Instruction::DIV(_, _) => (d / s) as u16,
        Instruction::MOD(_, _) => (d % s) as u16,
        Instruction::AND(_, _) => d & s,
        Instruction::OR(_, _) => d | s,
        Instruction::XOR(_, _) => d ^ s,
        Instruction::SHL(_, _) => if s < 16 {
            d << s
        } else {
            0
        },
        Instruction::SHR(_, _) => if s < 16 {
            d >> s
        } else {
            0
        },
        _ => s,
    }
}

/// What a one-operand data instruction stores in its destination, from its value `d`.
pub open spec fn update_one(ins: Instruction, d: u16) -> u16 {
    match ins {
        Instruction::INC(_) => wrap(d + 1),
        Instruction::DEC(_) => wrap(d - 1),
        _ => !d,
    }
}

/// A two-operand data instruction with source `s` and destination `d`.
pub open spec fn run_binary(m: Seq<u16>, ins: Instruction, s: u16, d: u16) -> Result<
    (Seq<u16>, bool),
    RuntimeError,
> {
    if usable(s) && usable(d) {
        if divides(ins) && m[s as int] == 0 {
            Err(RuntimeError::DivisionByZero { pc: m[PC_ADDR as int] })
        } else {
            Ok((advance(m.update(d as int, combine(ins, m[d as int], m[s as int]))), false))
        }
    } else {
        Ok((advance(m), false))
    }
}

/// A one-operand data instruction with destination `d`.
pub open spec fn run_unary(m: Seq<u16>, ins: Instruction, d: u16) -> Seq<u16> {
    if usable(d) {
        advance(m.update(d as int, update_one(ins, m[d as int])))
    } else {
        advance(m)
    }
}

/// A branch to `target` when `taken` holds, else the step to the next row.
pub open spec fn branch(m: Seq<u16>, target: u16, taken: bool) -> Seq<u16> {
    if taken {
        m.update(PC_ADDR as int, target)
    } else {
        advance(m)
    }
}

/// The effect of one instruction on memory `m`, and whether it halts the machine.
///
/// Straight-line instructions end by moving the program counter to the next row;
/// branches set it themselves. The stack grows upward from the stack base: `PUSH` and
/// `CALL` first increment the stack pointer and then write the slot it names, `POP` and
/// `RET` read that slot and then decrement it. `CALL` pushes its own row index and `RET`
/// resumes one row after the index it pops.
pub open spec fn execute(m: Seq<u16>, ins: Instruction) -> Result<(Seq<u16>, bool), RuntimeError> {
    let pc = m[PC_ADDR as int];
    match ins {
        Instruction::NOP => Ok((advance(m), false)),
        Instruction::DEF => Ok((advance(m), false)),
        Instruction::MOV(src, dest) => run_binary(m, ins, src, dest),
        Instruction::ADD(src, dest) => run_binary(m, ins, src, dest),
        Instruction::SUB(src, dest) => run_binary(m, ins, src, dest),
        Instruction::MUL(src, dest) => run_binary(m, ins, src, dest),
        Instruction::DIV(src, dest) => run_binary(m, ins, src, dest),
        Instruction::MOD(src, dest) => run_binary(m, ins, src, dest),
        Instruction::AND(src, dest) => run_binary(m, ins, src, dest),
        Instruction::OR(src, dest) => run_binary(m, ins, src, dest),
        Instruction::XOR(src, dest) => run_binary(m, ins, src, dest),
        Instruction::SHL(src, dest) => run_binary(m, ins, src, dest),
        Instruction::SHR(src, dest) => run_binary(m, ins, src, dest),
        Instruction::INC(dest) => Ok((run_unary(m, ins, dest), false)),
        Instruction::DEC(dest) => Ok((run_unary(m, ins, dest), false)),
        Instruction::NOT(dest) => Ok((run_unary(m, ins, dest), false)),
        Instruction::IMM(v, dest) => Ok(
            (if usable(dest) {
                advance(m.update(dest as int, v))
            } else {
                advance(m)
            }, false),
        ),
        Instruction::JMP(t) => Ok((m.update(PC_ADDR as int, t), false)),
        Instruction::JG(t, a, b) => Ok(
            (branch(m, t, usable(a) && usable(b) && m[a as int] > m[b as int]), false),
        ),
        Instruction::JL(t, a, b) => Ok(
            (branch(m, t, usable(a) && usable(b) && m[a as int] < m[b as int]), false),
        ),
        Instruction::JZ(t, a) => Ok((branch(m, t, usable(a) && m[a as int] == 0), false)),
        Instruction::JNZ(t, a) => Ok((branch(m, t, usable(a) && m[a as int] != 0), false)),
        Instruction::CMP(a, b) => Ok(
            (if usable(a) && usable(b) && m[a as int] == m[b as int] {
                advance(m.update(CARRY_ADDR as int, 1))
            } else {
                advance(m)
            }, false),
        ),
        Instruction::PUSH(src) => Ok(
            (if usable(src) {
                let sp = wrap(m[SP_ADDR as int] + 1);
                let m1 = m.update(SP_ADDR as int, sp);
                advance(m1.update(stack_slot(m1, sp), m1[src as int]))
            } else {
                advance(m)
            }, false),
        ),
        Instruction::POP(dest) => Ok(
            (if usable(dest) {
                let m1 = m.update(dest as int, m[stack_slot(m, m[SP_ADDR as int])]);
                advance(m1.update(SP_ADDR as int, wrap(m1[SP_ADDR as int] - 1)))
            } else {
                advance(m)
            }, false),
        ),
        Instruction::CALL(t) => {
            let sp = wrap(m[SP_ADDR as int] + 1);
            let m1 = m.update(SP_ADDR as int, sp);
            Ok((m1.update(stack_slot(m1, sp), pc).update(PC_ADDR as int, t), false))
        },
        Instruction::RET => if m[SP_ADDR as int] == 0 {
            Err(RuntimeError::StackUnderflow { pc })
        } else {
            let back = m[stack_slot(m, m[SP_ADDR as int])];
            let m1 = m.update(SP_ADDR as int, wrap(m[SP_ADDR as int] - 1));
            Ok((m1.update(PC_ADDR as int, wrap(back + 1)), false))
        },
        Instruction::HLT(code) => Ok((m.update(RET_ADDR as int, code), true)),
    }
}

/// One fetch-decode-execute step of `program` on memory `m`: past the last row the
/// machine halts as `HLT 0` would.
pub open spec fn step(program: Seq<Seq<u16>>, m: Seq<u16>) -> Result<(Seq<u16>, bool), RuntimeError> {
    let pc = m[PC_ADDR as int];
    if pc >= program.len() {
        Ok((m.update(RET_ADDR as int, 0), true))
    } else {
        match decode(program[pc as int]) {
            Err(e) => Err(decode_failure(e, pc)),
            Ok(ins) => execute(m, ins),
        }
    }
}

/// Whether a run stopped because the machine halted or because its step budget ran out.
#[derive(Clone, Copy, Debug, PartialEq, Eq, Structural)]
pub enum Status {
    Halted,
    Running,
}

/// At most `fuel` steps of `program` from memory `m`: the memory they leave and how the
/// run ended. A failing step leaves memory as it was before that step.
pub open spec fn run(program: Seq<Seq<u16>>, m: Seq<u16>, fuel: nat) -> (Seq<u16>, Result<
    Status,
    RuntimeError,
>)
    decreases fuel,
{
    if fuel == 0 {
        (m, Ok(Status::Running))
    } else {
        match step(program, m) {
            Err(e) => (m, Err(e)),
            Ok((m1, true)) => (m1, Ok(Status::Halted)),
            Ok((m1, false)) => run(program, m1, (fuel - 1) as nat),
        }
    }
}

/// The address rule of `address_ok`.
pub fn check_address(address: u16) -> (r: bool)
    ensures
        r == address_ok(address),
{
    ((address & 0x1F) > 0) || ((address & 0xFC0) > 0)
}

fn is_usable(a: u16) -> (r: bool)
    ensures
        r == usable(a),
{
    (a as usize) < MEMORY_SIZE && check_address(a)
}

fn wrapping_inc(x: u16) -> (r: u16)
    ensures
        r == wrap(x + 1),
{
    if x == 0xFFFF {
        0
    } else {
        x + 1
    }
}

fn wrapping_dec(x: u16) -> (r: u16)
    ensures
        r == wrap(x - 1),
{
    if x == 0 {
        0xFFFF
    } else {
        x - 1
    }
}

fn combine_words(ins: Instruction, d: u16, s: u16) -> (r: u16)
    requires
        !(divides(ins) && s == 0),
    ensures
        r == combine(ins, d, s),
{
    match ins {
        Instruction::ADD(_, _) => ((d as u32 + s as u32) % 0x10000) as u16,
        Instruction::SUB(_, _) => {
            proof {
                vstd::arithmetic::div_mod::lemma_mod_add_multiples_vanish(d - s, 0x10000);
            }
            ((d as u32 + 0x10000 - s as u32) % 0x10000) as u16
        },
        Instruction::MUL(_, _) => {
            assert(d * s <= 0xFFFF * 0xFFFF) by (nonlinear_arith)
                requires
                    d <= 0xFFFF,
                    s <= 0xFFFF,
            ;
            ((d as u32 * s as u32) % 0x10000) as u16
        },
        Instruction::DIV(_, _) => d / s,
        Instruction::MOD(_, _) => d % s,
        Instruction::AND(_, _) => d & s,
        Instruction::OR(_, _) => d | s,
        Instruction::XOR(_, _) => d ^ s,
        Instruction::SHL(_, _) => if s < 16 {
            d << s
        } else {
            0
        },
        Instruction::SHR(_, _) => if s < 16 {
            d >> s
        } else {
            0
        },
        _ => s,
    }
}

/// The machine: its whole memory, registers included.
pub struct Machine {
    memory: Vec<u16>,
}

impl View for Machine {
    type V = Seq<u16>;

    closed spec fn view(&self) -> Seq<u16> {
        self.memory@
    }
}

/// What a core dump shows of a machine: the row at the program counter decoded (`None`
/// past the end of the program), the reserved registers, and the two register banks
/// `0x000..0x010` and `0x010..0x020`.
pub struct CoreDump {
    pub instruction: Option<Result<Instruction, DecodeError>>,
    pub ret: u16,
    pub pc: u16,
    pub sp: u16,
    pub carry: u16,
    pub base: u16,
    pub arithmetic: Vec<u16>,
    pub reserved: Vec<u16>,
}

impl Machine {
    /// Memory always has `MEMORY_SIZE` words.
    pub open spec fn wf(&self) -> bool {
        self@.len() == MEMORY_SIZE
    }

    /// A fresh machine: memory all zero but the stack base.
    pub fn new() -> (r: Machine)
        ensures
            r.wf(),
            r@ == initial_memory(),
    {
        let mut memory: Vec<u16> = Vec::new();
        let mut i: usize = 0;
        while i < MEMORY_SIZE
            invariant
                0 <= i <= MEMORY_SIZE,
                memory@ == initial_memory().take(i as int),
            decreases MEMORY_SIZE - i,
        {
            memory.push(if i == BASE_ADDR as usize { STACK_BASE } else { 0 });
            assert(initial_memory().take(i + 1) =~= initial_memory().take(i as int).push(
                initial_memory()[i as int],
            ));
            i = i + 1;
        }
        assert(initial_memory().take(MEMORY_SIZE as int) =~= initial_memory());
        Machine { memory }
    }

    /// The word at `address`; `None` outside memory.
    pub fn read(&self, address: u16) -> (r: Option<u16>)
        requires
            self.wf(),
        ensures
            r == if (address as int) < MEMORY_SIZE {
                Some(self@[address as int])
            } else {
                None::<u16>
            },
    {
        if (address as usize) < MEMORY_SIZE {
            Some(self.memory[address as usize])
        } else {
            None
        }
    }

    fn load(&self, a: u16) -> (r: u16)
        requires
            self.wf(),
            (a as int) < MEMORY_SIZE,
        ensures
            r == self@[a as int],
    {
        self.memory[a as usize]
    }

    fn store(&mut self, a: usize, v: u16)
        requires
            old(self).wf(),
            a < MEMORY_SIZE,
        ensures
            final(self).wf(),
            final(self)@ == old(self)@.update(a as int, v),
    {
        self.memory.set(a, v);
    }

    fn slot(&self, sp: u16) -> (r: usize)
        requires
            self.wf(),
        ensures
            r == stack_slot(self@, sp),
            r < MEMORY_SIZE,
    {
        (self.load(BASE_ADDR) as usize + sp as usize) % MEMORY_SIZE
    }

    fn step_on(&mut self)
        requires
            old(self).wf(),
        ensures
            final(self).wf(),
            final(self)@ == advance(old(self)@),
    {
        let pc = self.load(PC_ADDR);
        self.store(PC_ADDR as usize, wrapping_inc(pc));
    }

    /// Runs one decoded instruction; see `execute`. A failing instruction changes
    /// nothing.
    pub fn execute(&mut self, ins: Instruction) -> (r: Result<bool, RuntimeError>)
        requires
            old(self).wf(),
        ensures
            final(self).wf(),
            match r {
                Ok(halted) => execute(old(self)@, ins) == Ok::<(Seq<u16>, bool), RuntimeError>(
                    (final(self)@, halted),
                ),
                Err(e) => execute(old(self)@, ins) == Err::<(Seq<u16>, bool), RuntimeError>(e)
                    && final(self)@ == old(self)@,
            },
    {
        let pc = self.load(PC_ADDR);
        match ins {
            Instruction::NOP | Instruction::DEF => {
                self.step_on();
                Ok(false)
            },
            Instruction::MOV(src, dest) | Instruction::ADD(src, dest) | Instruction::SUB(src, dest) | Instruction::MUL(src, dest) | Instruction::DIV(src, dest) | Instruction::MOD(src, dest) | Instruction::AND(src, dest) | Instruction::OR(src, dest) | Instruction::XOR(src, dest) | Instruction::SHL(src, dest) | Instruction::SHR(src, dest) => {
                if is_usable(src) && is_usable(dest) {
                    let sv = self.load(src);
                    let is_div = match ins {
                        Instruction::DIV(_, _) | Instruction::MOD(_, _) => true,
                        _ => false,
                    };
                    if is_div && sv == 0 {
                        return Err(RuntimeError::DivisionByZero { pc });
                    }
                    let v = combine_words(ins, self.load(dest), sv);
                    self.store(dest as usize, v);
                }
                self.step_on();
                Ok(false)
            },
            Instruction::INC(dest) | Instruction::DEC(dest) | Instruction::NOT(dest) => {
                if is_usable(dest) {
                    let d = self.load(dest);
                    let v = match ins {
                        Instruction::INC(_) => wrapping_inc(d),
                        Instruction::DEC(_) => wrapping_dec(d),
                        _ => !d,
                    };
                    self.store(dest as usize, v);
                }
                self.step_on();
                Ok(false)
            },
            Instruction::IMM(v, dest) => {
                if is_usable(dest) {
                    self.store(dest as usize, v);
                }
                self.step_on();
                Ok(false)
            },
            Instruction::JMP(t) => {
                self.store(PC_ADDR as usize, t);
                Ok(false)
            },
            Instruction::JG(t, a, b) | Instruction::JL(t, a, b) => {
                let taken = is_usable(a) && is_usable(b) && match ins {
                    Instruction::JG(_, _, _) => self.load(a) > self.load(b),
                    _ => self.load(a) < self.load(b),
                };
                if taken {
                    self.store(PC_ADDR as usize, t);
                } else {
                    self.step_on();
                }
                Ok(false)
            },
            Instruction::JZ(t, a) | Instruction::JNZ(t, a) => {
                let taken = is_usable(a) && match ins {
                    Instruction::JZ(_, _) => self.load(a) == 0,
                    _ => self.load(a) != 0,
                };
                if taken {
                    self.store(PC_ADDR as usize, t);
                } else {
                    self.step_on();
                }
                Ok(false)
            },
            Instruction::CMP(a, b) => {
                if is_usable(a) && is_usable(b) && self.load(a) == self.load(b) {
                    self.store(CARRY_ADDR as usize, 1);
                }
                self.step_on();
                Ok(false)
            },
            Instruction::PUSH(src) => {
                if is_usable(src) {
                    let sp = wrapping_inc(self.load(SP_ADDR));
                    self.store(SP_ADDR as usize, sp);
                    let at = self.slot(sp);
                    let v = self.load(src);
                    self.store(at, v);
                }
                self.step_on();
                Ok(false)
            },
            Instruction::POP(dest) => {
                if is_usable(dest) {
                    let at = self.slot(self.load(SP_ADDR));
                    let v = self.memory[at];
                    self.store(dest as usize, v);
                    let sp = wrapping_dec(self.load(SP_ADDR));
                    self.store(SP_ADDR as usize, sp);
                }
                self.step_on();
                Ok(false)
            },
            Instruction::CALL(t) => {
                let sp = wrapping_inc(self.load(SP_ADDR));
                self.store(SP_ADDR as usize, sp);
                let at = self.slot(sp);
                self.store(at, pc);
                self.store(PC_ADDR as usize, t);
                Ok(false)
            },
            Instruction::RET => {
                let sp = self.load(SP_ADDR);
                if sp == 0 {
                    return Err(RuntimeError::StackUnderflow { pc });
                }
                let at = self.slot(sp);
                let back = self.memory[at];
                self.store(SP_ADDR as usize, wrapping_dec(sp));
                self.store(PC_ADDR as usize, wrapping_inc(back));
                Ok(false)
            },
            Instruction::HLT(code) => {
                self.store(RET_ADDR as usize, code);
                Ok(true)
            },
        }
    }

    /// One fetch-decode-execute step of `program`; see `step`. A failing step changes
    /// nothing.
    pub fn step(&mut self, program: &Vec<Vec<u16>>) -> (r: Result<bool, RuntimeError>)
        requires
            old(self).wf(),
        ensures
            final(self).wf(),
            match r {
                Ok(halted) => step(rows_view(program@), old(self)@) == Ok::<
                    (Seq<u16>, bool),
                    RuntimeError,
                >((final(self)@, halted)),
                Err(e) => step(rows_view(program@), old(self)@) == Err::<
                    (Seq<u16>, bool),
                    RuntimeError,
                >(e) && final(self)@ == old(self)@,
            },
    {
        let pc = self.load(PC_ADDR);
        if pc as usize >= program.len() {
            self.store(RET_ADDR as usize, 0);
            return Ok(true);
        }
        assert(rows_view(program@)[pc as int] == program@[pc as int]@);
        match Instruction::decode(program[pc as usize].as_slice()) {
            Err(e) => Err(
                match e {
                    DecodeError::EmptyRow => RuntimeError::EmptyRow { pc },
                    DecodeError::UnknownOperation { code } => RuntimeError::UnknownOperation {
                        pc,
                        code,
                    },
                    DecodeError::MissingOperand { op } => RuntimeError::MissingOperand { pc, op },
                },
            ),
            Ok(ins) => self.execute(ins),
        }
    }

    /// Runs at most `max_steps` steps of `program`; see `run`. On an error the machine
    /// is left as it was before the failing step.
    pub fn run(&mut self, program: &Vec<Vec<u16>>, max_steps: u64) -> (r: Result<Status, RuntimeError>)
        requires
            old(self).wf(),
        ensures
            final(self).wf(),
            run(rows_view(program@), old(self)@, max_steps as nat) == (final(self)@, r),
    {
        let mut left: u64 = max_steps;
        while left > 0
            invariant
                self.wf(),
                run(rows_view(program@), old(self)@, max_steps as nat) == run(
                    rows_view(program@),
                    self@,
                    left as nat,
                ),
            decreases left,
        {
            match self.step(program) {
                Err(e) => {
                    return Err(e);
                },
                Ok(true) => {
                    return Ok(Status::Halted);
                },
                Ok(false) => {},
            }
            left = left - 1;
        }
        Ok(Status::Running)
    }

    /// The state that a core dump shows.
    pub fn core_dump(&self, program: &Vec<Vec<u16>>) -> (r: CoreDump)
        requires
            self.wf(),
        ensures
            r.ret == self@[RET_ADDR as int],
            r.pc == self@[PC_ADDR as int],
            r.sp == self@[SP_ADDR as int],
            r.carry == self@[CARRY_ADDR as int],
            r.base == self@[BASE_ADDR as int],
            r.instruction == if (r.pc as int) < program@.len() {
                Some(decode(rows_view(program@)[r.pc as int]))
            } else {
                None::<Result<Instruction, DecodeError>>
            },
            r.arithmetic@ == self@.subrange(0, 0x10),
            r.reserved@ == self@.subrange(0x10, 0x20),
    {
        let pc = self.load(PC_ADDR);
        let instruction = if (pc as usize) < program.len() {
            assert(rows_view(program@)[pc as int] == program@[pc as int]@);
            Some(Instruction::decode(program[pc as usize].as_slice()))
        } else {
            None
        };
        let mut arithmetic: Vec<u16> = Vec::new();
        let mut reserved: Vec<u16> = Vec::new();
        let mut i: usize = 0;
        while i < 0x10
            invariant
                self.wf(),
                0 <= i <= 0x10,
                arithmetic@ == self@.subrange(0, i as int),
                reserved@ == self@.subrange(0x10, 0x10 + i),
            decreases 0x10 - i,
        {
            arithmetic.push(self.memory[i]);
            reserved.push(self.memory[0x10 + i]);
            assert(self@.subrange(0, i + 1) =~= self@.subrange(0, i as int).push(self@[i as int]));
            assert(self@.subrange(0x10, 0x10 + i + 1) =~= self@.subrange(0x10, 0x10 + i).push(
                self@[0x10 + i],
            ));
            i = i + 1;
        }
        CoreDump {
            instruction,
            ret: self.load(RET_ADDR),
            pc,
            sp: self.load(SP_ADDR),
            carry: self.load(CARRY_ADDR),
            base: self.load(BASE_ADDR),
            arithmetic,
            reserved,
        }
    }
}

/// Runs `instructions` on a fresh machine for at most `max_steps` steps, and hands back
/// the machine with how the run ended.
pub fn run_raw(instructions: Vec<Vec<u16>>, max_steps: u64) -> (r: (Machine, Result<Status, RuntimeError>))
    ensures
        r.0.wf(),
        run(rows_view(instructions@), initial_memory(), max_steps as nat) == (r.0@, r.1),
{
    let mut machine = Machine::new();
    let status = machine.run(&instructions, max_steps);
    (machine, status)
}

} // verus!

verus! {

/// A step at a row that decodes is the execution of its instruction.
proof fn lemma_step_decoded(program: Seq<Seq<u16>>, m: Seq<u16>, ins: Instruction)
    requires
        (m[PC_ADDR as int] as int) < program.len(),
        decode(program[m[PC_ADDR as int] as int]) == Ok::<Instruction, DecodeError>(ins),
    ensures
        step(program, m) == execute(m, ins),
{
}

/// Two steps that neither fail nor halt.
proof fn lemma_run_two(program: Seq<Seq<u16>>, m: Seq<u16>, m1: Seq<u16>, m2: Seq<u16>)
    requires
        step(program, m) == Ok::<(Seq<u16>, bool), RuntimeError>((m1, false)),
        step(program, m1) == Ok::<(Seq<u16>, bool), RuntimeError>((m2, false)),
    ensures
        run(program, m, 2) == (m2, Ok::<Status, RuntimeError>(Status::Running)),
{
    assert(run(program, m2, 0) == (m2, Ok::<Status, RuntimeError>(Status::Running)));
    assert(run(program, m1, 1) == run(program, m2, 0));
}

proof fn lemma_execute_push(m: Seq<u16>, src: u16)
    requires
        usable(src),
    ensures
        execute(m, Instruction::PUSH(src)) == Ok::<(Seq<u16>, bool), RuntimeError>(
            (
                advance(
                    m.update(SP_ADDR as int, wrap(m[SP_ADDR as int] + 1)).update(
                        stack_slot(
                            m.update(SP_ADDR as int, wrap(m[SP_ADDR as int] + 1)),
                            wrap(m[SP_ADDR as int] + 1),
                        ),
                        m.update(SP_ADDR as int, wrap(m[SP_ADDR as int] + 1))[src as int],
                    ),
                ),
                false,
            ),
        ),
{
}

proof fn lemma_execute_pop(m: Seq<u16>, dest: u16)
    requires
        usable(dest),
    ensures
        execute(m, Instruction::POP(dest)) == Ok::<(Seq<u16>, bool), RuntimeError>(
            (
                advance(
                    m.update(dest as int, m[stack_slot(m, m[SP_ADDR as int])]).update(
                        SP_ADDR as int,
                        wrap(m.update(dest as int, m[stack_slot(m, m[SP_ADDR as int])])[SP_ADDR as int] - 1),
                    ),
                ),
                false,
            ),
        ),
{
}

proof fn lemma_execute_call(m: Seq<u16>, target: u16)
    ensures
        execute(m, Instruction::CALL(target)) == Ok::<(Seq<u16>, bool), RuntimeError>(
            (
                m.update(SP_ADDR as int, wrap(m[SP_ADDR as int] + 1)).update(
                    stack_slot(
                        m.update(SP_ADDR as int, wrap(m[SP_ADDR as int] + 1)),
                        wrap(m[SP_ADDR as int] + 1),
                    ),
                    m[PC_ADDR as int],
                ).update(PC_ADDR as int, target),
                false,
            ),
        ),
{
}

proof fn lemma_execute_ret(m: Seq<u16>)
    requires
        m[SP_ADDR as int] != 0,
    ensures
        execute(m, Instruction::RET) == Ok::<(Seq<u16>, bool), RuntimeError>(
            (
                m.update(SP_ADDR as int, wrap(m[SP_ADDR as int] - 1)).update(
                    PC_ADDR as int,
                    wrap(m[stack_slot(m, m[SP_ADDR as int])] + 1),
                ),
                false,
            ),
        ),
{
}

proof fn lemma_wrap_inc_dec(x: u16)
    ensures
        x != 0xFFFF ==> wrap(x + 1) == x + 1,
        x != 0 ==> wrap(x - 1) == x - 1,
        x == 0xFFFF ==> wrap(x + 1) == 0,
        wrap(wrap(x + 1) - 1) == x,
{
}

/// `PUSH src` followed by `POP dest` copies the word at `src` into `dest` and leaves the
/// stack pointer where it was. Excluded: `src` or `dest` being the stack pointer, `dest`
/// being the program counter, and a stack slot that lands on the stack pointer, the
/// stack base or the program counter, each of which changes what is pushed or popped,
/// and a `PUSH` in the last row a word can number.
pub proof fn lemma_push_pop(program: Seq<Seq<u16>>, m: Seq<u16>, src: u16, dest: u16)
    requires
        m.len() == MEMORY_SIZE,
        (m[PC_ADDR as int] as int) + 1 < program.len(),
        m[PC_ADDR as int] < 0xFFFF,
        decode(program[m[PC_ADDR as int] as int]) == Ok::<Instruction, DecodeError>(
            Instruction::PUSH(src),
        ),
        decode(program[m[PC_ADDR as int] + 1]) == Ok::<Instruction, DecodeError>(
            Instruction::POP(dest),
        ),
        usable(src),
        usable(dest),
        src != SP_ADDR,
        dest != SP_ADDR,
        dest != PC_ADDR,
        stack_slot(m, wrap(m[SP_ADDR as int] + 1)) != SP_ADDR as int,
        stack_slot(m, wrap(m[SP_ADDR as int] + 1)) != BASE_ADDR as int,
        stack_slot(m, wrap(m[SP_ADDR as int] + 1)) != PC_ADDR as int,
    ensures
        run(program, m, 2).1 == Ok::<Status, RuntimeError>(Status::Running),
        run(program, m, 2).0[dest as int] == m[src as int],
        run(program, m, 2).0[SP_ADDR as int] == m[SP_ADDR as int],
        run(program, m, 2).0[PC_ADDR as int] == wrap(m[PC_ADDR as int] + 2),
{
    let pc = m[PC_ADDR as int];
    let sp = wrap(m[SP_ADDR as int] + 1);
    let m1 = m.update(SP_ADDR as int, sp);
    let slot = stack_slot(m1, sp);
    assert(slot == stack_slot(m, sp));
    let pushed = advance(m1.update(slot, m1[src as int]));
    lemma_step_decoded(program, m, Instruction::PUSH(src));
    lemma_execute_push(m, src);
    lemma_wrap_inc_dec(m[SP_ADDR as int]);
    lemma_wrap_inc_dec(pc);
    assert(pushed[PC_ADDR as int] == pc + 1);
    assert(pushed[slot] == m[src as int]);
    assert(pushed[SP_ADDR as int] == sp);
    assert(stack_slot(pushed, pushed[SP_ADDR as int]) == slot);
    let written = pushed.update(dest as int, pushed[slot]);
    let popped = advance(written.update(SP_ADDR as int, wrap(written[SP_ADDR as int] - 1)));
    lemma_step_decoded(program, pushed, Instruction::POP(dest));
    lemma_execute_pop(pushed, dest);
    lemma_wrap_inc_dec((pc + 1) as u16);
    lemma_run_two(program, m, pushed, popped);
}

/// `CALL target` followed by the `RET` at `target` resumes at the row after the `CALL`,
/// with the stack pointer where it was. Excluded: a stack pointer at its largest value,
/// whose increment wraps to an empty stack, and a stack slot that lands on the stack
/// pointer, the stack base or the program counter.
pub proof fn lemma_call_ret(program: Seq<Seq<u16>>, m: Seq<u16>, target: u16)
    requires
        m.len() == MEMORY_SIZE,
        (m[PC_ADDR as int] as int) < program.len(),
        (target as int) < program.len(),
        decode(program[m[PC_ADDR as int] as int]) == Ok::<Instruction, DecodeError>(
            Instruction::CALL(target),
        ),
        decode(program[target as int]) == Ok::<Instruction, DecodeError>(Instruction::RET),
        m[SP_ADDR as int] != 0xFFFF,
        stack_slot(m, wrap(m[SP_ADDR as int] + 1)) != SP_ADDR as int,
        stack_slot(m, wrap(m[SP_ADDR as int] + 1)) != BASE_ADDR as int,
        stack_slot(m, wrap(m[SP_ADDR as int] + 1)) != PC_ADDR as int,
    ensures
        run(program, m, 2).1 == Ok::<Status, RuntimeError>(Status::Running),
        run(program, m, 2).0[PC_ADDR as int] == wrap(m[PC_ADDR as int] + 1),
        run(program, m, 2).0[SP_ADDR as int] == m[SP_ADDR as int],
{
    let pc = m[PC_ADDR as int];
    let sp = wrap(m[SP_ADDR as int] + 1);
    let m1 = m.update(SP_ADDR as int, sp);
    let slot = stack_slot(m1, sp);
    let called = m1.update(slot, pc).update(PC_ADDR as int, target);
    lemma_step_decoded(program, m, Instruction::CALL(target));
    lemma_execute_call(m, target);
    lemma_wrap_inc_dec(m[SP_ADDR as int]);
    assert(called[SP_ADDR as int] == sp);
    assert(sp != 0);
    assert(stack_slot(called, sp) == slot);
    assert(called[slot] == pc);
    let back = called.update(SP_ADDR as int, wrap(sp - 1)).update(PC_ADDR as int, wrap(pc + 1));
    lemma_step_decoded(program, called, Instruction::RET);
    lemma_execute_ret(called);
    lemma_run_two(program, m, called, back);
}

/// An address that passes the address rule, lies in memory, and is outside the bank of
/// reserved registers `0x010..0x020`.
pub open spec fn general(a: u16) -> bool {
    usable(a) && !(0x010 <= a && a < 0x020)
}

/// Whether an instruction only sets or computes data, on general addresses alone.
pub open spec fn is_data(ins: Instruction) -> bool {
    match ins {
        Instruction::IMM(_, d) => general(d),
        Instruction::INC(d) => general(d),
        Instruction::DEC(d) => general(d),
        Instruction::NOT(d) => general(d),
        Instruction::MOV(src, d) => general(src) && general(d),
        Instruction::ADD(src, d) => general(src) && general(d),
        Instruction::SUB(src, d) => general(src) && general(d),
        Instruction::MUL(src, d) => general(src) && general(d),
        Instruction::DIV(src, d) => general(src) && general(d),
        Instruction::MOD(src, d) => general(src) && general(d),
        Instruction::AND(src, d) => general(src) && general(d),
        Instruction::OR(src, d) => general(src) && general(d),
        Instruction::XOR(src, d) => general(src) && general(d),
        Instruction::SHL(src, d) => general(src) && general(d),
        Instruction::SHR(src, d) => general(src) && general(d),
        _ => false,
    }
}

/// The documented effect of a data instruction on a register file `regs`; `None` for a
/// division by zero.
pub open spec fn data_effect(regs: Seq<u16>, ins: Instruction) -> Option<Seq<u16>> {
    match ins {
        Instruction::IMM(v, d) => Some(regs.update(d as int, v)),
        Instruction::INC(d) => Some(regs.update(d as int, update_one(ins, regs[d as int]))),
        Instruction::DEC(d) => Some(regs.update(d as int, update_one(ins, regs[d as int]))),
        Instruction::NOT(d) => Some(regs.update(d as int, update_one(ins, regs[d as int]))),
        Instruction::MOV(src, d) => if divides(ins) && regs[src as int] == 0 {
            None
        } else {
            Some(regs.update(d as int, combine(ins, regs[d as int], regs[src as int])))
        },
        Instruction::ADD(src, d) => if divides(ins) && regs[src as int] == 0 {
            None
        } else {
            Some(regs.update(d as int, combine(ins, regs[d as int], regs[src as int])))
        },
        Instruction::SUB(src, d) => if divides(ins) && regs[src as int] == 0 {
            None
        } else {
            Some(regs.update(d as int, combine(ins, regs[d as int], regs[src as int])))
        },
        Instruction::MUL(src, d) => if divides(ins) && regs[src as int] == 0 {
            None
        } else {
            Some(regs.update(d as int, combine(ins, regs[d as int], regs[src as int])))
        },
        Instruction::DIV(src, d) => if divides(ins) && regs[src as int] == 0 {
            None
        } else {
            Some(regs.update(d as int, combine(ins, regs[d as int], regs[src as int])))
        },
        Instruction::MOD(src, d) => if divides(ins) && regs[src as int] == 0 {
            None
        } else {
            Some(regs.update(d as int, combine(ins, regs[d as int], regs[src as int])))
        },
        Instruction::AND(src, d) => if divides(ins) && regs[src as int] == 0 {
            None
        } else {
            Some(regs.update(d as int, combine(ins, regs[d as int], regs[src as int])))
        },
        Instruction::OR(src, d) => if divides(ins) && regs[src as int] == 0 {
            None
        } else {
            Some(regs.update(d as int, combine(ins, regs[d as int], regs[src as int])))
        },
        Instruction::XOR(src, d) => if divides(ins) && regs[src as int] == 0 {
            None
        } else {
            Some(regs.update(d as int, combine(ins, regs[d as int], regs[src as int])))
        },
        Instruction::SHL(src, d) => if divides(ins) && regs[src as int] == 0 {
            None
        } else {
            Some(regs.update(d as int, combine(ins, regs[d as int], regs[src as int])))
        },
        Instruction::SHR(src, d) => if divides(ins) && regs[src as int] == 0 {
            None
        } else {
            Some(regs.update(d as int, combine(ins, regs[d as int], regs[src as int])))
        },
        _ => Some(regs),
    }
}

/// The effects of the first `n` rows of `program` applied one after another to `regs`.
pub open spec fn apply_rows(program: Seq<Seq<u16>>, regs: Seq<u16>, n: int) -> Option<Seq<u16>>
    decreases n,
{
    if n <= 0 {
        Some(regs)
    } else {
        match apply_rows(program, regs, n - 1) {
            None => None,
            Some(r) => match decode(program[n - 1]) {
                Ok(ins) => data_effect(r, ins),
                Err(_) => None,
            },
        }
    }
}

/// Whether every row of `program` decodes to a data instruction.
pub open spec fn straight_line(program: Seq<Seq<u16>>) -> bool {
    forall|i: int|
        0 <= i < program.len() ==> (#[trigger] decode(program[i]) matches Ok(ins) && is_data(ins))
}

proof fn lemma_execute_data(regs: Seq<u16>, k: u16, ins: Instruction)
    requires
        regs.len() == MEMORY_SIZE,
        k < 0xFFFF,
        is_data(ins),
    ensures
        match data_effect(regs, ins) {
            Some(r2) => execute(regs.update(PC_ADDR as int, k), ins) == Ok::<
                (Seq<u16>, bool),
                RuntimeError,
            >((r2.update(PC_ADDR as int, (k + 1) as u16), false)),
            None => execute(regs.update(PC_ADDR as int, k), ins) == Err::<
                (Seq<u16>, bool),
                RuntimeError,
            >(RuntimeError::DivisionByZero { pc: k }),
        },
{
    let m = regs.update(PC_ADDR as int, k);
    assert(wrap(k + 1) == k + 1);
    match data_effect(regs, ins) {
        Some(r2) => {
            let m2 = r2.update(PC_ADDR as int, (k + 1) as u16);
            match execute(m, ins) {
                Ok((m1, _)) => {
                    assert(m1 =~= m2);
                },
                Err(_) => {},
            }
        },
        None => {},
    }
}

proof fn lemma_apply_rows_none(program: Seq<Seq<u16>>, regs: Seq<u16>, n: int, m: int)
    requires
        0 <= n <= m,
        apply_rows(program, regs, n) is None,
    ensures
        apply_rows(program, regs, m) is None,
    decreases m - n,
{
    if n < m {
        lemma_apply_rows_none(program, regs, n, m - 1);
    }
}

proof fn lemma_straight_from(program: Seq<Seq<u16>>, k: int, m: Seq<u16>, fuel: nat)
    requires
        straight_line(program),
        program.len() <= 0xFFFF,
        0 <= k <= program.len(),
        fuel > program.len() - k,
        apply_rows(program, initial_memory(), k) matches Some(regs) && regs.len() == MEMORY_SIZE
            && m == regs.update(PC_ADDR as int, k as u16),
    ensures
        match apply_rows(program, initial_memory(), program.len() as int) {
            Some(regs) => run(program, m, fuel).1 == Ok::<Status, RuntimeError>(Status::Halted)
                && forall|a: u16| general(a) ==> run(program, m, fuel).0[a as int] == regs[a as int],
            None => run(program, m, fuel).1 matches Err(RuntimeError::DivisionByZero { .. }),
        },
    decreases program.len() - k,
{
    let regs = apply_rows(program, initial_memory(), k)->Some_0;
    if k == program.len() {
        let m1 = m.update(RET_ADDR as int, 0);
        assert(step(program, m) == Ok::<(Seq<u16>, bool), RuntimeError>((m1, true)));
        assert(run(program, m, fuel) == (m1, Ok::<Status, RuntimeError>(Status::Halted)));
    } else {
        assert(decode(program[k]) matches Ok(ins) && is_data(ins));
        let ins = decode(program[k])->Ok_0;
        lemma_step_decoded(program, m, ins);
        lemma_execute_data(regs, k as u16, ins);
        assert(apply_rows(program, initial_memory(), k + 1) == data_effect(regs, ins));
        match data_effect(regs, ins) {
            None => {
                lemma_apply_rows_none(program, initial_memory(), k + 1, program.len() as int);
            },
            Some(r2) => {
                let m2 = r2.update(PC_ADDR as int, (k + 1) as u16);
                assert(run(program, m, fuel) == run(program, m2, (fuel - 1) as nat));
                lemma_straight_from(program, k + 1, m2, (fuel - 1) as nat);
            },
        }
    }
}

/// A program of data instructions alone, run from a fresh machine with a budget of more
/// steps than it has rows, halts, and leaves every general address holding what applying
/// each row's documented effect in turn to a fresh register file gives; or it stops at a
/// division by zero exactly when that application meets one. Excluded: programs with
/// more rows than a word can number, where the program counter would wrap.
pub proof fn lemma_straight_line(program: Seq<Seq<u16>>, fuel: nat)
    requires
        straight_line(program),
        program.len() <= 0xFFFF,
        fuel > program.len(),
    ensures
        match apply_rows(program, initial_memory(), program.len() as int) {
            Some(regs) => run(program, initial_memory(), fuel).1 == Ok::<Status, RuntimeError>(
                Status::Halted,
            ) && forall|a: u16|
                general(a) ==> run(program, initial_memory(), fuel).0[a as int] == regs[a as int],
            None => run(program, initial_memory(), fuel).1 matches Err(
                RuntimeError::DivisionByZero { .. },
            ),
        },
{
    assert(initial_memory().update(PC_ADDR as int, 0u16) =~= initial_memory());
    lemma_straight_from(program, 0, initial_memory(), fuel);
}

} // verus!
