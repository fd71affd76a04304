use e8::compiler::compile;
use e8::instruction::{DecodeError, Instruction, Operation};
use e8::interpreter::{
    check_address, run_raw, Machine, RuntimeError, Status, BASE_ADDR, CARRY_ADDR, PC_ADDR,
    RET_ADDR, SP_ADDR, STACK_BASE,
};

fn run_source(src: &str, steps: u64) -> (Machine, Result<Status, RuntimeError>) {
    run_raw(compile(String::from(src)).unwrap(), steps)
}

fn at(m: &Machine, a: u16) -> u16 {
    m.read(a).unwrap()
}

#[test]
fn fresh_machine_is_zero_but_the_stack_base() {
    let m = Machine::new();
    assert_eq!(at(&m, BASE_ADDR), STACK_BASE);
    assert_eq!(at(&m, PC_ADDR), 0);
    assert_eq!(at(&m, 0x001), 0);
    assert_eq!(at(&m, 0xFFF), 0);
    assert_eq!(m.read(0x1000), None);
}

#[test]
fn address_rule() {
    assert!(!check_address(0x000));
    assert!(!check_address(0x020));
    assert!(!check_address(0x1000));
    assert!(check_address(0x001));
    assert!(check_address(0x010));
    assert!(check_address(0x040));
    assert!(check_address(0x1001));
}

#[test]
fn straight_line_arithmetic_matches_sequential_effects() {
    let src = "IMM 0x07 0x001\nIMM 0x03 0x002\nADD 0x002 0x001\nMOV 0x001 0x003\n\
               MUL 0x002 0x003\nSUB 0x002 0x001\nIMM 0x04 0x004\nDIV 0x004 0x003\n\
               IMM 0x2D 0x005\nMOD 0x004 0x005\nINC 0x002\nDEC 0x006";
    let (m, s) = run_source(src, 100);
    assert_eq!(s, Ok(Status::Halted));
    assert_eq!(at(&m, 0x001), 7);
    assert_eq!(at(&m, 0x002), 4);
    assert_eq!(at(&m, 0x003), 7);
    assert_eq!(at(&m, 0x004), 4);
    assert_eq!(at(&m, 0x005), 1);
    assert_eq!(at(&m, 0x006), 0xFFFF);
    assert_eq!(at(&m, RET_ADDR), 0);
    assert_eq!(at(&m, PC_ADDR), 12);
}

#[test]
fn bitwise_operations() {
    let src = "IMM 0x0C 0x001\nIMM 0x0A 0x002\nMOV 0x001 0x003\nAND 0x002 0x003\n\
               MOV 0x001 0x004\nOR 0x002 0x004\nMOV 0x001 0x005\nXOR 0x002 0x005\n\
               NOT 0x006\nIMM 0x02 0x007\nIMM 0x01 0x008\nSHL 0x007 0x008\n\
               IMM 0x10 0x009\nIMM 0xFFFF 0x00A\nSHR 0x009 0x00A\nIMM 0x40 0x00B\nSHR 0x007 0x00B";
    let (m, _) = run_source(src, 100);
    assert_eq!(at(&m, 0x003), 0x08);
    assert_eq!(at(&m, 0x004), 0x0E);
    assert_eq!(at(&m, 0x005), 0x06);
    assert_eq!(at(&m, 0x006), 0xFFFF);
    assert_eq!(at(&m, 0x008), 0x04);
    assert_eq!(at(&m, 0x00A), 0);
    assert_eq!(at(&m, 0x00B), 0x10);
}

#[test]
fn arithmetic_wraps() {
    let (m, _) = run_source("IMM 0xFFFF 0x001\nIMM 0x02 0x002\nADD 0x002 0x001\nSUB 0x001 0x003\nMUL 0x002 0x004", 10);
    assert_eq!(at(&m, 0x001), 1);
    assert_eq!(at(&m, 0x003), 0xFFFF);
    assert_eq!(at(&m, 0x004), 0);
    let (m, _) = run_source("IMM 0x100 0x001\nMUL 0x001 0x001", 10);
    assert_eq!(at(&m, 0x001), 0);
}

#[test]
fn reserved_and_outside_addresses_are_skipped() {
    let (m, s) = run_source("IMM 0x05 0x020\nIMM 0x05 0x000\nIMM 0x05 0x1001\nINC 0x1000\nHLT 0x000", 10);
    assert_eq!(s, Ok(Status::Halted));
    assert_eq!(at(&m, 0x020), 0);
    assert_eq!(at(&m, 0x000), 0);
    assert_eq!(at(&m, PC_ADDR), 4);
}

#[test]
fn push_then_pop_restores_the_value() {
    let (m, s) = run_source("IMM 0x2A 0x001\nPUSH 0x001\nPOP 0x002", 10);
    assert_eq!(s, Ok(Status::Halted));
    assert_eq!(at(&m, 0x002), 0x2A);
    assert_eq!(at(&m, SP_ADDR), 0);
    assert_eq!(at(&m, STACK_BASE + 1), 0x2A);
}

#[test]
fn call_then_ret_resumes_after_the_call() {
    let src = "CALL sub\nHLT 0x007\nDEF sub\nIMM 0x09 0x001\nRET";
    let (m, s) = run_source(src, 20);
    assert_eq!(s, Ok(Status::Halted));
    assert_eq!(at(&m, 0x001), 0x09);
    assert_eq!(at(&m, RET_ADDR), 0x07);
    assert_eq!(at(&m, SP_ADDR), 0);
    assert_eq!(at(&m, PC_ADDR), 1);
}

#[test]
fn comparisons_and_conditional_jumps() {
    let src = "IMM 0x05 0x001\nIMM 0x05 0x002\nCMP 0x001 0x002\nIMM 0x03 0x003\n\
               JG gt 0x001 0x003\nHLT 0x001\nDEF gt\nJL lt 0x003 0x001\nHLT 0x002\n\
               DEF lt\nJZ z 0x004\nHLT 0x003\nDEF z\nHLT 0x009";
    let (m, s) = run_source(src, 50);
    assert_eq!(s, Ok(Status::Halted));
    assert_eq!(at(&m, CARRY_ADDR), 1);
    assert_eq!(at(&m, RET_ADDR), 0x09);
    let (m, _) = run_source("IMM 0x01 0x001\nIMM 0x02 0x002\nCMP 0x001 0x002\nJNZ end 0x004\nHLT 0x005\nDEF end\nHLT 0x006", 50);
    assert_eq!(at(&m, CARRY_ADDR), 0);
    assert_eq!(at(&m, RET_ADDR), 0x05);
}

#[test]
fn infinite_loop_runs_out_of_budget() {
    let (m, s) = run_source("DEF top\nINC 0x001\nJMP top", 1001);
    assert_eq!(s, Ok(Status::Running));
    assert_eq!(at(&m, 0x001), 501);
}

#[test]
fn running_past_the_end_halts_with_zero() {
    let (m, s) = run_raw(vec![vec![0x038, 0x07, RET_ADDR]], 10);
    assert_eq!(s, Ok(Status::Halted));
    assert_eq!(at(&m, RET_ADDR), 0);
}

#[test]
fn runtime_errors() {
    let (m, s) = run_raw(vec![vec![0x020], vec![]], 10);
    assert_eq!(s, Err(RuntimeError::EmptyRow { pc: 1 }));
    assert_eq!(at(&m, PC_ADDR), 1);
    let (_, s) = run_raw(vec![vec![0x01F]], 10);
    assert_eq!(s, Err(RuntimeError::UnknownOperation { pc: 0, code: 0x01F }));
    let (_, s) = run_raw(vec![vec![0x022, 0x001]], 10);
    assert_eq!(s, Err(RuntimeError::MissingOperand { pc: 0, op: Operation::MOV }));
    let (m, s) = run_source("IMM 0x05 0x001\nDIV 0x002 0x001", 10);
    assert_eq!(s, Err(RuntimeError::DivisionByZero { pc: 1 }));
    assert_eq!(at(&m, 0x001), 5);
    let (_, s) = run_source("MOD 0x002 0x001", 10);
    assert_eq!(s, Err(RuntimeError::DivisionByZero { pc: 0 }));
    let (_, s) = run_source("RET", 10);
    assert_eq!(s, Err(RuntimeError::StackUnderflow { pc: 0 }));
}

#[test]
fn step_and_execute_one_at_a_time() {
    let program = vec![vec![0x038, 0x03, 0x001], vec![0x03B, 0x04]];
    let mut m = Machine::new();
    assert_eq!(m.step(&program), Ok(false));
    assert_eq!(at(&m, 0x001), 3);
    assert_eq!(m.step(&program), Ok(true));
    assert_eq!(at(&m, RET_ADDR), 4);
    let mut m = Machine::new();
    assert_eq!(m.execute(Instruction::INC(0x002)), Ok(false));
    assert_eq!(at(&m, 0x002), 1);
}

#[test]
fn core_dump_shows_registers() {
    let program = compile(String::from("IMM 0x05 0x001\nIMM 0x02 0x013\nHLT 0x003")).unwrap();
    let (m, _) = run_raw(program.clone(), 2);
    let d = m.core_dump(&program);
    assert_eq!(d.pc, 2);
    assert_eq!(d.carry, 2);
    assert_eq!(d.base, STACK_BASE);
    assert_eq!(d.instruction, Some(Ok(Instruction::HLT(3))));
    assert_eq!(d.arithmetic.len(), 16);
    assert_eq!(d.arithmetic[1], 5);
    assert_eq!(d.reserved[2], STACK_BASE);
    let d = Machine::new().core_dump(&vec![vec![0x022]]);
    assert_eq!(d.instruction, Some(Err(DecodeError::MissingOperand { op: Operation::MOV })));
    assert_eq!(Machine::new().core_dump(&Vec::new()).instruction, None);
}
