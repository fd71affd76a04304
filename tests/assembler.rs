use e8::compiler::{compile, eliminate_dead_rows, CompileError};
use e8::instruction::{parse_hex, Instruction, Operation};
use e8::interpreter::{run_raw, Status, PC_ADDR, RET_ADDR};

#[test]
fn label_loop_assembles_to_three_rows() {
    let source = String::from("DEF start\nIMM 0x05 0x000\nJNZ start 0x000\nHLT 0x000");
    let program = compile(source).unwrap();
    assert_eq!(program.len(), 3);
    assert_eq!(program[0], vec![0x038, 0x05, 0x000]);
    assert_eq!(program[1], vec![0x034, 0x000, 0x000]);
    assert_eq!(program[2], vec![0x03B, 0x000]);
    // The jump target is row 0, the IMM that follows the label.
    assert_eq!(program[program[1][1] as usize][0], 0x038);
}

#[test]
fn label_loop_halts_because_address_zero_is_reserved() {
    let source = String::from("DEF start\nIMM 0x05 0x000\nJNZ start 0x000\nHLT 0x000");
    let program = compile(source).unwrap();
    let (machine, status) = run_raw(program, 100);
    assert_eq!(status, Ok(Status::Halted));
    assert_eq!(machine.read(0x000), Some(0));
    assert_eq!(machine.read(RET_ADDR), Some(0));
    assert_eq!(machine.read(PC_ADDR), Some(2));
}

#[test]
fn hex_literals() {
    assert_eq!(parse_hex("0x1F"), Some(0x1F));
    assert_eq!(parse_hex("0xffff"), Some(0xFFFF));
    assert_eq!(parse_hex("0x10000"), None);
    assert_eq!(parse_hex("0x"), None);
    assert_eq!(parse_hex("1F"), None);
    assert_eq!(parse_hex("0xG1"), None);
}

#[test]
fn opcode_bytes_decode() {
    assert_eq!(Operation::from_u8(0x020), Some(Operation::NOP));
    assert_eq!(Operation::from_u8(0x038), Some(Operation::IMM));
    assert_eq!(Operation::from_u8(0x03B), Some(Operation::HLT));
    assert_eq!(Operation::from_u8(0x03C), None);
    assert_eq!(Operation::from_u8(0x01F), None);
    assert_eq!(Instruction::decode(&[0x022, 0x001, 0x002]), Ok(Instruction::MOV(1, 2)));
}

#[test]
fn unresolved_token_is_reported() {
    let r = compile(String::from("IMM 0x01 0x001\nFOO 0x002"));
    assert_eq!(r, Err(CompileError::UnresolvedToken { line: 1, token: String::from("FOO") }));
}

#[test]
fn dead_rows_are_dropped() {
    let rows = vec![vec![0x020], vec![0x021], vec![0x030, 0x001], vec![0x03B, 0x000]];
    let out = eliminate_dead_rows(&rows);
    // The target 0x001 names the row after old row 1: old row 2, now row 0.
    assert_eq!(out, vec![vec![0x030, 0x000], vec![0x03B, 0x000]]);
}

fn assemble(src: &str) -> Vec<Vec<u16>> {
    compile(String::from(src)).unwrap()
}

#[test]
fn forward_and_backward_labels_point_after_the_label() {
    let src = "JMP skip\nDEF back\nINC 0x001\nHLT 0x000\nDEF skip\nIMM 0x02 0x002\nJMP back";
    let p = assemble(src);
    // Rows: JMP, INC, HLT, IMM, JMP.
    assert_eq!(p.len(), 5);
    assert_eq!(p[0], vec![0x030, 3]);
    assert_eq!(p[p[0][1] as usize][0], 0x038);
    assert_eq!(p[4], vec![0x030, 1]);
    assert_eq!(p[p[4][1] as usize][0], 0x025);
}

#[test]
fn call_resolves_to_a_later_label() {
    let p = assemble("CALL sub\nHLT 0x001\nDEF sub\nRET");
    assert_eq!(p, vec![vec![0x039, 2], vec![0x03B, 0x001], vec![0x03A]]);
}

fn render(p: &Vec<Vec<u16>>) -> String {
    let mut out = String::new();
    for (i, row) in p.iter().enumerate() {
        out.push_str(&format!("DEF L{}\n", i));
        let branch = matches!(row[0], 0x030..=0x034 | 0x039);
        let words: Vec<String> = row
            .iter()
            .enumerate()
            .map(|(k, w)| if branch && k == 1 { format!("L{}", w) } else { format!("0x{:03X}", w) })
            .collect();
        out.push_str(&words.join(" "));
        out.push('\n');
    }
    out
}

#[test]
fn recompiling_relabeled_output_gives_the_same_program() {
    let src = "IMM 0x03 0x001\nDEF top\nDEC 0x001\nINC 0x002\nJNZ top 0x001\nHLT 0x002";
    let p = assemble(src);
    let again = compile(render(&p)).unwrap();
    assert_eq!(again, p);
    let (m1, s1) = run_raw(p, 1000);
    let (m2, s2) = run_raw(again, 1000);
    assert_eq!(s1, s2);
    for a in 0..0x20u16 {
        assert_eq!(m1.read(a), m2.read(a));
    }
    assert_eq!(m1.read(0x002), Some(3));
}

#[test]
fn eliminating_twice_moves_branch_targets() {
    // Without placeholders the rows stay, but a target t becomes the index of row t + 1.
    let p = vec![vec![0x030, 0x000], vec![0x03B, 0x000]];
    assert_eq!(eliminate_dead_rows(&p), vec![vec![0x030, 0x001], vec![0x03B, 0x000]]);
}

#[test]
fn comments_and_blank_lines_are_ignored() {
    let a = assemble("IMM 0x05 0x001 // five\n\n   // nothing here\nHLT 0x000");
    assert_eq!(a, vec![vec![0x038, 0x05, 0x001], vec![0x03B, 0x000]]);
    assert_eq!(assemble("IMM 0x05 0x001//five"), vec![vec![0x038, 0x05, 0x001]]);
}

#[test]
fn empty_source_gives_empty_program() {
    assert_eq!(assemble(""), Vec::<Vec<u16>>::new());
    assert_eq!(assemble("\n\n"), Vec::<Vec<u16>>::new());
}

#[test]
fn constants_expand_inline() {
    let p = assemble("DEF FIVE 0x05\nDEF SETFIVE IMM FIVE\nSETFIVE 0x001\nIMM FIVE 0x002");
    assert_eq!(p, vec![vec![0x038, 0x05, 0x001], vec![0x038, 0x05, 0x002]]);
}

#[test]
fn literal_opcodes_and_mnemonics_agree() {
    assert_eq!(assemble("0x038 0x05 0x001"), assemble("IMM 0x05 0x001"));
    assert_eq!(assemble("0x021 start\n0x03B 0x000"), vec![vec![0x03B, 0x000]]);
}

#[test]
fn constant_before_its_definition_is_unresolved() {
    let r = compile(String::from("IMM FIVE 0x001\nDEF FIVE 0x05"));
    assert_eq!(r, Err(CompileError::UnresolvedToken { line: 0, token: String::from("FIVE") }));
}

#[test]
fn def_without_name_fails() {
    assert_eq!(compile(String::from("HLT 0x000\nDEF")), Err(CompileError::MissingName { line: 1 }));
}

#[test]
fn duplicate_names_fail() {
    let r = compile(String::from("DEF a\nNOP\nDEF a 0x01"));
    assert_eq!(r, Err(CompileError::DuplicateName { line: 2, name: String::from("a") }));
    let r = compile(String::from("DEF ADD 0x023"));
    assert_eq!(r, Err(CompileError::DuplicateName { line: 0, name: String::from("ADD") }));
}

#[test]
fn unresolved_token_in_a_constant_fails() {
    let r = compile(String::from("DEF X 0x01 Y"));
    assert_eq!(r, Err(CompileError::UnresolvedToken { line: 0, token: String::from("Y") }));
}

#[test]
fn unknown_operation_fails() {
    let r = compile(String::from("HLT 0x000\n0x005 0x001"));
    assert_eq!(r, Err(CompileError::UnknownOperation { line: 1, code: 0x005 }));
}

#[test]
fn too_many_lines_fails() {
    let src = "\n".repeat(0x10000);
    assert_eq!(compile(src), Err(CompileError::TooManyLines { lines: 0x10001 }));
    let src = "\n".repeat(0xFFFF);
    assert_eq!(compile(src), Ok(Vec::new()));
}

#[test]
fn label_named_like_a_literal_reads_as_the_literal() {
    let p = assemble("DEF 0x07\nJMP 0x07");
    assert_eq!(p, vec![vec![0x030, 0x07]]);
}

#[test]
fn listing_with_four_digit_literals_reads_back() {
    let p = vec![
        vec![0x038, 0x03, 0x001],
        vec![0x026, 0x001],
        vec![0x034, 0x001, 0x001],
        vec![0x03B, 0x000],
    ];
    let text = "DEF L0000\n0x0038 0x0003 0x0001\nDEF L0001\n0x0026 0x0001\n\
                DEF L0002\n0x0034 L0001 0x0001\nDEF L0003\n0x003B 0x0000\n";
    assert_eq!(compile(String::from(text)).unwrap(), p);
    let (m, s) = run_raw(p, 100);
    assert_eq!(s, Ok(Status::Halted));
    assert_eq!(m.read(0x001), Some(0));
}
