use e8::compiler::{parse_argument, resolve_token, Definition, SymbolTable};
use e8::text::{chars_of, split_lines, text_of, tokenize};

fn chars(s: &str) -> Vec<char> {
    s.chars().collect()
}

#[test]
fn lines_split_on_line_breaks() {
    let ls = split_lines(&chars("a b\n\nc\n"));
    assert_eq!(ls, vec![chars("a b"), chars(""), chars("c"), chars("")]);
    assert_eq!(split_lines(&chars("")), vec![chars("")]);
}

#[test]
fn tokens_split_on_whitespace_and_stop_at_comments() {
    let t = tokenize(&chars("  IMM\t0x05  0x001 // five"));
    assert_eq!(t, vec![chars("IMM"), chars("0x05"), chars("0x001")]);
    assert_eq!(tokenize(&chars("// all comment")), Vec::<Vec<char>>::new());
    assert_eq!(tokenize(&chars("a/b c/")), vec![chars("a/b"), chars("c/")]);
}

#[test]
fn chars_and_text_round_trip() {
    let c = chars_of("héllo");
    assert_eq!(c, vec!['h', 'é', 'l', 'l', 'o']);
    assert_eq!(text_of(&c), String::from("héllo"));
    assert_eq!(text_of(&[]), String::new());
}

#[test]
fn arguments_resolve_literals_mnemonics_and_earlier_constants() {
    let mut table = SymbolTable::new();
    table.defs.push(Definition { name: chars("TEN"), line: 2, words: Some(vec![0x0A, 0x0B]) });
    table.defs.push(Definition { name: chars("loop"), line: 3, words: None });
    assert_eq!(parse_argument(&chars("0x1F"), &table, 0), Some(vec![0x1F]));
    assert_eq!(parse_argument(&chars("HLT"), &table, 0), Some(vec![0x03B]));
    assert_eq!(parse_argument(&chars("TEN"), &table, 5), Some(vec![0x0A, 0x0B]));
    assert_eq!(parse_argument(&chars("TEN"), &table, 2), None);
    assert_eq!(parse_argument(&chars("loop"), &table, 5), None);
    assert_eq!(resolve_token(&chars("loop"), &table, 0, true), Some(vec![3]));
    assert_eq!(parse_argument(&chars("nothing"), &table, 5), None);
    assert_eq!(table.find(&chars("loop")), Some(1));
    assert_eq!(table.find(&chars("nothing")), None);
}
