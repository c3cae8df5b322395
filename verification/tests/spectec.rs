use wasm_opcode_table::spectec::SpectecScan;
use wasm_opcode_table::{
    bu32_index, hex_byte, opcode_key, parse_section_line, parse_spectec, rule_arrow, rule_content,
    Opcode, SpectecError,
};

const SAMPLE: &str = r#"
;; Control instructions

grammar Binstr/control : instr = ...
  | 0x08 x:Btagidx => THROW x
  | 0x10 x:Bfuncidx => CALL x
  | 0xFB 24:Bu32 (null_1?, null_2?):Bcastop
    l:Blabelidx ht_1:Bheaptype ht_2:Bheaptype => BR_ON_CAST l (REF null_1? ht_1) (REF null_2? ht_2)
  | 0xFC 10:Bu32 x_1:Bmemidx x_2:Bmemidx => MEMORY.COPY x_1 x_2
"#;

#[test]
fn hex_byte_parses() {
    assert_eq!(hex_byte("0x08 x").unwrap().1, 0x08);
    assert_eq!(hex_byte("0xFB ").unwrap().1, 0xFB);
}

#[test]
fn bu32_index_parses() {
    assert_eq!(bu32_index("24:Bu32 ").unwrap().1, 24);
    assert_eq!(bu32_index("256:Bu32").unwrap().1, 256);
}

#[test]
fn opcode_key_parses() {
    assert_eq!(
        opcode_key("0x08 x:Btagidx").unwrap().1,
        Opcode::Single(0x08)
    );
    assert_eq!(
        opcode_key("0xFC 10:Bu32 x_1").unwrap().1,
        Opcode::Multi(0xFC, 10)
    );
    assert_eq!(
        opcode_key("0xFB 24:Bu32 (null_1?)").unwrap().1,
        Opcode::Multi(0xFB, 24)
    );
}

#[test]
fn rule_arrow_parses() {
    let (_, (left, ast)) = rule_arrow("0x08 x:Btagidx => THROW x").unwrap();
    assert_eq!(left, "0x08 x:Btagidx");
    assert_eq!(ast, "THROW x");
}

#[test]
fn parse_spectec_sample() {
    let rules = parse_spectec(SAMPLE);
    assert!(rules.iter().any(|r| r.opcode == Opcode::Single(0x08)));
    assert!(rules.iter().any(|r| r.opcode == Opcode::Multi(0xFB, 24)));
    assert!(rules.iter().any(|r| r.opcode == Opcode::Multi(0xFC, 10)));
}

#[test]
fn parse_spectec_sample_in_detail() {
    let rules = parse_spectec(SAMPLE);
    let got: Vec<(Opcode, &str, &str)> = rules
        .iter()
        .map(|r| (r.opcode, r.ast.as_str(), r.section.as_str()))
        .collect();
    assert_eq!(
        got,
        vec![
            (Opcode::Single(0x08), "THROW x", "control instructions"),
            (Opcode::Single(0x10), "CALL x", "control instructions"),
            (
                Opcode::Multi(0xFB, 24),
                "BR_ON_CAST l (REF null_1? ht_1) (REF null_2? ht_2)",
                "control instructions"
            ),
            (Opcode::Multi(0xFC, 10), "MEMORY.COPY x_1 x_2", "control instructions"),
        ]
    );
}

#[test]
fn later_rule_for_an_opcode_wins_and_sections_change() {
    let src = ";; First\n  | 0x10 x => OLD\n;; Second Part\n  | 0x10 y => NEW\n  | 0x01 => NOP\n";
    let rules = parse_spectec(src);
    assert_eq!(rules.len(), 2);
    assert_eq!(rules[0].opcode, Opcode::Single(0x01));
    assert_eq!(rules[0].ast, "NOP");
    assert_eq!(rules[0].section, "second part");
    assert_eq!(rules[1].opcode, Opcode::Single(0x10));
    assert_eq!(rules[1].ast, "NEW");
    assert_eq!(rules[1].section, "second part");
}

#[test]
fn rules_before_any_section_are_unknown_and_crlf_is_stripped() {
    let rules = parse_spectec("  | 0x0B => END\r\n  | 0x00 => UNREACHABLE\r\n");
    assert_eq!(rules.len(), 2);
    assert_eq!(rules[0].opcode, Opcode::Single(0x00));
    assert_eq!(rules[0].ast, "UNREACHABLE");
    assert_eq!(rules[0].section, "unknown");
    assert_eq!(rules[1].ast, "END");
}

#[test]
fn empty_ast_and_bad_keys_are_skipped() {
    let src = "  | 0x01 =>   \n  | 0xZZ => BAD\n  | 0x100 => TOO_BIG\n  | 0x02 99999999999:Bu32 => HUGE\n  | 0x03 => OK\n";
    let rules = parse_spectec(src);
    assert_eq!(rules.len(), 1);
    assert_eq!(rules[0].opcode, Opcode::Single(0x03));
}

#[test]
fn continuation_lines_are_joined() {
    let src = "  | 0xFC 10:Bu32\n    x_1:Bmemidx\n    x_2:Bmemidx => COPY\n";
    let rules = parse_spectec(src);
    assert_eq!(rules.len(), 1);
    assert_eq!(rules[0].opcode, Opcode::Multi(0xFC, 10));
    assert_eq!(rules[0].ast, "COPY");
}

#[test]
fn pending_left_side_feeds_a_rule_without_bar() {
    let src = "  | 0xFD 7:Bu32\n    lane:Blaneidx => LANE\n";
    let rules = parse_spectec(src);
    assert_eq!(rules[0].opcode, Opcode::Multi(0xFD, 7));
    let src = "  | 0xFD\n   8:Bu32 => EIGHT\n";
    let rules = parse_spectec(src);
    assert_eq!(rules[0].opcode, Opcode::Multi(0xFD, 8));
}

#[test]
fn ellipsis_and_grammar_lines_do_not_extend_pending() {
    let src = "  | 0x01 x\n  | ...\ngrammar B : x = ...\n  => ONE\n";
    let rules = parse_spectec(src);
    assert_eq!(rules.len(), 1);
    assert_eq!(rules[0].opcode, Opcode::Single(0x01));
    assert_eq!(rules[0].ast, "ONE");
    let src = "grammar B : x = ...\n  x => ONE\n";
    assert_eq!(parse_spectec(src).len(), 0);
    let src = "  | 0x01\n  | ...\n  x => ONE\n";
    let rules = parse_spectec(src);
    assert_eq!(rules.len(), 1);
    assert_eq!(rules[0].ast, "ONE");
}

#[test]
fn section_lines() {
    assert_eq!(parse_section_line("  ;; Control Instructions  "), Some("control instructions".to_string()));
    assert_eq!(parse_section_line(";;   "), None);
    assert_eq!(parse_section_line("; not"), None);
    assert_eq!(parse_section_line(";; ÀÉÎ"), Some("àéî".to_string()));
}

#[test]
fn rule_content_cases() {
    assert_eq!(rule_content("  | 0x01 => A  ", Some("ignored".to_string())), "0x01 => A");
    assert_eq!(rule_content("   x => A ", Some("0x01".to_string())), "0x01 x => A");
    assert_eq!(rule_content("   x => A ", None), "x => A");
}

#[test]
fn grammar_errors() {
    assert_eq!(hex_byte("08"), Err(SpectecError::NoMatch));
    assert_eq!(hex_byte("0x"), Err(SpectecError::NoMatch));
    assert_eq!(hex_byte("0x1FF"), Err(SpectecError::OutOfRange));
    assert_eq!(hex_byte("0X0a rest").unwrap(), (" rest".to_string(), 10));
    assert_eq!(bu32_index("12:Bu3"), Err(SpectecError::NoMatch));
    assert_eq!(bu32_index("4294967296:Bu32"), Err(SpectecError::OutOfRange));
    assert_eq!(bu32_index("4294967295:Bu32x").unwrap(), ("x".to_string(), u32::MAX));
    assert_eq!(opcode_key("0x01 99999999999:Bu32"), Err(SpectecError::OutOfRange));
    assert_eq!(opcode_key(" \n 0x01 12:B").unwrap(), (" 12:B".to_string(), Opcode::Single(1)));
    assert_eq!(rule_arrow("no arrow here"), Err(SpectecError::NoMatch));
}

#[test]
fn scanner_takes_a_given_title() {
    let mut scan = SpectecScan::new();
    let line: Vec<char> = ";; Ignored".chars().collect();
    scan.apply_line(&line, Some("given".to_string()));
    let rule: Vec<char> = "| 0x05 => FIVE".chars().collect();
    scan.apply_line(&rule, None);
    let rules = scan.into_rules();
    assert_eq!(rules.len(), 1);
    assert_eq!(rules[0].section, "given");
}

#[test]
fn blank_and_ellipsis_lines_change_nothing() {
    let with: String = SAMPLE
        .lines()
        .flat_map(|l| vec![l.to_string(), "   ".to_string(), "  | ...  ".to_string(), "\t".to_string()])
        .collect::<Vec<_>>()
        .join("\n");
    assert_eq!(parse_spectec(&with), parse_spectec(SAMPLE));
    assert_eq!(parse_spectec(&with).len(), 4);
}
