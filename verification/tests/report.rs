use wasm_opcode_table::{
    opcode_key, default_instructions_path, exit_code, format_opcode, missing_opcodes, parse_args,
    parse_spectec, print_missing_table, usage, Instruction, InstructionsTable, MissingOpcode,
    Opcode,
};

fn instr(opcode: Opcode) -> Instruction {
    Instruction {
        name: "x".to_string(),
        variant: None,
        opcode,
        category: "numeric".to_string(),
        immediates: None,
        stack_type: None,
        feature: None,
        since: None,
    }
}

fn render_missing_table(missing: &[MissingOpcode]) -> String {
    let mut out = String::new();
    print_missing_table(&mut out, missing);
    out
}

#[test]
fn opcodes_print_as_hex_and_index() {
    assert_eq!(format_opcode(Opcode::Single(0x08)), "0x08");
    assert_eq!(format_opcode(Opcode::Single(0xFB)), "0xFB");
    assert_eq!(format_opcode(Opcode::Multi(0xFC, 10)), "[0xFC, 10]");
    assert_eq!(format_opcode(Opcode::Multi(0x0A, u32::MAX)), "[0x0A, 4294967295]");
}

#[test]
fn missing_rules_are_those_the_table_lacks() {
    let src = "  | 0x08 x => THROW x\n  | 0x10 x => CALL x\n  | 0xFC 10:Bu32 => MEMORY.COPY\n";
    let rules = parse_spectec(src);
    let table = InstructionsTable { instructions: vec![instr(Opcode::Single(0x10)), instr(Opcode::Multi(0xFC, 11))] };
    let missing = missing_opcodes(&table, &rules);
    let got: Vec<(Opcode, &str)> = missing.iter().map(|m| (m.opcode, m.ast.as_str())).collect();
    assert_eq!(got, vec![(Opcode::Single(0x08), "THROW x"), (Opcode::Multi(0xFC, 10), "MEMORY.COPY")]);
    assert_eq!(exit_code(&missing), 2);

    let full = InstructionsTable {
        instructions: vec![instr(Opcode::Single(0x08)), instr(Opcode::Single(0x10)), instr(Opcode::Multi(0xFC, 10))],
    };
    let none = missing_opcodes(&full, &rules);
    assert!(none.is_empty());
    assert_eq!(exit_code(&none), 0);
}

#[test]
fn empty_report() {
    assert_eq!(
        render_missing_table(&[]),
        "No missing instructions (all Spectec opcodes are in the table).\n"
    );
}

#[test]
fn report_table_layout() {
    let missing = vec![
        MissingOpcode { opcode: Opcode::Single(0x08), ast: "THROW x".to_string(), section: "control".to_string() },
        MissingOpcode { opcode: Opcode::Multi(0xFC, 10), ast: "MEMORY.COPY x_1 x_2".to_string(), section: "memory".to_string() },
    ];
    let expected = "opcode      spectec              section\n\
                    -----------------------------------------\n\
                    0x08        THROW x              control\n\
                    [0xFC, 10]  MEMORY.COPY x_1 x_2  memory\n\
                    \n\
                    2 missing instruction(s).\n";
    assert_eq!(render_missing_table(&missing), expected);
}

fn reference_table(missing: &[MissingOpcode]) -> String {
    let mut w = String::new();
    if missing.is_empty() {
        w.push_str("No missing instructions (all Spectec opcodes are in the table).\n");
        return w;
    }
    let op_col = missing.iter().map(|m| format_opcode(m.opcode).len()).max().unwrap_or(6).max(6);
    let ast_col = missing.iter().map(|m| m.ast.len()).max().unwrap_or(3).max(3);
    w.push_str(&format!("{:<op_col$}  {:<ast_col$}  {}\n", "opcode", "spectec", "section"));
    w.push_str(&format!("{}\n", "-".repeat(op_col + ast_col + 12)));
    for m in missing {
        w.push_str(&format!("{:<op_col$}  {:<ast_col$}  {}\n", format_opcode(m.opcode), m.ast, m.section));
    }
    w.push_str("\n");
    w.push_str(&format!("{} missing instruction(s).\n", missing.len()));
    w
}

#[test]
fn report_columns_have_minimum_widths_and_byte_widths() {
    // The AST column width counts bytes ("éé" is four), the padding counts characters.
    let missing = vec![MissingOpcode { opcode: Opcode::Single(1), ast: "éé".to_string(), section: "s".to_string() }];
    let expected = "opcode  spectec  section\n----------------------\n0x01    éé    s\n\n1 missing instruction(s).\n";
    assert_eq!(render_missing_table(&missing), expected);
    assert_eq!(render_missing_table(&missing), reference_table(&missing));
    let more = vec![
        MissingOpcode { opcode: Opcode::Multi(0xFD, 4294967295), ast: "A".to_string(), section: "x y".to_string() },
        MissingOpcode { opcode: Opcode::Single(0), ast: "世界世界".to_string(), section: "".to_string() },
    ];
    assert_eq!(render_missing_table(&more), reference_table(&more));
    assert_eq!(render_missing_table(&[]), reference_table(&[]));
}

#[test]
fn command_line_arguments() {
    let a = |xs: &[&str]| xs.iter().map(|s| s.to_string()).collect::<Vec<String>>();
    let inv = parse_args(&a(&["spec.watsup"])).unwrap();
    assert_eq!(inv.spectec_path, "spec.watsup");
    assert_eq!(inv.instructions_path, "instructions.toml");
    let inv = parse_args(&a(&["spec.watsup", "table.toml"])).unwrap();
    assert_eq!(inv.instructions_path, "table.toml");
    assert_eq!(parse_args(&a(&[])), Err(usage()));
    assert_eq!(parse_args(&a(&["a", "b", "c"])), Err(usage()));
    assert!(usage().starts_with("usage: diff-spectec <spectec-file> [instructions.toml]\n\n"));
    assert!(usage().ends_with("exits 2 when any are missing."));
    assert_eq!(default_instructions_path(), "instructions.toml");
}

#[test]
fn report_is_appended_to_what_was_written() {
    let mut out = String::from("before\n");
    print_missing_table(&mut out, &[]);
    assert_eq!(out, "before\nNo missing instructions (all Spectec opcodes are in the table).\n");
}

#[test]
fn printed_single_opcodes_read_back() {
    for b in 0..=255u8 {
        assert_eq!(opcode_key(&format_opcode(Opcode::Single(b))).unwrap(), (String::new(), Opcode::Single(b)));
    }
}

#[test]
fn more_opcodes_in_the_table_report_a_subsequence() {
    let src = "  | 0x01 => A\n  | 0x02 => B\n  | 0x03 => C\n  | 0xFC 1:Bu32 => D\n";
    let rules = parse_spectec(src);
    let empty = InstructionsTable { instructions: vec![] };
    let all = missing_opcodes(&empty, &rules);
    let fields: Vec<(Opcode, String, String)> = all.iter().map(|m| (m.opcode, m.ast.clone(), m.section.clone())).collect();
    let rule_fields: Vec<(Opcode, String, String)> = rules.iter().map(|r| (r.opcode, r.ast.clone(), r.section.clone())).collect();
    assert_eq!(fields, rule_fields);
    let small = InstructionsTable { instructions: vec![instr(Opcode::Single(0x02))] };
    let large = InstructionsTable { instructions: vec![instr(Opcode::Single(0x02)), instr(Opcode::Multi(0xFC, 1))] };
    let from_small = missing_opcodes(&small, &rules);
    let from_large = missing_opcodes(&large, &rules);
    let mut it = from_small.iter();
    for m in &from_large {
        assert!(it.any(|x| x == m));
    }
    assert_eq!(from_large.len(), 2);
    assert_eq!(from_small.len(), 3);
}

#[test]
fn distinct_opcodes_print_differently() {
    let mut ops = Vec::new();
    for b in 0..=255u8 {
        ops.push(Opcode::Single(b));
    }
    for p in [0u8, 0x0A, 0xFC, 0xFF] {
        for i in [0u32, 1, 10, 100, 4294967295] {
            ops.push(Opcode::Multi(p, i));
        }
    }
    let mut texts: Vec<String> = ops.iter().map(|o| format_opcode(*o)).collect();
    texts.sort();
    texts.dedup();
    assert_eq!(texts.len(), ops.len());
}
