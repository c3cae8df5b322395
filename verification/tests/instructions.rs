use wasm_opcode_table::{
    validate_instructions_table, validate_stack_entry, ControlFrame, ControlKind, Instruction,
    InstructionsTable, LabelTarget, Opcode, OpcodeRaw, OpcodeTomlError, StackEntry, StackType,
    TypeExpr, ValidateError,
};

fn frame(control: ControlKind, label: LabelTarget) -> StackEntry {
    StackEntry::Control(ControlFrame {
        control,
        start: TypeExpr("params(bt)".to_string()),
        end: TypeExpr("results(bt)".to_string()),
        label,
    })
}

fn instr(name: &str, opcode: Opcode, from: Vec<StackEntry>, to: Vec<StackEntry>) -> Instruction {
    Instruction {
        name: name.to_string(),
        variant: None,
        opcode,
        category: "control".to_string(),
        immediates: None,
        stack_type: Some(StackType { from, to }),
        feature: None,
        since: Some("1".to_string()),
    }
}

#[test]
fn control_labels_follow_their_kind() {
    assert_eq!(validate_stack_entry(&frame(ControlKind::Loop, LabelTarget::Start)), Ok(()));
    assert_eq!(validate_stack_entry(&frame(ControlKind::Block, LabelTarget::End)), Ok(()));
    assert_eq!(validate_stack_entry(&frame(ControlKind::If, LabelTarget::End)), Ok(()));
    assert_eq!(
        validate_stack_entry(&frame(ControlKind::Loop, LabelTarget::End)),
        Err(ValidateError::ControlLabelMismatch { control: ControlKind::Loop, label: LabelTarget::End })
    );
    assert_eq!(
        validate_stack_entry(&frame(ControlKind::Block, LabelTarget::Start)),
        Err(ValidateError::ControlLabelMismatch { control: ControlKind::Block, label: LabelTarget::Start })
    );
    assert_eq!(
        validate_stack_entry(&frame(ControlKind::If, LabelTarget::Start)),
        Err(ValidateError::ControlLabelMismatch { control: ControlKind::If, label: LabelTarget::Start })
    );
}

#[test]
fn other_entries_are_always_valid() {
    let t = TypeExpr("i32".to_string());
    assert_eq!(validate_stack_entry(&StackEntry::Type(t.clone())), Ok(()));
    assert_eq!(validate_stack_entry(&StackEntry::TypeOf(t.clone())), Ok(()));
    assert_eq!(validate_stack_entry(&StackEntry::TypesOf(t)), Ok(()));
    assert_eq!(validate_stack_entry(&StackEntry::Unreachable), Ok(()));
}

#[test]
fn table_reports_the_first_bad_entry() {
    let good = InstructionsTable {
        instructions: vec![
            instr("block", Opcode::Single(0x02), vec![], vec![frame(ControlKind::Block, LabelTarget::End)]),
            instr("loop", Opcode::Single(0x03), vec![], vec![frame(ControlKind::Loop, LabelTarget::Start)]),
            Instruction { stack_type: None, ..instr("nop", Opcode::Single(0x01), vec![], vec![]) },
        ],
    };
    assert_eq!(validate_instructions_table(&good), Ok(()));

    let bad = InstructionsTable {
        instructions: vec![
            instr("block", Opcode::Single(0x02), vec![], vec![frame(ControlKind::Block, LabelTarget::End)]),
            instr(
                "x",
                Opcode::Single(0x04),
                vec![StackEntry::Unreachable],
                vec![frame(ControlKind::If, LabelTarget::Start)],
            ),
            instr("y", Opcode::Single(0x05), vec![frame(ControlKind::Loop, LabelTarget::End)], vec![]),
        ],
    };
    assert_eq!(
        validate_instructions_table(&bad),
        Err(ValidateError::ControlLabelMismatch { control: ControlKind::If, label: LabelTarget::Start })
    );

    let from_first = InstructionsTable {
        instructions: vec![instr(
            "z",
            Opcode::Single(0x06),
            vec![frame(ControlKind::Loop, LabelTarget::End)],
            vec![frame(ControlKind::If, LabelTarget::Start)],
        )],
    };
    assert_eq!(
        validate_instructions_table(&from_first),
        Err(ValidateError::ControlLabelMismatch { control: ControlKind::Loop, label: LabelTarget::End })
    );
    assert_eq!(validate_instructions_table(&InstructionsTable { instructions: vec![] }), Ok(()));
}

#[test]
fn raw_opcodes_are_range_checked() {
    assert_eq!(Opcode::try_from_raw(OpcodeRaw::Single(0x6A)), Ok(Opcode::Single(0x6A)));
    assert_eq!(Opcode::try_from_raw(OpcodeRaw::Single(255)), Ok(Opcode::Single(255)));
    assert_eq!(Opcode::try_from_raw(OpcodeRaw::Single(256)), Err(OpcodeTomlError::SingleOutOfRange(256)));
    assert_eq!(Opcode::try_from_raw(OpcodeRaw::Multi(vec![0xFC, 17])), Ok(Opcode::Multi(0xFC, 17)));
    assert_eq!(
        Opcode::try_from_raw(OpcodeRaw::Multi(vec![0xFD, 4294967295])),
        Ok(Opcode::Multi(0xFD, u32::MAX))
    );
    assert_eq!(Opcode::try_from_raw(OpcodeRaw::Multi(vec![1, 2, 3])), Err(OpcodeTomlError::MultiWrongLength(3)));
    assert_eq!(Opcode::try_from_raw(OpcodeRaw::Multi(vec![])), Err(OpcodeTomlError::MultiWrongLength(0)));
    assert_eq!(
        Opcode::try_from_raw(OpcodeRaw::Multi(vec![256, 1])),
        Err(OpcodeTomlError::MultiOutOfRange { prefix: 256, index: 1 })
    );
    assert_eq!(
        Opcode::try_from_raw(OpcodeRaw::Multi(vec![0xFC, 4294967296])),
        Err(OpcodeTomlError::MultiOutOfRange { prefix: 0xFC, index: 4294967296 })
    );
}

#[test]
fn opcode_error_messages() {
    assert_eq!(OpcodeTomlError::SingleOutOfRange(300).message(), "single opcode 300 does not fit in u8");
    assert_eq!(
        OpcodeTomlError::MultiWrongLength(3).message(),
        "multi opcode must have exactly 2 elements, got 3"
    );
    assert_eq!(
        OpcodeTomlError::MultiOutOfRange { prefix: 252, index: 4294967296 }.message(),
        "multi opcode [252, 4294967296] does not fit in (u8, u32)"
    );
}

#[test]
fn validating_concatenated_tables() {
    let ok1 = vec![instr("block", Opcode::Single(0x02), vec![], vec![frame(ControlKind::Block, LabelTarget::End)])];
    let bad1 = vec![instr("a", Opcode::Single(0x03), vec![frame(ControlKind::Loop, LabelTarget::End)], vec![])];
    let bad2 = vec![instr("b", Opcode::Single(0x04), vec![], vec![frame(ControlKind::If, LabelTarget::Start)])];
    let join = |a: &Vec<Instruction>, b: &Vec<Instruction>| InstructionsTable {
        instructions: a.iter().chain(b.iter()).cloned().collect(),
    };
    let one = |a: &Vec<Instruction>| InstructionsTable { instructions: a.clone() };
    for (a, b) in [(&ok1, &bad2), (&bad1, &bad2), (&ok1, &ok1), (&bad2, &ok1)] {
        let expected = match validate_instructions_table(&one(a)) {
            Err(e) => Err(e),
            Ok(()) => validate_instructions_table(&one(b)),
        };
        assert_eq!(validate_instructions_table(&join(a, b)), expected);
    }
}
