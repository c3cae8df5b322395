//! Typed schema of the WebAssembly opcode table (`instructions.toml`), its
//! stack-type validation, and the comparison of the table against a Spectec
//! binary-instructions grammar.
//!
//! The TOML reading itself is done by the `toml` crate outside this library;
//! the library holds the data model, the rules the data must satisfy, the
//! Spectec grammar reader and the report of opcodes that the table lacks.

pub mod cli;
pub mod instructions;
pub mod report;
pub mod spectec;
pub mod text;

pub use cli::{default_instructions_path, parse_args, usage, Invocation};
pub use instructions::{
    validate_instructions_table, validate_stack_entry, ControlFrame, ControlKind, Immediate,
    Instruction, InstructionsTable, LabelTarget, Opcode, OpcodeRaw, OpcodeTomlError, StackEntry,
    StackType, TypeExpr, ValidateError,
};
pub use report::{exit_code, format_opcode, missing_opcodes, print_missing_table, MissingOpcode};
pub use spectec::{
    bu32_index, hex_byte, opcode_key, parse_section_line, parse_spectec, rule_arrow, rule_content,
    SpectecError, SpectecRule, SpectecScan,
};
