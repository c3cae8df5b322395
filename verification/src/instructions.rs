//! Schema for `instructions.toml` and the control-frame label rule.

use vstd::prelude::*;

use crate::text::{chars_of, decimal, push_all, push_decimal, string_of};

verus! {

/// Root document: the `[[instructions]]` array-of-tables.
#[derive(Debug, Clone, PartialEq, Eq)]
pub struct InstructionsTable {
    pub instructions: Vec<Instruction>,
}

/// A single WebAssembly instruction / opcode entry.
#[derive(Debug, Clone, PartialEq, Eq)]
pub struct Instruction {
    pub name: String,
    pub variant: Option<String>,
    pub opcode: Opcode,
    pub category: String,
    pub immediates: Option<Vec<Immediate>>,
    pub stack_type: Option<StackType>,
    pub feature: Option<String>,
    pub since: Option<String>,
}

/// Opcode as written in TOML: an integer (`0x6A`) or a two-element array (`[0xFC, 17]`).
#[derive(Debug, Clone, Copy, PartialEq, Eq, Structural)]
pub enum Opcode {
    /// `opcode = 0xNN`
    Single(u8),
    /// `opcode = [prefix, index]`: prefix byte and opcode index.
    Multi(u8, u32),
}

/// Immediate operand in the instruction encoding.
#[derive(Debug, Clone, PartialEq, Eq)]
pub struct Immediate {
    pub ty: String,
    pub name: Option<String>,
    pub binary_order: Option<u64>,
}

/// Stack signature (`stack-type.from` / `stack-type.to`).
#[derive(Debug, Clone, PartialEq, Eq)]
pub struct StackType {
    pub from: Vec<StackEntry>,
    pub to: Vec<StackEntry>,
}

/// Symbolic or concrete type expression in a stack slot descriptor.
#[derive(Debug, Clone, PartialEq, Eq)]
pub struct TypeExpr(pub String);

/// Control construct pushed on the control stack (`block` / `loop` / `if`).
#[derive(Debug, Clone, PartialEq, Eq)]
pub struct ControlFrame {
    pub control: ControlKind,
    pub start: TypeExpr,
    pub end: TypeExpr,
    pub label: LabelTarget,
}

/// WebAssembly control instruction kind.
#[derive(Debug, Clone, Copy, PartialEq, Eq, Structural)]
pub enum ControlKind {
    Block,
    Loop,
    If,
}

/// Branch target for a control frame: break (`end`) or continue (`start`).
#[derive(Debug, Clone, Copy, PartialEq, Eq, Structural)]
pub enum LabelTarget {
    /// Branch exits the construct (break): `label = "end"` in TOML.
    End,
    /// Branch targets the head of a loop (continue): `label = "start"` in TOML.
    Start,
}

/// One stack slot descriptor in `stack-type.from` / `stack-type.to`.
#[derive(Debug, Clone, PartialEq, Eq)]
pub enum StackEntry {
    Type(TypeExpr),
    TypeOf(TypeExpr),
    TypesOf(TypeExpr),
    Unreachable,
    Control(ControlFrame),
}

/// Validation error for stack-type invariants not expressible in the type system.
#[derive(Debug, Clone, PartialEq, Eq)]
pub enum ValidateError {
    ControlLabelMismatch { control: ControlKind, label: LabelTarget },
}

/// The label a control frame of the given kind must carry:
/// a `loop` continues at its head, `block` and `if` break out at their end.
pub open spec fn expected_label(control: ControlKind) -> LabelTarget {
    match control {
        ControlKind::Loop => LabelTarget::Start,
        ControlKind::Block => LabelTarget::End,
        ControlKind::If => LabelTarget::End,
    }
}

/// A stack entry is valid unless it is a control frame whose label does not
/// match its kind.
pub open spec fn entry_valid(entry: StackEntry) -> bool {
    match entry {
        StackEntry::Control(frame) => frame.label == expected_label(frame.control),
        _ => true,
    }
}

/// The outcome of checking one stack entry.
pub open spec fn entry_check(entry: StackEntry) -> Result<(), ValidateError> {
    match entry {
        StackEntry::Control(frame) => if frame.label == expected_label(frame.control) {
            Ok(())
        } else {
            Err(ValidateError::ControlLabelMismatch { control: frame.control, label: frame.label })
        },
        _ => Ok(()),
    }
}

/// The stack entries of one instruction in checking order: `from`, then `to`.
pub open spec fn instruction_entries(instr: Instruction) -> Seq<StackEntry> {
    match instr.stack_type {
        Some(st) => st.from@ + st.to@,
        None => Seq::empty(),
    }
}

/// All stack entries of a sequence of instructions, in table order.
pub open spec fn table_entries(instrs: Seq<Instruction>) -> Seq<StackEntry>
    decreases instrs.len(),
{
    if instrs.len() == 0 {
        Seq::empty()
    } else {
        table_entries(instrs.drop_last()) + instruction_entries(instrs.last())
    }
}

/// Check control-frame label invariants (`loop` -> `Start`, `block`/`if` -> `End`).
///
/// Returns [`ValidateError::ControlLabelMismatch`] when a control frame's `label`
/// does not match its `control` kind.
pub fn validate_stack_entry(entry: &StackEntry) -> (r: Result<(), ValidateError>)
    ensures
        r == entry_check(*entry),
        r is Ok <==> entry_valid(*entry),
{
    match entry {
        StackEntry::Control(frame) => {
            let ok = match (frame.control, frame.label) {
                (ControlKind::Loop, LabelTarget::Start) => true,
                (ControlKind::Block, LabelTarget::End) => true,
                (ControlKind::If, LabelTarget::End) => true,
                _ => false,
            };
            if ok {
                Ok(())
            } else {
                Err(ValidateError::ControlLabelMismatch { control: frame.control, label: frame.label })
            }
        },
        _ => Ok(()),
    }
}

/// The outcome of checking entries in order: the error of the first invalid
/// entry, if there is one.
pub open spec fn first_failure(es: Seq<StackEntry>) -> Result<(), ValidateError>
    decreases es.len(),
{
    if es.len() == 0 {
        Ok(())
    } else {
        match entry_check(es[0]) {
            Err(e) => Err(e),
            Ok(()) => first_failure(es.drop_first()),
        }
    }
}

/// The outcome of validating a sequence of instructions.
pub open spec fn table_result(instrs: Seq<Instruction>) -> Result<(), ValidateError> {
    first_failure(table_entries(instrs))
}

/// The first failure of entries is Ok exactly when all are valid, and
/// otherwise is the error of the first invalid entry.
pub proof fn lemma_first_failure(es: Seq<StackEntry>)
    ensures
        first_failure(es) is Ok <==> forall|k: int| 0 <= k < es.len() ==> entry_valid(
            #[trigger] es[k],
        ),
        first_failure(es) is Err ==> exists|k: int|
            0 <= k < es.len() && !entry_valid(#[trigger] es[k]) && (forall|j: int|
                0 <= j < k ==> entry_valid(#[trigger] es[j])) && first_failure(es) == entry_check(
                es[k],
            ),
    decreases es.len(),
{
    if es.len() > 0 {
        let rest = es.drop_first();
        lemma_first_failure(rest);
        if entry_valid(es[0]) {
            assert forall|k: int| 0 <= k < rest.len() implies rest[k] == es[k + 1] by {}
            if first_failure(rest) is Ok {
                assert forall|k: int| 0 <= k < es.len() implies entry_valid(#[trigger] es[k]) by {
                    if k > 0 {
                        assert(es[k] == rest[k - 1]);
                    }
                }
            } else {
                let k = choose|k: int|
                    0 <= k < rest.len() && !entry_valid(#[trigger] rest[k]) && (forall|j: int|
                        0 <= j < k ==> entry_valid(#[trigger] rest[j])) && first_failure(rest)
                        == entry_check(rest[k]);
                assert(es[k + 1] == rest[k]);
                assert forall|j: int| 0 <= j < k + 1 implies entry_valid(#[trigger] es[j]) by {
                    if j > 0 {
                        assert(es[j] == rest[j - 1]);
                    }
                }
                assert(!entry_valid(es[0 + (k + 1)]));
            }
        }
    }
}

/// Checking a concatenation: the first part's error, else the second part's outcome.
pub proof fn lemma_first_failure_concat(a: Seq<StackEntry>, b: Seq<StackEntry>)
    ensures
        first_failure(a + b) == (match first_failure(a) {
            Err(e) => Err(e),
            Ok(()) => first_failure(b),
        }),
    decreases a.len(),
{
    if a.len() == 0 {
        assert(a + b =~= b);
    } else {
        lemma_first_failure_concat(a.drop_first(), b);
        assert((a + b).drop_first() =~= a.drop_first() + b);
        assert((a + b)[0] == a[0]);
    }
}

/// The entries of concatenated instruction sequences are the concatenated entries.
pub proof fn lemma_table_entries_concat(a: Seq<Instruction>, b: Seq<Instruction>)
    ensures
        table_entries(a + b) == table_entries(a) + table_entries(b),
    decreases b.len(),
{
    if b.len() == 0 {
        assert(a + b =~= a);
        assert(table_entries(a) + table_entries(b) =~= table_entries(a));
    } else {
        lemma_table_entries_concat(a, b.drop_last());
        assert((a + b).drop_last() =~= a + b.drop_last());
        assert((a + b).last() == b.last());
        assert(table_entries(a + b) =~= table_entries(a) + table_entries(b));
    }
}

/// Validating two tables one after the other: the first table's error, else
/// the second table's outcome.
pub proof fn lemma_validate_concat(a: Seq<Instruction>, b: Seq<Instruction>)
    ensures
        table_result(a + b) == (match table_result(a) {
            Err(e) => Err(e),
            Ok(()) => table_result(b),
        }),
{
    lemma_table_entries_concat(a, b);
    lemma_first_failure_concat(table_entries(a), table_entries(b));
}

/// Checks `entries` in order; the first invalid entry decides the error.
fn validate_entries(entries: &Vec<StackEntry>) -> (r: Result<(), ValidateError>)
    ensures
        r == first_failure(entries@),
{
    let mut i: usize = 0;
    assert(entries@.skip(0) =~= entries@);
    while i < entries.len()
        invariant
            i <= entries@.len(),
            first_failure(entries@) == first_failure(entries@.skip(i as int)),
        decreases entries@.len() - i,
    {
        assert(entries@.skip(i as int)[0] == entries@[i as int]);
        assert(entries@.skip(i as int).drop_first() =~= entries@.skip(i + 1));
        let r = validate_stack_entry(&entries[i]);
        if r.is_err() {
            return r;
        }
        i = i + 1;
    }
    Ok(())
}

/// Validate every stack entry in the table.
///
/// Returns the first [`ValidateError`] produced by [`validate_stack_entry`],
/// instructions taken in table order and, within one, `from` before `to`.
pub fn validate_instructions_table(table: &InstructionsTable) -> (r: Result<(), ValidateError>)
    ensures
        r == table_result(table.instructions@),
        r is Ok <==> all_from_entries_valid(table.instructions@) && all_to_entries_valid(
            table.instructions@,
        ),
        ({
            let es = table_entries(table.instructions@);
            &&& r is Ok <==> forall|k: int| 0 <= k < es.len() ==> entry_valid(#[trigger] es[k])
            &&& r is Err ==> exists|k: int|
                0 <= k < es.len() && !entry_valid(#[trigger] es[k]) && (forall|j: int|
                    0 <= j < k ==> entry_valid(#[trigger] es[j])) && r == entry_check(es[k])
        }),
{
    let ghost instrs = table.instructions@;
    let mut i: usize = 0;
    assert(instrs.take(0) + instrs.skip(0) =~= instrs);
    while i < table.instructions.len()
        invariant
            instrs == table.instructions@,
            i <= instrs.len(),
            first_failure(table_entries(instrs.take(i as int))) is Ok,
            first_failure(table_entries(instrs)) == first_failure(table_entries(instrs.skip(i as int))),
        decreases instrs.len() - i,
    {
        let ghost done = table_entries(instrs.take(i as int));
        let ghost rest = table_entries(instrs.skip(i + 1));
        let ghost own = instruction_entries(instrs[i as int]);
        proof {
            assert(instrs.take(i + 1).drop_last() =~= instrs.take(i as int));
            assert(instrs.take(i + 1).last() == instrs[i as int]);
            assert(instrs.skip(i as int) =~= seq![instrs[i as int]] + instrs.skip(i + 1));
            lemma_table_entries_concat(seq![instrs[i as int]], instrs.skip(i + 1));
            assert(seq![instrs[i as int]].drop_last() =~= Seq::<Instruction>::empty());
            assert(table_entries(Seq::<Instruction>::empty()) =~= Seq::<StackEntry>::empty());
            assert(table_entries(seq![instrs[i as int]]) =~= own);
            lemma_first_failure_concat(own, rest);
            lemma_first_failure_concat(done, own);
        }
        let instruction = &table.instructions[i];
        match &instruction.stack_type {
            Some(stack) => {
                proof {
                    lemma_first_failure_concat(stack.from@, stack.to@);
                }
                let r = validate_entries(&stack.from);
                if r.is_err() {
                    proof {
                        lemma_first_failure(table_entries(instrs));
                        lemma_table_checks_every_entry(instrs);
                    }
                    return r;
                }
                let r = validate_entries(&stack.to);
                if r.is_err() {
                    proof {
                        lemma_first_failure(table_entries(instrs));
                        lemma_table_checks_every_entry(instrs);
                    }
                    return r;
                }
            },
            None => {},
        }
        i = i + 1;
    }
    assert(instrs.skip(instrs.len() as int) =~= Seq::<Instruction>::empty());
    proof {
        lemma_first_failure(table_entries(instrs));
                        lemma_table_checks_every_entry(instrs);
    }
    Ok(())
}

// ---------------------------------------------------------------------------
// Opcodes as TOML writes them
// ---------------------------------------------------------------------------

/// An opcode as read from TOML, before its range is checked: an integer, or
/// an array of integers.
#[derive(Debug, Clone, PartialEq, Eq)]
pub enum OpcodeRaw {
    Single(u64),
    Multi(Vec<u64>),
}

/// Why a TOML opcode is not an [`Opcode`].
#[derive(Debug, Clone, Copy, PartialEq, Eq, Structural)]
pub enum OpcodeTomlError {
    /// An integer opcode above 255.
    SingleOutOfRange(u64),
    /// An array opcode without exactly two elements.
    MultiWrongLength(usize),
    /// An array opcode whose prefix is above 255 or whose index is above `u32::MAX`.
    MultiOutOfRange { prefix: u64, index: u64 },
}

/// The opcode a TOML value denotes, or why it denotes none.
pub open spec fn opcode_from_raw(raw: OpcodeRaw) -> Result<Opcode, OpcodeTomlError> {
    match raw {
        OpcodeRaw::Single(v) => if v <= 255 {
            Ok(Opcode::Single(v as u8))
        } else {
            Err(OpcodeTomlError::SingleOutOfRange(v))
        },
        OpcodeRaw::Multi(vs) => if vs@.len() != 2 {
            Err(OpcodeTomlError::MultiWrongLength(vs@.len() as usize))
        } else if vs@[0] <= 255 && vs@[1] <= u32::MAX {
            Ok(Opcode::Multi(vs@[0] as u8, vs@[1] as u32))
        } else {
            Err(OpcodeTomlError::MultiOutOfRange { prefix: vs@[0], index: vs@[1] })
        },
    }
}

/// The text that describes an opcode error.
pub open spec fn toml_error_text(e: OpcodeTomlError) -> Seq<char> {
    match e {
        OpcodeTomlError::SingleOutOfRange(v) => "single opcode "@ + decimal(v as nat)
            + " does not fit in u8"@,
        OpcodeTomlError::MultiWrongLength(len) => "multi opcode must have exactly 2 elements, got "@
            + decimal(len as nat),
        OpcodeTomlError::MultiOutOfRange { prefix, index } => "multi opcode ["@ + decimal(
            prefix as nat,
        ) + ", "@ + decimal(index as nat) + "] does not fit in (u8, u32)"@,
    }
}

impl Opcode {
    /// Checks the range of a TOML opcode: an integer must fit in `u8`; an
    /// array must have two elements, a `u8` prefix and a `u32` index.
    pub fn try_from_raw(raw: OpcodeRaw) -> (r: Result<Opcode, OpcodeTomlError>)
        ensures
            r == opcode_from_raw(raw),
            r matches Ok(op) ==> is_toml_form(op, raw),
            r is Err ==> forall|op: Opcode| !is_toml_form(op, raw),
            raw matches OpcodeRaw::Multi(vs) ==> (vs@.len() != 2 ==> r
                == Err::<Opcode, OpcodeTomlError>(OpcodeTomlError::MultiWrongLength(vs@.len() as usize))),
            raw matches OpcodeRaw::Single(v) ==> (v > 255 ==> r
                == Err::<Opcode, OpcodeTomlError>(OpcodeTomlError::SingleOutOfRange(v))),
    {
        proof {
            lemma_opcode_from_raw_accepts_exactly_toml_forms(raw);
        }
        match raw {
            OpcodeRaw::Single(value) => {
                if value <= 255 {
                    Ok(Opcode::Single(value as u8))
                } else {
                    Err(OpcodeTomlError::SingleOutOfRange(value))
                }
            },
            OpcodeRaw::Multi(values) => {
                if values.len() != 2 {
                    return Err(OpcodeTomlError::MultiWrongLength(values.len()));
                }
                let prefix = values[0];
                let index = values[1];
                if prefix > 255 {
                    return Err(OpcodeTomlError::MultiOutOfRange { prefix, index });
                }
                if index > 0xFFFF_FFFF {
                    return Err(OpcodeTomlError::MultiOutOfRange { prefix, index });
                }
                Ok(Opcode::Multi(prefix as u8, index as u32))
            },
        }
    }
}

impl OpcodeTomlError {
    /// The human-readable description of the error.
    pub fn message(&self) -> (r: String)
        ensures
            r@ == toml_error_text(*self),
    {
        let mut out: Vec<char> = Vec::new();
        match *self {
            OpcodeTomlError::SingleOutOfRange(v) => {
                push_all(&mut out, &chars_of("single opcode "));
                push_decimal(&mut out, v);
                push_all(&mut out, &chars_of(" does not fit in u8"));
            },
            OpcodeTomlError::MultiWrongLength(len) => {
                push_all(&mut out, &chars_of("multi opcode must have exactly 2 elements, got "));
                push_decimal(&mut out, len as u64);
            },
            OpcodeTomlError::MultiOutOfRange { prefix, index } => {
                push_all(&mut out, &chars_of("multi opcode ["));
                push_decimal(&mut out, prefix);
                push_all(&mut out, &chars_of(", "));
                push_decimal(&mut out, index);
                push_all(&mut out, &chars_of("] does not fit in (u8, u32)"));
            },
        }
        string_of(&out)
    }
}

/// `raw` is how TOML writes `op`: the byte as an integer, or the prefix and
/// index as a two-element array.
pub open spec fn is_toml_form(op: Opcode, raw: OpcodeRaw) -> bool {
    match op {
        Opcode::Single(b) => raw == OpcodeRaw::Single(b as u64),
        Opcode::Multi(p, i) => raw matches OpcodeRaw::Multi(vs) && vs@ == seq![p as u64, i as u64],
    }
}

/// Every opcode, written in its TOML form, is read back as itself.
pub proof fn lemma_opcode_toml_round_trip(op: Opcode, raw: OpcodeRaw)
    requires
        is_toml_form(op, raw),
    ensures
        opcode_from_raw(raw) == Ok::<Opcode, OpcodeTomlError>(op),
{
}

/// Reading a TOML opcode accepts exactly the TOML forms of opcodes, and reads
/// each as the opcode it is the form of; what no opcode is written as is
/// refused, an array of the wrong length with its length.
pub proof fn lemma_opcode_from_raw_accepts_exactly_toml_forms(raw: OpcodeRaw)
    ensures
        opcode_from_raw(raw) matches Ok(op) ==> is_toml_form(op, raw),
        opcode_from_raw(raw) is Err ==> forall|op: Opcode| !is_toml_form(op, raw),
        raw matches OpcodeRaw::Multi(vs) ==> (vs@.len() != 2 ==> opcode_from_raw(raw)
            == Err::<Opcode, OpcodeTomlError>(OpcodeTomlError::MultiWrongLength(vs@.len() as usize))),
{
    match raw {
        OpcodeRaw::Single(v) => {},
        OpcodeRaw::Multi(vs) => {
            if opcode_from_raw(raw) matches Ok(op) {
                assert(vs@ =~= seq![vs@[0], vs@[1]]);
            }
        },
    }
}

/// Every `from` entry of every instruction of `instrs` is valid.
pub open spec fn all_from_entries_valid(instrs: Seq<Instruction>) -> bool {
    forall|i: int, k: int|
        0 <= i < instrs.len() && instrs[i].stack_type is Some && 0 <= k
            < instrs[i].stack_type->0.from@.len() ==> entry_valid(
            #[trigger] instrs[i].stack_type->0.from@[k],
        )
}

/// Every `to` entry of every instruction of `instrs` is valid.
pub open spec fn all_to_entries_valid(instrs: Seq<Instruction>) -> bool {
    forall|i: int, k: int|
        0 <= i < instrs.len() && instrs[i].stack_type is Some && 0 <= k
            < instrs[i].stack_type->0.to@.len() ==> entry_valid(
            #[trigger] instrs[i].stack_type->0.to@[k],
        )
}

/// Every stack entry of a table, and only those, is checked: a table is
/// accepted exactly when every `from` and every `to` entry of every
/// instruction is valid, and a refusal is the error of one of these entries.
pub proof fn lemma_table_checks_every_entry(instrs: Seq<Instruction>)
    ensures
        table_result(instrs) is Ok <==> all_from_entries_valid(instrs) && all_to_entries_valid(
            instrs,
        ),
        table_result(instrs) is Err ==> (exists|i: int, k: int|
            0 <= i < instrs.len() && instrs[i].stack_type is Some && 0 <= k
                < instrs[i].stack_type->0.from@.len() && table_result(instrs) == entry_check(
                #[trigger] instrs[i].stack_type->0.from@[k],
            )) || (exists|i: int, k: int|
            0 <= i < instrs.len() && instrs[i].stack_type is Some && 0 <= k
                < instrs[i].stack_type->0.to@.len() && table_result(instrs) == entry_check(
                #[trigger] instrs[i].stack_type->0.to@[k],
            )),
{
    let es = table_entries(instrs);
    lemma_first_failure(es);
    lemma_table_entries_members(instrs);
    if table_result(instrs) is Ok {
        assert forall|i: int, k: int|
            0 <= i < instrs.len() && instrs[i].stack_type is Some && 0 <= k
                < instrs[i].stack_type->0.from@.len() implies entry_valid(
            #[trigger] instrs[i].stack_type->0.from@[k],
        ) by {
            let st = instrs[i].stack_type->0;
            assert(instruction_entries(instrs[i]) == st.from@ + st.to@);
            let e = st.from@[k];
            assert(instruction_entries(instrs[i])[k] == e);
            assert(es.contains(e));
            let x = choose|x: int| 0 <= x < es.len() && es[x] == e;
            assert(entry_valid(es[x]));
        }
        assert forall|i: int, k: int|
            0 <= i < instrs.len() && instrs[i].stack_type is Some && 0 <= k
                < instrs[i].stack_type->0.to@.len() implies entry_valid(
            #[trigger] instrs[i].stack_type->0.to@[k],
        ) by {
            let st = instrs[i].stack_type->0;
            assert(instruction_entries(instrs[i]) == st.from@ + st.to@);
            let e = st.to@[k];
            assert(instruction_entries(instrs[i])[st.from@.len() + k] == e);
            assert(es.contains(e));
            let x = choose|x: int| 0 <= x < es.len() && es[x] == e;
            assert(entry_valid(es[x]));
        }
    } else {
        let j = choose|j: int|
            0 <= j < es.len() && !entry_valid(#[trigger] es[j]) && (forall|l: int|
                0 <= l < j ==> entry_valid(#[trigger] es[l])) && first_failure(es) == entry_check(
                es[j],
            );
        assert(es.contains(es[j]));
        let (i, k) = choose|i: int, k: int|
            0 <= i < instrs.len() && 0 <= k < instruction_entries(instrs[i]).len()
                && #[trigger] instruction_entries(instrs[i])[k] == es[j];
        assert(instrs[i].stack_type is Some);
        let st = instrs[i].stack_type->0;
        assert(instruction_entries(instrs[i]) == st.from@ + st.to@);
        if k < st.from@.len() {
            assert(instruction_entries(instrs[i])[k] == st.from@[k]);
            assert(table_result(instrs) == entry_check(instrs[i].stack_type->0.from@[k]));
            assert(!entry_valid(instrs[i].stack_type->0.from@[k]));
            assert(!all_from_entries_valid(instrs));
        } else {
            let k2 = k - st.from@.len();
            assert(instruction_entries(instrs[i])[k] == st.to@[k2]);
            assert(table_result(instrs) == entry_check(instrs[i].stack_type->0.to@[k2]));
            assert(!entry_valid(instrs[i].stack_type->0.to@[k2]));
            assert(!all_to_entries_valid(instrs));
        }
    }
}

/// The entries of a table are exactly the entries of its instructions.
proof fn lemma_table_entries_members(instrs: Seq<Instruction>)
    ensures
        forall|e: StackEntry|
            table_entries(instrs).contains(e) <==> exists|i: int, k: int|
                0 <= i < instrs.len() && 0 <= k < instruction_entries(instrs[i]).len()
                    && #[trigger] instruction_entries(instrs[i])[k] == e,
        forall|i: int| 0 <= i < instrs.len() ==> (instrs[i].stack_type matches Some(st)
            ==> instruction_entries(#[trigger] instrs[i]) == st.from@ + st.to@),
    decreases instrs.len(),
{
    if instrs.len() > 0 {
        let prev = instrs.drop_last();
        lemma_table_entries_members(prev);
        let a = table_entries(prev);
        let b = instruction_entries(instrs.last());
        assert(table_entries(instrs) == a + b);
        assert forall|e: StackEntry| table_entries(instrs).contains(e) <==> exists|i: int, k: int|
            0 <= i < instrs.len() && 0 <= k < instruction_entries(instrs[i]).len()
                && #[trigger] instruction_entries(instrs[i])[k] == e by {
            if table_entries(instrs).contains(e) {
                let x = choose|x: int| 0 <= x < (a + b).len() && (a + b)[x] == e;
                if x < a.len() {
                    assert(a[x] == e);
                    assert(a.contains(e));
                    let (i, k) = choose|i: int, k: int|
                        0 <= i < prev.len() && 0 <= k < instruction_entries(prev[i]).len()
                            && #[trigger] instruction_entries(prev[i])[k] == e;
                    assert(prev[i] == instrs[i]);
                } else {
                    assert(b[x - a.len()] == e);
                    assert(instruction_entries(instrs[instrs.len() - 1])[x - a.len()] == e);
                }
            }
            if exists|i: int, k: int|
                0 <= i < instrs.len() && 0 <= k < instruction_entries(instrs[i]).len()
                    && #[trigger] instruction_entries(instrs[i])[k] == e {
                let (i, k) = choose|i: int, k: int|
                    0 <= i < instrs.len() && 0 <= k < instruction_entries(instrs[i]).len()
                        && #[trigger] instruction_entries(instrs[i])[k] == e;
                if i < prev.len() {
                    assert(prev[i] == instrs[i]);
                    assert(instruction_entries(prev[i])[k] == e);
                    assert(a.contains(e));
                    let x = choose|x: int| 0 <= x < a.len() && a[x] == e;
                    assert((a + b)[x] == e);
                } else {
                    assert((a + b)[a.len() + k] == e);
                }
            }
        }
    }
}

} // verus!
