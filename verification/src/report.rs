//! The comparison of an opcode table against Spectec grammar rules: which
//! opcodes the grammar encodes and the table lacks, and the table printed
//! from them.

use vstd::prelude::*;

use crate::instructions::{Instruction, InstructionsTable, Opcode};
use crate::spectec::{
    dec_digit_value, dec_value, hex_digit_value, hex_value, in_class, opcode_key_at, opcode_rank, sorted_by_opcode, span,
    CharClass, SpectecError, SpectecRule, bu32_index_at, bu32_suffix, hex_byte_at,
};
use crate::text::{
    chars_of, decimal, digit, digit_char, hex2, push_all, push_char, push_decimal, string_of,
};

verus! {

broadcast use vstd::string::group_string_axioms;

/// A grammar rule whose opcode the table does not have.
#[derive(Debug, Clone, PartialEq, Eq)]
pub struct MissingOpcode {
    pub opcode: Opcode,
    pub ast: String,
    pub section: String,
}

/// A rule or missing entry seen as opcode, AST and section.
pub open spec fn rule_view(r: SpectecRule) -> (Opcode, Seq<char>, Seq<char>) {
    (r.opcode, r.ast@, r.section@)
}

pub open spec fn missing_view(m: MissingOpcode) -> (Opcode, Seq<char>, Seq<char>) {
    (m.opcode, m.ast@, m.section@)
}

/// Some instruction of the table has opcode `op`.
pub open spec fn opcode_present(instrs: Seq<Instruction>, op: Opcode) -> bool {
    exists|i: int| 0 <= i < instrs.len() && #[trigger] instrs[i].opcode == op
}

/// The rules whose opcode no instruction has, in rule order.
pub open spec fn missing_of(instrs: Seq<Instruction>, rules: Seq<SpectecRule>) -> Seq<
    (Opcode, Seq<char>, Seq<char>),
>
    decreases rules.len(),
{
    if rules.len() == 0 {
        Seq::empty()
    } else if opcode_present(instrs, rules.last().opcode) {
        missing_of(instrs, rules.drop_last())
    } else {
        missing_of(instrs, rules.drop_last()).push(rule_view(rules.last()))
    }
}

/// Whether some instruction of the table has opcode `op`.
fn table_has_opcode(table: &InstructionsTable, op: Opcode) -> (r: bool)
    ensures
        r == opcode_present(table.instructions@, op),
{
    let mut i: usize = 0;
    while i < table.instructions.len()
        invariant
            i <= table.instructions@.len(),
            forall|j: int| 0 <= j < i ==> table.instructions@[j].opcode != op,
        decreases table.instructions@.len() - i,
    {
        if table.instructions[i].opcode == op {
            assert(table.instructions@[i as int].opcode == op);
            return true;
        }
        i = i + 1;
    }
    false
}

/// The grammar rules whose opcode the table lacks, in rule order.
///
/// Every rule is either matched by an instruction of the table or reported;
/// rules in opcode order give missing entries in opcode order.
pub fn missing_opcodes(table: &InstructionsTable, spectec: &[SpectecRule]) -> (r: Vec<
    MissingOpcode,
>)
    ensures
        r@.map_values(|m: MissingOpcode| missing_view(m)) == missing_of(
            table.instructions@,
            spectec@,
        ),
        forall|i: int|
            0 <= i < spectec@.len() ==> (opcode_present(
                table.instructions@,
                #[trigger] spectec@[i].opcode,
            ) <==> !exists|j: int| 0 <= j < r@.len() && r@[j].opcode == spectec@[i].opcode),
        sorted_by_opcode(spectec@) ==> forall|i: int, j: int|
            0 <= i < j < r@.len() ==> opcode_rank(#[trigger] r@[i].opcode) < opcode_rank(
                #[trigger] r@[j].opcode,
            ),
{
    let ghost instrs = table.instructions@;
    let mut r: Vec<MissingOpcode> = Vec::new();
    let mut i: usize = 0;
    while i < spectec.len()
        invariant
            instrs == table.instructions@,
            i <= spectec@.len(),
            r@.map_values(|m: MissingOpcode| missing_view(m)) == missing_of(
                instrs,
                spectec@.take(i as int),
            ),
        decreases spectec@.len() - i,
    {
        let rule = &spectec[i];
        assert(spectec@.take(i + 1).drop_last() =~= spectec@.take(i as int));
        assert(spectec@.take(i + 1).last() == spectec@[i as int]);
        if !table_has_opcode(table, rule.opcode) {
            let ghost before = r@;
            r.push(
                MissingOpcode {
                    opcode: rule.opcode,
                    ast: rule.ast.clone(),
                    section: rule.section.clone(),
                },
            );
            assert(r@.map_values(|m: MissingOpcode| missing_view(m)) =~= before.map_values(
                |m: MissingOpcode| missing_view(m),
            ).push(rule_view(spectec@[i as int])));
        }
        i = i + 1;
    }
    assert(spectec@.take(spectec@.len() as int) =~= spectec@);
    proof {
        lemma_missing_laws(instrs, spectec@, r@);
    }
    r
}

/// The laws of [`missing_opcodes`], for any entries whose view is `missing_of`.
proof fn lemma_missing_laws(instrs: Seq<Instruction>, spectec: Seq<SpectecRule>, r: Seq<MissingOpcode>)
    requires
        r.map_values(|m: MissingOpcode| missing_view(m)) == missing_of(instrs, spectec),
    ensures
        forall|i: int|
            0 <= i < spectec.len() ==> (opcode_present(instrs, #[trigger] spectec[i].opcode)
                <==> !exists|j: int| 0 <= j < r.len() && r[j].opcode == spectec[i].opcode),
        sorted_by_opcode(spectec) ==> forall|i: int, j: int|
            0 <= i < j < r.len() ==> opcode_rank(#[trigger] r[i].opcode) < opcode_rank(
                #[trigger] r[j].opcode,
            ),
{
        let ms = missing_of(instrs, spectec);
        lemma_missing_absent(instrs, spectec);
        lemma_absent_reported(instrs, spectec);
        assert forall|j: int| 0 <= j < r.len() implies r[j].opcode == ms[j].0 by {
            assert(r.map_values(|m: MissingOpcode| missing_view(m))[j] == missing_view(r[j]));
        }
        assert forall|i: int| 0 <= i < spectec.len() implies (opcode_present(
            instrs,
            #[trigger] spectec[i].opcode,
        ) <==> !exists|j: int| 0 <= j < r.len() && r[j].opcode == spectec[i].opcode) by {
            if !opcode_present(instrs, spectec[i].opcode) {
                let j = choose|j: int| 0 <= j < ms.len() && ms[j].0 == spectec[i].opcode;
                assert(r[j].opcode == spectec[i].opcode);
            } else if exists|j: int| 0 <= j < r.len() && r[j].opcode == spectec[i].opcode {
                let j = choose|j: int| 0 <= j < r.len() && r[j].opcode == spectec[i].opcode;
                assert(ms[j].0 == spectec[i].opcode);
            }
        }
        if sorted_by_opcode(spectec) {
            lemma_missing_sorted(instrs, spectec);
            assert forall|a: int, b: int| 0 <= a < b < r.len() implies opcode_rank(
                #[trigger] r[a].opcode,
            ) < opcode_rank(#[trigger] r[b].opcode) by {
                assert(opcode_rank(ms[a].0) < opcode_rank(ms[b].0));
            }
        }
}

/// Every missing entry is a rule whose opcode the table lacks.
proof fn lemma_missing_absent(instrs: Seq<Instruction>, rules: Seq<SpectecRule>)
    ensures
        forall|j: int|
            0 <= j < missing_of(instrs, rules).len() ==> !opcode_present(
                instrs,
                (#[trigger] missing_of(instrs, rules)[j]).0,
            ) && exists|k: int|
                0 <= k < rules.len() && rules[k].opcode == missing_of(instrs, rules)[j].0,
    decreases rules.len(),
{
    if rules.len() > 0 {
        let prev = rules.drop_last();
        lemma_missing_absent(instrs, prev);
        let mp = missing_of(instrs, prev);
        let ms = missing_of(instrs, rules);
        assert forall|j: int| 0 <= j < ms.len() implies !opcode_present(
            instrs,
            (#[trigger] ms[j]).0,
        ) && exists|k: int| 0 <= k < rules.len() && rules[k].opcode == ms[j].0 by {
            if j < mp.len() {
                assert(ms[j] == mp[j]);
                let k = choose|k: int| 0 <= k < prev.len() && prev[k].opcode == mp[j].0;
                assert(rules[k] == prev[k]);
            } else {
                assert(rules[rules.len() - 1].opcode == ms[j].0);
            }
        }
    }
}

/// Every rule whose opcode the table lacks has its opcode among the missing entries.
proof fn lemma_absent_reported(instrs: Seq<Instruction>, rules: Seq<SpectecRule>)
    ensures
        forall|k: int|
            0 <= k < rules.len() && !opcode_present(instrs, #[trigger] rules[k].opcode) ==> exists|
                j: int,
            |
                0 <= j < missing_of(instrs, rules).len() && missing_of(instrs, rules)[j].0
                    == rules[k].opcode,
    decreases rules.len(),
{
    if rules.len() > 0 {
        let prev = rules.drop_last();
        lemma_absent_reported(instrs, prev);
        let mp = missing_of(instrs, prev);
        let ms = missing_of(instrs, rules);
        assert forall|k: int|
            0 <= k < rules.len() && !opcode_present(
                instrs,
                #[trigger] rules[k].opcode,
            ) implies exists|j: int| 0 <= j < ms.len() && ms[j].0 == rules[k].opcode by {
            if k < prev.len() {
                assert(prev[k] == rules[k]);
                let j = choose|j: int| 0 <= j < mp.len() && mp[j].0 == prev[k].opcode;
                assert(ms[j] == mp[j]);
            } else {
                assert(ms[mp.len() as int].0 == rules[k].opcode);
            }
        }
    }
}

/// Rules in opcode order give missing entries in opcode order.
proof fn lemma_missing_sorted(instrs: Seq<Instruction>, rules: Seq<SpectecRule>)
    requires
        sorted_by_opcode(rules),
    ensures
        forall|a: int, b: int|
            0 <= a < b < missing_of(instrs, rules).len() ==> opcode_rank(
                (#[trigger] missing_of(instrs, rules)[a]).0,
            ) < opcode_rank((#[trigger] missing_of(instrs, rules)[b]).0),
    decreases rules.len(),
{
    if rules.len() > 0 {
        let prev = rules.drop_last();
        assert(sorted_by_opcode(prev)) by {
            assert forall|a: int, b: int| 0 <= a < b < prev.len() implies opcode_rank(
                #[trigger] prev[a].opcode,
            ) < opcode_rank(#[trigger] prev[b].opcode) by {
                assert(prev[a] == rules[a] && prev[b] == rules[b]);
            }
        }
        lemma_missing_sorted(instrs, prev);
        lemma_missing_absent(instrs, prev);
        let mp = missing_of(instrs, prev);
        let ms = missing_of(instrs, rules);
        assert forall|a: int, b: int| 0 <= a < b < ms.len() implies opcode_rank(
            (#[trigger] ms[a]).0,
        ) < opcode_rank((#[trigger] ms[b]).0) by {
            if b < mp.len() {
                assert(ms[a] == mp[a] && ms[b] == mp[b]);
            } else {
                assert(ms[a] == mp[a]);
                let k = choose|k: int| 0 <= k < prev.len() && prev[k].opcode == mp[a].0;
                assert(rules[k] == prev[k]);
                assert(opcode_rank(rules[k].opcode) < opcode_rank(rules[rules.len() - 1].opcode));
            }
        }
    }
}

// ---------------------------------------------------------------------------
// The printed table
// ---------------------------------------------------------------------------

/// An opcode as the table prints it: `0xNN`, or `[0xNN, index]`.
pub open spec fn opcode_text(op: Opcode) -> Seq<char> {
    match op {
        Opcode::Single(b) => "0x"@ + hex2(b),
        Opcode::Multi(p, i) => "[0x"@ + hex2(p) + ", "@ + decimal(i as nat) + "]"@,
    }
}

/// Formats an opcode as `0xNN` (upper-case hex) or `[0xNN, index]`.
pub fn format_opcode(opcode: Opcode) -> (r: String)
    ensures
        r@ == opcode_text(opcode),
{
    let v = opcode_chars(opcode);
    string_of(&v)
}

/// The characters of [`format_opcode`].
fn opcode_chars(opcode: Opcode) -> (r: Vec<char>)
    ensures
        r@ == opcode_text(opcode),
{
    let mut out: Vec<char> = Vec::new();
    match opcode {
        Opcode::Single(b) => {
            push_all(&mut out, &chars_of("0x"));
            out.push(digit((b / 16) as u64));
            out.push(digit((b % 16) as u64));
        },
        Opcode::Multi(prefix, index) => {
            push_all(&mut out, &chars_of("[0x"));
            out.push(digit((prefix / 16) as u64));
            out.push(digit((prefix % 16) as u64));
            push_all(&mut out, &chars_of(", "));
            push_decimal(&mut out, index as u64);
            push_all(&mut out, &chars_of("]"));
        },
    }
    assert(out@ =~= opcode_text(opcode));
    out
}

/// `n` copies of `c`.
pub open spec fn repeat_char(c: char, n: nat) -> Seq<char> {
    Seq::new(n, |_i: int| c)
}

/// `s` padded with spaces on the right to `width` characters (as `{:<width$}`).
pub open spec fn pad_right(s: Seq<char>, width: int) -> Seq<char> {
    if s.len() >= width {
        s
    } else {
        s + repeat_char(' ', (width - s.len()) as nat)
    }
}

/// The length in bytes of the UTF-8 encoding of `s`, as `str::len` reports it.
pub open spec fn utf8_len(s: Seq<char>) -> int {
    (vstd::utf8::encode_utf8(s).len() as usize) as int
}

/// One row of the table: three columns separated by two spaces.
pub open spec fn table_line(
    a: Seq<char>,
    b: Seq<char>,
    c: Seq<char>,
    op_col: int,
    ast_col: int,
) -> Seq<char> {
    pad_right(a, op_col) + "  "@ + pad_right(b, ast_col) + "  "@ + c + seq!['\n']
}

/// The width of the opcode column: the longest printed opcode, at least 6.
pub open spec fn opcode_col(ms: Seq<MissingOpcode>) -> int
    decreases ms.len(),
{
    if ms.len() == 0 {
        6
    } else {
        let prev = opcode_col(ms.drop_last());
        let w = opcode_text(ms.last().opcode).len() as int;
        if w > prev { w } else { prev }
    }
}

/// The width of the AST column: the longest AST in bytes, at least 3.
pub open spec fn ast_col(ms: Seq<MissingOpcode>) -> int
    decreases ms.len(),
{
    if ms.len() == 0 {
        3
    } else {
        let prev = ast_col(ms.drop_last());
        let w = utf8_len(ms.last().ast@);
        if w > prev { w } else { prev }
    }
}

/// The rows of the missing entries.
pub open spec fn table_rows(ms: Seq<MissingOpcode>, op_col: int, ast_col: int) -> Seq<char>
    decreases ms.len(),
{
    if ms.len() == 0 {
        Seq::empty()
    } else {
        table_rows(ms.drop_last(), op_col, ast_col) + table_line(
            opcode_text(ms.last().opcode),
            ms.last().ast@,
            ms.last().section@,
            op_col,
            ast_col,
        )
    }
}

/// The report of missing instructions.
pub open spec fn missing_table_text(ms: Seq<MissingOpcode>) -> Seq<char> {
    if ms.len() == 0 {
        "No missing instructions (all Spectec opcodes are in the table).\n"@
    } else {
        let oc = opcode_col(ms);
        let ac = ast_col(ms);
        table_line("opcode"@, "spectec"@, "section"@, oc, ac) + repeat_char(
            '-',
            (oc + ac + 12) as nat,
        ) + seq!['\n'] + table_rows(ms, oc, ac) + seq!['\n'] + decimal(ms.len()) + " missing instruction(s).\n"@
    }
}

/// Appends `n` copies of `c`.
fn push_repeat(out: &mut Vec<char>, c: char, n: usize)
    ensures
        final(out)@ == old(out)@ + repeat_char(c, n as nat),
{
    let mut i: usize = 0;
    while i < n
        invariant
            i <= n,
            out@ == old(out)@ + repeat_char(c, i as nat),
        decreases n - i,
    {
        out.push(c);
        assert(out@ =~= old(out)@ + repeat_char(c, (i + 1) as nat));
        i = i + 1;
    }
}

/// Appends `s` padded to `width` characters.
fn push_padded(out: &mut Vec<char>, s: &[char], width: usize)
    ensures
        final(out)@ == old(out)@ + pad_right(s@, width as int),
{
    push_all(out, s);
    if s.len() < width {
        push_repeat(out, ' ', width - s.len());
    }
    assert(out@ =~= old(out)@ + pad_right(s@, width as int));
}

/// Appends one table row.
fn push_line(out: &mut Vec<char>, a: &[char], b: &[char], c: &[char], op_col: usize, ast_col: usize)
    ensures
        final(out)@ == old(out)@ + table_line(a@, b@, c@, op_col as int, ast_col as int),
{
    let sep = chars_of("  ");
    push_padded(out, a, op_col);
    push_all(out, &sep);
    push_padded(out, b, ast_col);
    push_all(out, &sep);
    push_all(out, c);
    out.push('\n');
    assert(out@ =~= old(out)@ + table_line(a@, b@, c@, op_col as int, ast_col as int));
}

/// Writes the report of missing instructions to `w`: a message when there
/// are none, else a table with the columns `opcode`, `spectec` and `section`,
/// each padded to its widest entry, and the number of missing instructions.
pub fn print_missing_table(w: &mut String, missing: &[MissingOpcode])
    ensures
        final(w)@ == old(w)@ + missing_table_text(missing@),
{
    let text = missing_table_chars(missing);
    let mut i: usize = 0;
    while i < text.len()
        invariant
            i <= text@.len(),
            w@ == old(w)@ + text@.take(i as int),
        decreases text@.len() - i,
    {
        push_char(w, text[i]);
        assert(w@ =~= old(w)@ + text@.take(i + 1));
        i = i + 1;
    }
    assert(text@.take(text@.len() as int) =~= text@);
}

/// The characters of the report of missing instructions.
fn missing_table_chars(missing: &[MissingOpcode]) -> (r: Vec<char>)
    ensures
        r@ == missing_table_text(missing@),
{
    if missing.len() == 0 {
        return chars_of("No missing instructions (all Spectec opcodes are in the table).\n");
    }
    let ghost ms = missing@;
    let mut oc: usize = 6;
    let mut ac: usize = 3;
    let mut i: usize = 0;
    while i < missing.len()
        invariant
            ms == missing@,
            i <= ms.len(),
            oc == opcode_col(ms.take(i as int)),
            ac == ast_col(ms.take(i as int)),
        decreases ms.len() - i,
    {
        assert(ms.take(i + 1).drop_last() =~= ms.take(i as int));
        assert(ms.take(i + 1).last() == ms[i as int]);
        let w = opcode_chars(missing[i].opcode).len();
        if w > oc {
            oc = w;
        }
        let b = missing[i].ast.as_str().len();
        if b > ac {
            ac = b;
        }
        i = i + 1;
    }
    assert(ms.take(ms.len() as int) =~= ms);
    let mut out: Vec<char> = Vec::new();
    push_line(
        &mut out,
        &chars_of("opcode"),
        &chars_of("spectec"),
        &chars_of("section"),
        oc,
        ac,
    );
    push_repeat(&mut out, '-', oc);
    push_repeat(&mut out, '-', ac);
    push_repeat(&mut out, '-', 12);
    assert(repeat_char('-', oc as nat) + repeat_char('-', ac as nat) + repeat_char('-', 12)
        =~= repeat_char('-', (oc + ac + 12) as nat));
    out.push('\n');
    let ghost head = out@;
    let mut i: usize = 0;
    while i < missing.len()
        invariant
            ms == missing@,
            i <= ms.len(),
            out@ == head + table_rows(ms.take(i as int), oc as int, ac as int),
        decreases ms.len() - i,
    {
        assert(ms.take(i + 1).drop_last() =~= ms.take(i as int));
        assert(ms.take(i + 1).last() == ms[i as int]);
        let m = &missing[i];
        let op = opcode_chars(m.opcode);
        let ast = chars_of(m.ast.as_str());
        let section = chars_of(m.section.as_str());
        push_line(&mut out, &op, &ast, &section, oc, ac);
        assert(out@ =~= head + table_rows(ms.take(i + 1), oc as int, ac as int));
        i = i + 1;
    }
    out.push('\n');
    push_decimal(&mut out, missing.len() as u64);
    push_all(&mut out, &chars_of(" missing instruction(s).\n"));
    assert(out@ =~= missing_table_text(ms));
    out
}

/// The process status after a comparison: 2 when instructions are missing, else 0.
pub fn exit_code(missing: &[MissingOpcode]) -> (code: i32)
    ensures
        code == (if missing@.len() == 0 { 0i32 } else { 2i32 }),
{
    if missing.len() == 0 {
        0
    } else {
        2
    }
}

/// A single-byte opcode as the report prints it (`0xNN`) is read back as
/// itself by the grammar's opcode key.
pub proof fn lemma_single_opcode_reads_back(b: u8)
    ensures
        opcode_key_at(opcode_text(Opcode::Single(b)), 0) == Ok::<(int, Opcode), SpectecError>(
            (4, Opcode::Single(b)),
        ),
{
    reveal_strlit("0x");
    let s = opcode_text(Opcode::Single(b));
    let hi = (b / 16) as int;
    let lo = (b % 16) as int;
    assert(s =~= seq!['0', 'x', digit_char(hi), digit_char(lo)]);
    lemma_hex_digit_char(hi);
    lemma_hex_digit_char(lo);
    assert(span(s, 4, CharClass::HexDigit) == 0);
    assert(span(s, 3, CharClass::HexDigit) == 1);
    assert(span(s, 2, CharClass::HexDigit) == 2);
    assert(span(s, 0, CharClass::Multispace) == 0);
    assert(hex_value(s, 2, 2) == 0);
    assert(hex_value(s, 2, 3) == hi);
    assert(hex_value(s, 2, 4) == hi * 16 + lo);
    assert(span(s, 4, CharClass::Space) == 0);
    assert(span(s, 4, CharClass::DecDigit) == 0);
}

/// The digit character for `d` is a hexadecimal digit of value `d`.
proof fn lemma_hex_digit_char(d: int)
    requires
        0 <= d < 16,
    ensures
        in_class(digit_char(d), CharClass::HexDigit),
        hex_digit_value(digit_char(d)) == d,
{
}

/// `idx` places the items of `a` in `b` at strictly increasing positions, so
/// `a` is a subsequence of `b`.
pub open spec fn embeds_by<T>(a: Seq<T>, b: Seq<T>, idx: Seq<int>) -> bool {
    &&& idx.len() == a.len()
    &&& forall|i: int| 0 <= i < a.len() ==> 0 <= #[trigger] idx[i] < b.len() && a[i] == b[idx[i]]
    &&& forall|i: int, j: int| 0 <= i < j < a.len() ==> #[trigger] idx[i] < #[trigger] idx[j]
}

/// `a` is a subsequence of `b`.
pub open spec fn is_subsequence<T>(a: Seq<T>, b: Seq<T>) -> bool {
    exists|idx: Seq<int>| embeds_by(a, b, idx)
}

/// A table that has every opcode of another reports a subsequence of what
/// the other reports.
pub proof fn lemma_missing_monotone(
    smaller: Seq<Instruction>,
    larger: Seq<Instruction>,
    rules: Seq<SpectecRule>,
)
    requires
        forall|op: Opcode| opcode_present(smaller, op) ==> opcode_present(larger, op),
    ensures
        is_subsequence(missing_of(larger, rules), missing_of(smaller, rules)),
{
    let idx = missing_embedding(smaller, larger, rules);
    assert(embeds_by(missing_of(larger, rules), missing_of(smaller, rules), idx));
}

/// The positions at which the larger table's report sits in the smaller's.
proof fn missing_embedding(
    smaller: Seq<Instruction>,
    larger: Seq<Instruction>,
    rules: Seq<SpectecRule>,
) -> (idx: Seq<int>)
    requires
        forall|op: Opcode| opcode_present(smaller, op) ==> opcode_present(larger, op),
    ensures
        embeds_by(missing_of(larger, rules), missing_of(smaller, rules), idx),
    decreases rules.len(),
{
    if rules.len() == 0 {
        Seq::empty()
    } else {
        let prev = rules.drop_last();
        let p = missing_embedding(smaller, larger, prev);
        let ml = missing_of(larger, prev);
        let ms = missing_of(smaller, prev);
        let op = rules.last().opcode;
        if opcode_present(larger, op) {
            if !opcode_present(smaller, op) {
                let m1 = missing_of(smaller, rules);
                assert forall|i: int| 0 <= i < ml.len() implies 0 <= #[trigger] p[i] < m1.len()
                    && ml[i] == m1[p[i]] by {
                    assert(m1[p[i]] == ms[p[i]]);
                }
            }
            p
        } else {
            let q = p.push(ms.len() as int);
            let m1 = missing_of(smaller, rules);
            let m2 = missing_of(larger, rules);
            assert forall|i: int| 0 <= i < m2.len() implies 0 <= #[trigger] q[i] < m1.len() && m2[i]
                == m1[q[i]] by {
                if i < ml.len() {
                    assert(q[i] == p[i]);
                    assert(m1[p[i]] == ms[p[i]]);
                }
            }
            assert forall|i: int, j: int| 0 <= i < j < m2.len() implies #[trigger] q[i]
                < #[trigger] q[j] by {
                if j < ml.len() {
                    assert(q[i] == p[i] && q[j] == p[j]);
                } else {
                    assert(q[i] == p[i]);
                }
            }
            q
        }
    }
}

/// Against a table with no instructions, every rule is reported, with its
/// own fields, in rule order.
pub proof fn lemma_missing_from_empty_table(rules: Seq<SpectecRule>)
    ensures
        missing_of(Seq::<Instruction>::empty(), rules) == rules.map_values(
            |r: SpectecRule| rule_view(r),
        ),
    decreases rules.len(),
{
    if rules.len() > 0 {
        lemma_missing_from_empty_table(rules.drop_last());
        assert(rules.map_values(|r: SpectecRule| rule_view(r)) =~= rules.drop_last().map_values(
            |r: SpectecRule| rule_view(r),
        ).push(rule_view(rules.last())));
    } else {
        assert(rules.map_values(|r: SpectecRule| rule_view(r)) =~= Seq::empty());
    }
}

/// The decimal digits of `s[lo..hi]` denote the same number in any sequence
/// that agrees with `s` there.
proof fn lemma_dec_value_local(s1: Seq<char>, s2: Seq<char>, lo: int, hi: int)
    requires
        forall|j: int| lo <= j < hi ==> s1[j] == s2[j],
    ensures
        dec_value(s1, lo, hi) == dec_value(s2, lo, hi),
    decreases hi - lo,
{
    if hi > lo {
        lemma_dec_value_local(s1, s2, lo, hi - 1);
    }
}

/// The decimal representation of `n` denotes `n`.
proof fn lemma_decimal_value(n: nat)
    ensures
        dec_value(decimal(n), 0, decimal(n).len() as int) == n,
    decreases n,
{
    let s = decimal(n);
    if n < 10 {
        assert(dec_value(s, 0, 0) == 0);
    } else {
        let t = decimal(n / 10);
        lemma_decimal_value(n / 10);
        assert(s == t.push(digit_char((n % 10) as int)));
        lemma_dec_value_local(s, t, 0, t.len() as int);
        assert(dec_value(s, 0, s.len() as int) == dec_value(s, 0, t.len() as int) * 10
            + dec_digit_value(s[t.len() as int]));
        assert(n == (n / 10) * 10 + n % 10);
    }
}

/// Distinct numbers have distinct decimal representations.
pub proof fn lemma_decimal_injective(x: nat, y: nat)
    ensures
        decimal(x) == decimal(y) ==> x == y,
{
    lemma_decimal_value(x);
    lemma_decimal_value(y);
}

/// Distinct opcodes are printed differently.
pub proof fn lemma_opcode_text_injective(a: Opcode, b: Opcode)
    ensures
        opcode_text(a) == opcode_text(b) ==> a == b,
{
    reveal_strlit("0x");
    reveal_strlit("[0x");
    reveal_strlit(", ");
    reveal_strlit("]");
    let ta = opcode_text(a);
    let tb = opcode_text(b);
    if ta == tb {
        match (a, b) {
            (Opcode::Single(x), Opcode::Single(y)) => {
                assert(ta[2] == digit_char((x / 16) as int) && ta[3] == digit_char((x % 16) as int));
                assert(tb[2] == digit_char((y / 16) as int) && tb[3] == digit_char((y % 16) as int));
                lemma_hex_digit_char((x / 16) as int);
                lemma_hex_digit_char((x % 16) as int);
                lemma_hex_digit_char((y / 16) as int);
                lemma_hex_digit_char((y % 16) as int);
                assert(x == (x / 16) * 16 + x % 16);
                assert(y == (y / 16) * 16 + y % 16);
            },
            (Opcode::Single(x), Opcode::Multi(p, i)) => {
                assert(ta[0] == '0');
                assert(tb[0] == '[');
            },
            (Opcode::Multi(p, i), Opcode::Single(x)) => {
                assert(ta[0] == '[');
                assert(tb[0] == '0');
            },
            (Opcode::Multi(p, i), Opcode::Multi(q, j)) => {
                assert(ta[3] == digit_char((p / 16) as int) && ta[4] == digit_char((p % 16) as int));
                assert(tb[3] == digit_char((q / 16) as int) && tb[4] == digit_char((q % 16) as int));
                lemma_hex_digit_char((p / 16) as int);
                lemma_hex_digit_char((p % 16) as int);
                lemma_hex_digit_char((q / 16) as int);
                lemma_hex_digit_char((q % 16) as int);
                assert(p == (p / 16) * 16 + p % 16);
                assert(q == (q / 16) * 16 + q % 16);
                let di = decimal(i as nat);
                let dj = decimal(j as nat);
                assert(ta.len() == 8 + di.len());
                assert(tb.len() == 8 + dj.len());
                assert(ta.subrange(7, 7 + di.len() as int) =~= di);
                assert(tb.subrange(7, 7 + dj.len() as int) =~= dj);
                lemma_decimal_injective(i as nat, j as nat);
            },
        }
    }
}

/// The lower-case hexadecimal digit for `d` (`0 <= d < 16`).
pub open spec fn lower_digit_char(d: int) -> char {
    if d == 10 { 'a' }
    else if d == 11 { 'b' }
    else if d == 12 { 'c' }
    else if d == 13 { 'd' }
    else if d == 14 { 'e' }
    else if d == 15 { 'f' }
    else { digit_char(d) }
}

/// The hexadecimal digit for `d` in the chosen case.
pub open spec fn cased_digit_char(d: int, upper: bool) -> char {
    if upper { digit_char(d) } else { lower_digit_char(d) }
}

/// Each digit, in either case, is a hexadecimal digit of value `d`.
proof fn lemma_cased_digit_char(d: int, upper: bool)
    requires
        0 <= d < 16,
    ensures
        in_class(cased_digit_char(d, upper), CharClass::HexDigit),
        hex_digit_value(cased_digit_char(d, upper)) == d,
{
}

/// A byte written `0xNN` or `0XNN`, with either case for each digit, reads as
/// that byte.
pub proof fn lemma_hex_byte_reads_any_case(b: u8, big_x: bool, upper_hi: bool, upper_lo: bool)
    ensures
        hex_byte_at(
            seq![
                '0',
                if big_x { 'X' } else { 'x' },
                cased_digit_char((b / 16) as int, upper_hi),
                cased_digit_char((b % 16) as int, upper_lo),
            ],
            0,
        ) == Ok::<(int, u8), SpectecError>((4, b)),
{
    let hi = (b / 16) as int;
    let lo = (b % 16) as int;
    let s = seq![
        '0',
        if big_x { 'X' } else { 'x' },
        cased_digit_char(hi, upper_hi),
        cased_digit_char(lo, upper_lo),
    ];
    lemma_cased_digit_char(hi, upper_hi);
    lemma_cased_digit_char(lo, upper_lo);
    assert(span(s, 4, CharClass::HexDigit) == 0);
    assert(span(s, 3, CharClass::HexDigit) == 1);
    assert(span(s, 2, CharClass::HexDigit) == 2);
    assert(hex_value(s, 2, 2) == 0);
    assert(hex_value(s, 2, 3) == hi);
    assert(hex_value(s, 2, 4) == hi * 16 + lo);
    assert(b == hi * 16 + lo);
}

/// All characters of a decimal representation are decimal digits.
proof fn lemma_decimal_digits(n: nat)
    ensures
        decimal(n).len() >= 1,
        forall|i: int| 0 <= i < decimal(n).len() ==> in_class(#[trigger] decimal(n)[i], CharClass::DecDigit),
    decreases n,
{
    if n >= 10 {
        lemma_decimal_digits(n / 10);
        let t = decimal(n / 10);
        assert forall|i: int| 0 <= i < decimal(n).len() implies in_class(
            #[trigger] decimal(n)[i],
            CharClass::DecDigit,
        ) by {
            if i < t.len() {
                assert(decimal(n)[i] == t[i]);
            }
        }
    }
}

/// A run of `len` class characters followed by the end or a character of
/// another class has span `len`.
proof fn lemma_span_exact(s: Seq<char>, i: int, len: int, k: CharClass)
    requires
        0 <= i,
        0 <= len,
        i + len <= s.len(),
        forall|j: int| i <= j < i + len ==> in_class(#[trigger] s[j], k),
        i + len == s.len() || !in_class(s[i + len], k),
    ensures
        span(s, i, k) == len,
    decreases len,
{
    if len > 0 {
        lemma_span_exact(s, i + 1, len - 1, k);
    }
}

/// An index written `N:Bu32` in decimal reads as `N`, for every `u32`.
pub proof fn lemma_bu32_index_reads_back(n: u32)
    ensures
        bu32_index_at(decimal(n as nat) + ":Bu32"@, 0) == Ok::<(int, u32), SpectecError>(
            (decimal(n as nat).len() + 5int, n),
        ),
{
    reveal_strlit(":Bu32");
    let d = decimal(n as nat);
    let s = d + ":Bu32"@;
    lemma_decimal_digits(n as nat);
    lemma_decimal_value(n as nat);
    assert forall|j: int| 0 <= j < d.len() implies in_class(#[trigger] s[j], CharClass::DecDigit) by {
        assert(s[j] == d[j]);
    }
    assert(s[d.len() as int] == ':');
    lemma_span_exact(s, 0, d.len() as int, CharClass::DecDigit);
    assert(s.subrange(d.len() as int, d.len() + 5int) =~= bu32_suffix());
    crate::report::lemma_dec_value_local(s, d, 0, d.len() as int);
}

/// Decimal digits denote the same number wherever they stand.
proof fn lemma_dec_value_shift(s1: Seq<char>, s2: Seq<char>, off: int, lo: int, hi: int)
    requires
        forall|j: int| lo <= j < hi ==> s1[j + off] == s2[j],
    ensures
        dec_value(s1, lo + off, hi + off) == dec_value(s2, lo, hi),
    decreases hi - lo,
{
    if hi > lo {
        lemma_dec_value_shift(s1, s2, off, lo, hi - 1);
        assert(s1[hi - 1 + off] == s2[hi - 1]);
    }
}

/// A prefixed opcode written as the grammar writes it, `0xNN N:Bu32`, reads
/// as that opcode.
pub proof fn lemma_multi_opcode_key_reads_back(p: u8, i: u32)
    ensures
        ({
            let s = "0x"@ + hex2(p) + seq![' '] + decimal(i as nat) + ":Bu32"@;
            opcode_key_at(s, 0) == Ok::<(int, Opcode), SpectecError>((s.len() as int, Opcode::Multi(p, i)))
        }),
{
    reveal_strlit("0x");
    reveal_strlit(":Bu32");
    let d = decimal(i as nat);
    let s = "0x"@ + hex2(p) + seq![' '] + d + ":Bu32"@;
    let hi = (p / 16) as int;
    let lo = (p % 16) as int;
    lemma_hex_digit_char(hi);
    lemma_hex_digit_char(lo);
    lemma_decimal_digits(i as nat);
    lemma_decimal_value(i as nat);
    assert(s[0] == '0' && s[1] == 'x' && s[2] == digit_char(hi) && s[3] == digit_char(lo));
    assert(s[4] == ' ');
    assert(s.len() == 10 + d.len());
    assert(span(s, 0, CharClass::Multispace) == 0);
    lemma_span_exact(s, 2, 2, CharClass::HexDigit);
    assert(hex_value(s, 2, 2) == 0);
    assert(hex_value(s, 2, 3) == hi);
    assert(hex_value(s, 2, 4) == hi * 16 + lo);
    assert(hex_byte_at(s, 0) == Ok::<(int, u8), SpectecError>((4, p)));
    assert(s[5] == d[0]);
    lemma_span_exact(s, 4, 1, CharClass::Space);
    assert forall|j: int| 5 <= j < 5 + d.len() implies in_class(#[trigger] s[j], CharClass::DecDigit) by {
        assert(s[j] == d[j - 5]);
    }
    assert(s[5 + d.len() as int] == ':');
    lemma_span_exact(s, 5, d.len() as int, CharClass::DecDigit);
    assert(s.subrange(5 + d.len() as int, 10 + d.len() as int) =~= bu32_suffix());
    assert forall|j: int| 0 <= j < d.len() implies s[j + 5] == d[j] by {}
    lemma_dec_value_shift(s, d, 5, 0, d.len() as int);
}

/// The opcode column is as wide as the widest printed opcode and at least 6;
/// the AST column is as wide as the widest AST in bytes and at least 3. Each
/// is 6 (or 3) or the width of one of the entries.
pub proof fn lemma_report_columns(ms: Seq<MissingOpcode>)
    ensures
        opcode_col(ms) >= 6,
        ast_col(ms) >= 3,
        forall|i: int| 0 <= i < ms.len() ==> opcode_col(ms) >= opcode_text(#[trigger] ms[i].opcode).len(),
        forall|i: int| 0 <= i < ms.len() ==> ast_col(ms) >= utf8_len(#[trigger] ms[i].ast@),
        opcode_col(ms) == 6 || exists|i: int| 0 <= i < ms.len() && opcode_col(ms) == opcode_text(
            #[trigger] ms[i].opcode,
        ).len(),
        ast_col(ms) == 3 || exists|i: int| 0 <= i < ms.len() && ast_col(ms) == utf8_len(
            #[trigger] ms[i].ast@,
        ),
    decreases ms.len(),
{
    if ms.len() > 0 {
        let prev = ms.drop_last();
        lemma_report_columns(prev);
        assert forall|i: int| 0 <= i < ms.len() implies opcode_col(ms) >= opcode_text(
            #[trigger] ms[i].opcode,
        ).len() by {
            if i < prev.len() {
                assert(ms[i] == prev[i]);
            }
        }
        assert forall|i: int| 0 <= i < ms.len() implies ast_col(ms) >= utf8_len(
            #[trigger] ms[i].ast@,
        ) by {
            if i < prev.len() {
                assert(ms[i] == prev[i]);
            }
        }
        if opcode_col(ms) != 6 && opcode_col(ms) != opcode_text(ms[ms.len() - 1].opcode).len() {
            let i = choose|i: int| 0 <= i < prev.len() && opcode_col(prev) == opcode_text(
                #[trigger] prev[i].opcode,
            ).len();
            assert(ms[i] == prev[i]);
        }
        if ast_col(ms) != 3 && ast_col(ms) != utf8_len(ms[ms.len() - 1].ast@) {
            let i = choose|i: int| 0 <= i < prev.len() && ast_col(prev) == utf8_len(
                #[trigger] prev[i].ast@,
            );
            assert(ms[i] == prev[i]);
        }
    }
}

/// A UTF-8 encoding has at least one byte per character.
pub proof fn lemma_utf8_len_at_least_chars(s: Seq<char>)
    ensures
        vstd::utf8::encode_utf8(s).len() >= s.len(),
    decreases s.len(),
{
    if s.len() > 0 {
        lemma_utf8_len_at_least_chars(s.drop_first());
    }
}

/// In a table line whose fields fit their widths, the second field starts at
/// column `op_col + 2` and the third at `op_col + ast_col + 4`.
pub proof fn lemma_table_line_columns(
    a: Seq<char>,
    b: Seq<char>,
    c: Seq<char>,
    op_col: int,
    ast_col: int,
)
    requires
        a.len() <= op_col,
        b.len() <= ast_col,
    ensures
        ({
            let l = table_line(a, b, c, op_col, ast_col);
            &&& l.len() == op_col + ast_col + 4 + c.len() + 1
            &&& l.subrange(0, a.len() as int) == a
            &&& l.subrange(op_col + 2, op_col + 2 + b.len()) == b
            &&& l.subrange(op_col + ast_col + 4, op_col + ast_col + 4 + c.len()) == c
            &&& l[op_col + ast_col + 4 + c.len()] == '\n'
            &&& forall|j: int| a.len() <= j < op_col + 2 ==> l[j] == ' '
            &&& forall|j: int| op_col + 2 + b.len() <= j < op_col + ast_col + 4 ==> l[j] == ' '
        }),
{
    reveal_strlit("  ");
    let l = table_line(a, b, c, op_col, ast_col);
    let pa = pad_right(a, op_col);
    let pb = pad_right(b, ast_col);
    assert(pa.len() == op_col);
    assert(pb.len() == ast_col);
    assert(l.subrange(0, a.len() as int) =~= a);
    assert(l.subrange(op_col + 2, op_col + 2 + b.len()) =~= b);
    assert(l.subrange(op_col + ast_col + 4, op_col + ast_col + 4 + c.len()) =~= c);
}

/// Every row of the report, and its header, puts the AST at the same column
/// and the section at the same column, past the widest opcode and the widest
/// AST: the columns line up.
pub proof fn lemma_report_rows_line_up(ms: Seq<MissingOpcode>, i: int)
    requires
        0 <= i < ms.len(),
        forall|j: int|
            0 <= j < ms.len() ==> vstd::utf8::encode_utf8(#[trigger] ms[j].ast@).len() <= usize::MAX,
    ensures
        ({
            let oc = opcode_col(ms);
            let ac = ast_col(ms);
            let row = table_line(opcode_text(ms[i].opcode), ms[i].ast@, ms[i].section@, oc, ac);
            &&& row.subrange(oc + 2, oc + 2 + ms[i].ast@.len()) == ms[i].ast@
            &&& row.subrange(oc + ac + 4, oc + ac + 4 + ms[i].section@.len()) == ms[i].section@
            &&& oc + ac + 4 >= opcode_text(ms[i].opcode).len() + 2 + ms[i].ast@.len() + 2
        }),
{
    reveal_strlit("opcode");
    reveal_strlit("spectec");
    lemma_report_columns(ms);
    lemma_utf8_len_at_least_chars(ms[i].ast@);
    let oc = opcode_col(ms);
    let ac = ast_col(ms);
    assert(ac >= utf8_len(ms[i].ast@));
    lemma_table_line_columns(opcode_text(ms[i].opcode), ms[i].ast@, ms[i].section@, oc, ac);
}

} // verus!
