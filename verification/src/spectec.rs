//! Reader for the binary-instructions grammar of a Spectec specification.
//!
//! A rule reads `| 0xNN [N:Bu32] ... => AST`, possibly spread over several
//! lines; `;; Title` lines open a section. The reader keeps, for every opcode,
//! the last rule that names it.

use vstd::prelude::*;

use crate::instructions::Opcode;
use crate::text::{
    chars_of, find, find_chars, find_chars_from, find_from, lemma_find_from,
    lemma_trim_keeps_all_but_white_space,
    lowercase, matches_at, occurs_at, push_all, slice_range, starts_with, string_of, to_lowercase,
    trim, trim_chars,
};

verus! {

broadcast use vstd::string::group_string_axioms;

/// One grammar rule: the opcode it encodes, the AST it produces and the
/// section it stands in.
#[derive(Debug, Clone, PartialEq, Eq)]
pub struct SpectecRule {
    pub opcode: Opcode,
    pub ast: String,
    pub section: String,
}

/// Why a grammar piece did not parse: the input does not have its shape
/// (a caller may try something else), or a number is too large for its type.
#[derive(Debug, Clone, Copy, PartialEq, Eq, Structural)]
pub enum SpectecError {
    NoMatch,
    OutOfRange,
}

/// Character classes of the grammar's tokens.
#[derive(Debug, Clone, Copy, PartialEq, Eq, Structural)]
pub enum CharClass {
    /// `0-9`, `A-F`, `a-f`
    HexDigit,
    /// `0-9`
    DecDigit,
    /// space and tab
    Space,
    /// space, tab, carriage return and line feed
    Multispace,
}

pub open spec fn in_class(c: char, k: CharClass) -> bool {
    match k {
        CharClass::HexDigit => ('0' <= c && c <= '9') || ('A' <= c && c <= 'F') || ('a' <= c && c
            <= 'f'),
        CharClass::DecDigit => '0' <= c && c <= '9',
        CharClass::Space => c == ' ' || c == '\t',
        CharClass::Multispace => c == ' ' || c == '\t' || c == '\r' || c == '\n',
    }
}

/// Whether `c` belongs to class `k`.
pub fn char_in_class(c: char, k: CharClass) -> (r: bool)
    ensures
        r == in_class(c, k),
{
    match k {
        CharClass::HexDigit => ('0' <= c && c <= '9') || ('A' <= c && c <= 'F') || ('a' <= c && c
            <= 'f'),
        CharClass::DecDigit => '0' <= c && c <= '9',
        CharClass::Space => c == ' ' || c == '\t',
        CharClass::Multispace => c == ' ' || c == '\t' || c == '\r' || c == '\n',
    }
}

/// The number of consecutive characters of class `k` in `s` from index `i`.
pub open spec fn span(s: Seq<char>, i: int, k: CharClass) -> nat
    decreases s.len() - i,
{
    if 0 <= i < s.len() && in_class(s[i], k) {
        1 + span(s, i + 1, k)
    } else {
        0
    }
}

/// The length of the run of class-`k` characters of `s` from `i`.
pub fn span_at(s: &[char], i: usize, k: CharClass) -> (n: usize)
    requires
        i <= s@.len(),
    ensures
        n == span(s@, i as int, k),
        i + n <= s@.len(),
        i + n <= s.len(),
{
    let mut j = i;
    while j < s.len() && char_in_class(s[j], k)
        invariant
            i <= j <= s@.len(),
            span(s@, i as int, k) == (j - i) + span(s@, j as int, k),
        decreases s@.len() - j,
    {
        j = j + 1;
    }
    j - i
}

pub open spec fn hex_digit_value(c: char) -> int {
    let u = c as int;
    if u <= 57 {
        u - 48
    } else if u <= 70 {
        u - 55
    } else {
        u - 87
    }
}

pub open spec fn dec_digit_value(c: char) -> int {
    c as int - 48
}

/// The number that the hexadecimal digits `s[lo..hi]` denote.
pub open spec fn hex_value(s: Seq<char>, lo: int, hi: int) -> int
    decreases hi - lo,
{
    if hi <= lo {
        0
    } else {
        hex_value(s, lo, hi - 1) * 16 + hex_digit_value(s[hi - 1])
    }
}

/// The number that the decimal digits `s[lo..hi]` denote.
pub open spec fn dec_value(s: Seq<char>, lo: int, hi: int) -> int
    decreases hi - lo,
{
    if hi <= lo {
        0
    } else {
        dec_value(s, lo, hi - 1) * 10 + dec_digit_value(s[hi - 1])
    }
}

/// `:Bu32`, the suffix of an opcode index.
pub open spec fn bu32_suffix() -> Seq<char> {
    seq![':', 'B', 'u', '3', '2']
}

/// `=>`, the separator of a rule's encoding and AST.
pub open spec fn arrow() -> Seq<char> {
    seq!['=', '>']
}

/// A `0xNN` byte at index `i` of `s`: the index just past it and its value.
pub open spec fn hex_byte_at(s: Seq<char>, i: int) -> Result<(int, u8), SpectecError> {
    if 0 <= i && i + 2 <= s.len() && s[i] == '0' && (s[i + 1] == 'x' || s[i + 1] == 'X') {
        let n = span(s, i + 2, CharClass::HexDigit);
        if n == 0 {
            Err(SpectecError::NoMatch)
        } else if hex_value(s, i + 2, i + 2 + n) <= 255 {
            Ok((i + 2 + n, hex_value(s, i + 2, i + 2 + n) as u8))
        } else {
            Err(SpectecError::OutOfRange)
        }
    } else {
        Err(SpectecError::NoMatch)
    }
}

/// An `N:Bu32` index (decimal `N`) at index `i` of `s`.
pub open spec fn bu32_index_at(s: Seq<char>, i: int) -> Result<(int, u32), SpectecError> {
    let n = span(s, i, CharClass::DecDigit);
    if n == 0 {
        Err(SpectecError::NoMatch)
    } else if !occurs_at(s, bu32_suffix(), i + n) {
        Err(SpectecError::NoMatch)
    } else if dec_value(s, i, i + n) <= u32::MAX {
        Ok((i + n + 5, dec_value(s, i, i + n) as u32))
    } else {
        Err(SpectecError::OutOfRange)
    }
}

/// An opcode key at index `i` of `s`: leading spaces and line breaks, one
/// `0xNN` byte, then optionally spaces and an `N:Bu32` index. A missing
/// index gives a single-byte opcode; an index too large for `u32` fails.
pub open spec fn opcode_key_at(s: Seq<char>, i: int) -> Result<(int, Opcode), SpectecError> {
    let m = span(s, i, CharClass::Multispace);
    match hex_byte_at(s, i + m) {
        Err(e) => Err(e),
        Ok((j, b)) => {
            let sp = span(s, j, CharClass::Space);
            match bu32_index_at(s, j + sp) {
                Ok((k, x)) => Ok((k, Opcode::Multi(b, x))),
                Err(SpectecError::NoMatch) => Ok((j, Opcode::Single(b))),
                Err(SpectecError::OutOfRange) => Err(SpectecError::OutOfRange),
            }
        },
    }
}

/// A rule's content split at its first `=>`: the trimmed encoding and the trimmed AST.
pub open spec fn rule_arrow_spec(s: Seq<char>) -> Option<(Seq<char>, Seq<char>)> {
    match find(s, arrow()) {
        Some(k) => Some((trim(s.take(k as int)), trim(s.skip(k + 2int)))),
        None => None,
    }
}

/// A parse position result seen with `int` positions.
pub open spec fn at_int<T>(r: Result<(usize, T), SpectecError>) -> Result<(int, T), SpectecError> {
    match r {
        Ok((e, v)) => Ok((e as int, v)),
        Err(x) => Err(x),
    }
}

/// A parse result whose remaining input is returned as a string.
pub open spec fn rest_result<T>(
    r: Result<(String, T), SpectecError>,
    input: Seq<char>,
    spec_r: Result<(int, T), SpectecError>,
) -> bool {
    match spec_r {
        Ok((e, v)) => r matches Ok((rest, w)) && w == v && rest@ == input.skip(e),
        Err(x) => r == Err::<(String, T), SpectecError>(x),
    }
}

/// The value of one hexadecimal digit.
fn hex_digit_val(c: char) -> (v: u64)
    requires
        in_class(c, CharClass::HexDigit),
    ensures
        v == hex_digit_value(c),
        v < 16,
{
    let u = c as u32;
    if u <= 57 {
        (u - 48) as u64
    } else if u <= 70 {
        (u - 55) as u64
    } else {
        (u - 87) as u64
    }
}

/// The value of the hexadecimal digits `s[lo..hi]`, or 256 when it exceeds 255.
fn hex_value_capped(s: &[char], lo: usize, hi: usize) -> (v: u64)
    requires
        lo <= hi <= s@.len(),
        forall|j: int| lo <= j < hi ==> in_class(#[trigger] s@[j], CharClass::HexDigit),
    ensures
        (v <= 255 && v == hex_value(s@, lo as int, hi as int)) || (v == 256 && hex_value(
            s@,
            lo as int,
            hi as int,
        ) > 255),
{
    let mut v: u64 = 0;
    let mut j = lo;
    while j < hi
        invariant
            lo <= j <= hi <= s@.len(),
            forall|j: int| lo <= j < hi ==> in_class(#[trigger] s@[j], CharClass::HexDigit),
            (v <= 255 && v == hex_value(s@, lo as int, j as int)) || (v == 256 && hex_value(
                s@,
                lo as int,
                j as int,
            ) > 255),
        decreases hi - j,
    {
        let d = hex_digit_val(s[j]);
        assert(hex_value(s@, lo as int, j + 1) == hex_value(s@, lo as int, j as int) * 16
            + hex_digit_value(s@[j as int]));
        if v <= 255 {
            v = v * 16 + d;
            if v > 255 {
                v = 256;
            }
        }
        j = j + 1;
    }
    v
}

/// The value of the decimal digits `s[lo..hi]`, or 2^32 when it exceeds `u32::MAX`.
fn dec_value_capped(s: &[char], lo: usize, hi: usize) -> (v: u64)
    requires
        lo <= hi <= s@.len(),
        forall|j: int| lo <= j < hi ==> in_class(#[trigger] s@[j], CharClass::DecDigit),
    ensures
        (v <= u32::MAX && v == dec_value(s@, lo as int, hi as int)) || (v == 0x1_0000_0000
            && dec_value(s@, lo as int, hi as int) > u32::MAX),
{
    let mut v: u64 = 0;
    let mut j = lo;
    while j < hi
        invariant
            lo <= j <= hi <= s@.len(),
            forall|j: int| lo <= j < hi ==> in_class(#[trigger] s@[j], CharClass::DecDigit),
            (v <= u32::MAX && v == dec_value(s@, lo as int, j as int)) || (v == 0x1_0000_0000
                && dec_value(s@, lo as int, j as int) > u32::MAX),
        decreases hi - j,
    {
        let d = (s[j] as u32 - 48) as u64;
        assert(dec_value(s@, lo as int, j + 1) == dec_value(s@, lo as int, j as int) * 10
            + dec_digit_value(s@[j as int]));
        if v <= 0xFFFF_FFFF {
            v = v * 10 + d;
            if v > 0xFFFF_FFFF {
                v = 0x1_0000_0000;
            }
        }
        j = j + 1;
    }
    v
}

/// All characters of a span belong to its class.
proof fn lemma_span_class(s: Seq<char>, i: int, k: CharClass)
    requires
        0 <= i,
    ensures
        i + span(s, i, k) <= s.len() || span(s, i, k) == 0,
        forall|j: int| i <= j < i + span(s, i, k) ==> in_class(#[trigger] s[j], k),
    decreases s.len() - i,
{
    if 0 <= i < s.len() && in_class(s[i], k) {
        lemma_span_class(s, i + 1, k);
    }
}

/// Reads a `0xNN` byte at index `i` of `s`.
pub fn hex_byte_chars(s: &[char], i: usize) -> (r: Result<(usize, u8), SpectecError>)
    requires
        i <= s@.len(),
    ensures
        at_int(r) == hex_byte_at(s@, i as int),
        r matches Ok((e, _)) ==> i <= e <= s@.len(),
{
    if s.len() - i >= 2 && s[i] == '0' && (s[i + 1] == 'x' || s[i + 1] == 'X') {
        let n = span_at(s, i + 2, CharClass::HexDigit);
        assert(s@.len() == s.len());
        if n == 0 {
            return Err(SpectecError::NoMatch);
        }
        proof {
            lemma_span_class(s@, i + 2, CharClass::HexDigit);
        }
        let v = hex_value_capped(s, i + 2, i + 2 + n);
        if v <= 255 {
            Ok((i + 2 + n, v as u8))
        } else {
            Err(SpectecError::OutOfRange)
        }
    } else {
        Err(SpectecError::NoMatch)
    }
}

/// Reads an `N:Bu32` index at index `i` of `s`.
pub fn bu32_index_chars(s: &[char], i: usize) -> (r: Result<(usize, u32), SpectecError>)
    requires
        i <= s@.len(),
    ensures
        at_int(r) == bu32_index_at(s@, i as int),
        r matches Ok((e, _)) ==> i <= e <= s@.len(),
{
    let n = span_at(s, i, CharClass::DecDigit);
    if n == 0 {
        return Err(SpectecError::NoMatch);
    }
    assert(s@.len() == s.len());
    let suffix = vec![':', 'B', 'u', '3', '2'];
    assert(suffix@ =~= bu32_suffix());
    if !matches_at(s, &suffix, i + n) {
        return Err(SpectecError::NoMatch);
    }
    proof {
        lemma_span_class(s@, i as int, CharClass::DecDigit);
    }
    let v = dec_value_capped(s, i, i + n);
    if v <= 0xFFFF_FFFF {
        Ok((i + n + 5, v as u32))
    } else {
        Err(SpectecError::OutOfRange)
    }
}

/// Reads an opcode key at index `i` of `s`.
pub fn opcode_key_chars(s: &[char], i: usize) -> (r: Result<(usize, Opcode), SpectecError>)
    requires
        i <= s@.len(),
    ensures
        at_int(r) == opcode_key_at(s@, i as int),
        r matches Ok((e, _)) ==> i <= e <= s@.len(),
{
    let m = span_at(s, i, CharClass::Multispace);
    assert(s@.len() == s.len());
    match hex_byte_chars(s, i + m) {
        Err(e) => Err(e),
        Ok((j, b)) => {
            proof {
                lemma_span_class(s@, (i + m + 2) as int, CharClass::HexDigit);
            }
            let sp = span_at(s, j, CharClass::Space);
            match bu32_index_chars(s, j + sp) {
                Ok((k, x)) => Ok((k, Opcode::Multi(b, x))),
                Err(SpectecError::NoMatch) => Ok((j, Opcode::Single(b))),
                Err(SpectecError::OutOfRange) => Err(SpectecError::OutOfRange),
            }
        },
    }
}

/// Splits `s` at its first `=>` into the trimmed encoding and the trimmed AST.
pub fn rule_arrow_chars(s: &[char]) -> (r: Option<(Vec<char>, Vec<char>)>)
    ensures
        match r {
            Some((left, ast)) => rule_arrow_spec(s@) == Some((left@, ast@)),
            None => rule_arrow_spec(s@) is None,
        },
{
    let pat = vec!['=', '>'];
    assert(pat@ =~= arrow());
    match find_chars(s, &pat) {
        Some(k) => {
            proof {
                lemma_find_from(s@, arrow(), 0);
            }
            assert(s@.len() == s.len());
            let left = slice_range(s, 0, k);
            let ast = slice_range(s, k + 2, s.len());
            assert(left@ =~= s@.take(k as int));
            assert(ast@ =~= s@.skip(k + 2));
            Some((trim_chars(&left), trim_chars(&ast)))
        },
        None => None,
    }
}

/// Leading `0xNN` byte in a Spectec rule left-hand side; returns the rest of
/// the input and the byte.
pub fn hex_byte(input: &str) -> (r: Result<(String, u8), SpectecError>)
    ensures
        rest_result(r, input@, hex_byte_at(input@, 0)),
{
    let s = chars_of(input);
    match hex_byte_chars(&s, 0) {
        Ok((e, b)) => {
            let rest = slice_range(&s, e, s.len());
            assert(rest@ =~= input@.skip(e as int));
            Ok((string_of(&rest), b))
        },
        Err(x) => Err(x),
    }
}

/// `N:Bu32` opcode index suffix (decimal `N`); returns the rest of the input and `N`.
pub fn bu32_index(input: &str) -> (r: Result<(String, u32), SpectecError>)
    ensures
        rest_result(r, input@, bu32_index_at(input@, 0)),
{
    let s = chars_of(input);
    match bu32_index_chars(&s, 0) {
        Ok((e, v)) => {
            proof {
                lemma_span_class(s@, 0, CharClass::DecDigit);
            }
            let rest = slice_range(&s, e, s.len());
            assert(rest@ =~= input@.skip(e as int));
            Ok((string_of(&rest), v))
        },
        Err(x) => Err(x),
    }
}

/// Opcode key: one `0xNN` byte, optionally followed by `N:Bu32`; returns the
/// rest of the input and the opcode.
pub fn opcode_key(input: &str) -> (r: Result<(String, Opcode), SpectecError>)
    ensures
        rest_result(r, input@, opcode_key_at(input@, 0)),
{
    let s = chars_of(input);
    match opcode_key_chars(&s, 0) {
        Ok((e, op)) => {
            let rest = slice_range(&s, e, s.len());
            assert(rest@ =~= input@.skip(e as int));
            Ok((string_of(&rest), op))
        },
        Err(x) => Err(x),
    }
}

/// Split rule content at `=>` into left-hand encoding and AST name, both
/// trimmed; the remaining input (always empty) comes first.
pub fn rule_arrow(input: &str) -> (r: Result<(String, (String, String)), SpectecError>)
    ensures
        match rule_arrow_spec(input@) {
            Some((left, ast)) => r matches Ok((rest, (l, a))) && rest@.len() == 0 && l@ == left
                && a@ == ast,
            None => r == Err::<(String, (String, String)), SpectecError>(SpectecError::NoMatch),
        },
{
    let s = chars_of(input);
    match rule_arrow_chars(&s) {
        Some((left, ast)) => Ok((String::new(), (string_of(&left), string_of(&ast)))),
        None => Err(SpectecError::NoMatch),
    }
}

// ---------------------------------------------------------------------------
// Lines of the grammar file
// ---------------------------------------------------------------------------

/// `;;`, the start of a section title.
pub open spec fn title_marker() -> Seq<char> {
    seq![';', ';']
}

/// `| ...`, the elision line.
pub open spec fn ellipsis() -> Seq<char> {
    seq!['|', ' ', '.', '.', '.']
}

/// `grammar`, the keyword that opens a grammar definition.
pub open spec fn grammar_keyword() -> Seq<char> {
    seq!['g', 'r', 'a', 'm', 'm', 'a', 'r']
}

/// The text of a section-title line, before lowercasing: the trimmed text
/// after a leading `;;`, when there is any.
pub open spec fn raw_section_title(line: Seq<char>) -> Option<Seq<char>> {
    let t = trim(line);
    if starts_with(t, title_marker()) && trim(t.skip(2)).len() > 0 {
        Some(trim(t.skip(2)))
    } else {
        None
    }
}

/// The section a line opens, lowercased, if it is a section-title line.
pub open spec fn section_title(line: Seq<char>) -> Option<Seq<char>> {
    match raw_section_title(line) {
        Some(title) => Some(lowercase(title)),
        None => None,
    }
}

/// The optional string seen as optional characters.
pub open spec fn opt_string_view(o: Option<String>) -> Option<Seq<char>> {
    match o {
        Some(s) => Some(s@),
        None => None,
    }
}

/// The optional vector seen as optional characters.
pub open spec fn opt_chars_view(o: Option<Vec<char>>) -> Option<Seq<char>> {
    match o {
        Some(v) => Some(v@),
        None => None,
    }
}

/// `a`, a space, then `b`.
pub open spec fn join_space(a: Seq<char>, b: Seq<char>) -> Seq<char> {
    a.push(' ') + b
}

/// The content of a rule line: what follows its first `|`, trimmed; without a
/// `|`, the trimmed line, after the pending left-hand side if there is one.
pub open spec fn rule_content_spec(line: Seq<char>, pending: Option<Seq<char>>) -> Seq<char> {
    match find(line, seq!['|']) {
        Some(p) => trim(line.skip(p + 1int)),
        None => match pending {
            Some(prev) => join_space(prev, trim(line)),
            None => trim(line),
        },
    }
}

/// The trimmed text between the first `|` of a line and the next `|` (or the
/// end), as `line.split('|').nth(1)` gives it; empty without a `|`.
pub open spec fn pipe_fragment(line: Seq<char>) -> Seq<char> {
    match find(line, seq!['|']) {
        Some(p) => {
            let rest = line.skip(p + 1int);
            match find(rest, seq!['|']) {
                Some(q) => trim(rest.take(q as int)),
                None => trim(rest),
            }
        },
        None => Seq::empty(),
    }
}

/// The section title a line opens, lowercased (`;; Title` gives `title`).
pub fn section_title_chars(line: &[char]) -> (r: Option<String>)
    ensures
        opt_string_view(r) == section_title(line@),
{
    let t = trim_chars(line);
    let marker = vec![';', ';'];
    assert(marker@ =~= title_marker());
    if !matches_at(&t, &marker, 0) {
        return None;
    }
    let after = slice_range(&t, 2, t.len());
    assert(after@ =~= t@.skip(2));
    let title = trim_chars(&after);
    if title.len() == 0 {
        return None;
    }
    let title = string_of(&title);
    Some(to_lowercase(title.as_str()))
}

/// The section a `;; Title` line opens, lowercased.
pub fn parse_section_line(line: &str) -> (r: Option<String>)
    ensures
        opt_string_view(r) == section_title(line@),
{
    let s = chars_of(line);
    section_title_chars(&s)
}

/// The rule content of a line (see [`rule_content_spec`]).
pub fn rule_content_chars(line: &[char], pending: Option<Vec<char>>) -> (r: Vec<char>)
    ensures
        r@ == rule_content_spec(line@, opt_chars_view(pending)),
{
    let bar = vec!['|'];
    assert(bar@ =~= seq!['|']);
    match find_chars(line, &bar) {
        Some(p) => {
            proof {
                lemma_find_from(line@, seq!['|'], 0);
            }
            assert(line@.len() == line.len());
            let after = slice_range(line, p + 1, line.len());
            assert(after@ =~= line@.skip(p + 1int));
            trim_chars(&after)
        },
        None => {
            let t = trim_chars(line);
            match pending {
                Some(prev) => {
                    let mut joined = prev;
                    joined.push(' ');
                    push_all(&mut joined, &t);
                    joined
                },
                None => t,
            }
        },
    }
}

/// The content of a rule line: the text after its first `|`, or the line
/// appended to the pending left-hand side, trimmed.
pub fn rule_content(line: &str, pending: Option<String>) -> (r: String)
    ensures
        r@ == rule_content_spec(line@, opt_string_view(pending)),
{
    let s = chars_of(line);
    let pending_chars = match pending {
        Some(p) => Some(chars_of(p.as_str())),
        None => None,
    };
    let content = rule_content_chars(&s, pending_chars);
    string_of(&content)
}

/// The fragment of a continuation line (see [`pipe_fragment`]).
pub fn pipe_fragment_chars(line: &[char]) -> (r: Vec<char>)
    ensures
        r@ == pipe_fragment(line@),
{
    let bar = vec!['|'];
    assert(bar@ =~= seq!['|']);
    match find_chars(line, &bar) {
        Some(p) => {
            proof {
                lemma_find_from(line@, seq!['|'], 0);
            }
            assert(line@.len() == line.len());
            let rest = slice_range(line, p + 1, line.len());
            assert(rest@ =~= line@.skip(p + 1int));
            match find_chars(&rest, &bar) {
                Some(q) => {
                    proof {
                        lemma_find_from(rest@, seq!['|'], 0);
                    }
                    let seg = slice_range(&rest, 0, q);
                    assert(seg@ =~= rest@.take(q as int));
                    trim_chars(&seg)
                },
                None => trim_chars(&rest),
            }
        },
        None => Vec::new(),
    }
}

// ---------------------------------------------------------------------------
// Rule table, ordered by opcode
// ---------------------------------------------------------------------------

/// The position of an opcode in the table order: single-byte opcodes by
/// byte, then prefixed opcodes by prefix and index.
pub open spec fn opcode_rank(op: Opcode) -> int {
    match op {
        Opcode::Single(b) => b as int,
        Opcode::Multi(p, i) => 256 + p * 0x1_0000_0000 + i,
    }
}

/// Distinct opcodes have distinct ranks.
pub proof fn lemma_opcode_rank_injective(a: Opcode, b: Opcode)
    ensures
        opcode_rank(a) == opcode_rank(b) ==> a == b,
{
}

/// Whether `a` comes before `b` in the table order.
pub fn opcode_before(a: Opcode, b: Opcode) -> (r: bool)
    ensures
        r == (opcode_rank(a) < opcode_rank(b)),
{
    match (a, b) {
        (Opcode::Single(x), Opcode::Single(y)) => x < y,
        (Opcode::Single(_), Opcode::Multi(_, _)) => true,
        (Opcode::Multi(_, _), Opcode::Single(_)) => false,
        (Opcode::Multi(p, i), Opcode::Multi(q, j)) => p < q || (p == q && i < j),
    }
}

/// What the table keeps for one opcode: the AST and the section.
pub open spec fn rule_entry(r: SpectecRule) -> (Seq<char>, Seq<char>) {
    (r.ast@, r.section@)
}

/// Rules strictly ascending by opcode.
pub open spec fn sorted_by_opcode(rs: Seq<SpectecRule>) -> bool {
    forall|i: int, j: int|
        0 <= i < j < rs.len() ==> opcode_rank(#[trigger] rs[i].opcode) < opcode_rank(
            #[trigger] rs[j].opcode,
        )
}

/// `rs` lists the map `m` in opcode order, one rule per opcode.
pub open spec fn lists(rs: Seq<SpectecRule>, m: Map<Opcode, (Seq<char>, Seq<char>)>) -> bool {
    &&& sorted_by_opcode(rs)
    &&& forall|i: int|
        0 <= i < rs.len() ==> m.contains_key(#[trigger] rs[i].opcode) && m[rs[i].opcode]
            == rule_entry(rs[i])
    &&& forall|op: Opcode| #[trigger]
        m.contains_key(op) ==> exists|i: int| 0 <= i < rs.len() && rs[i].opcode == op
}

/// Adds `rule` to the ordered rules, replacing a rule with the same opcode.
fn insert_rule(
    rules: &mut Vec<SpectecRule>,
    rule: SpectecRule,
    Ghost(m): Ghost<Map<Opcode, (Seq<char>, Seq<char>)>>,
)
    requires
        lists(old(rules)@, m),
    ensures
        lists(final(rules)@, m.insert(rule.opcode, rule_entry(rule))),
{
    let ghost old_rs = rules@;
    let ghost m2 = m.insert(rule.opcode, rule_entry(rule));
    let mut p: usize = 0;
    while p < rules.len() && opcode_before(rules[p].opcode, rule.opcode)
        invariant
            rules@ == old_rs,
            p <= old_rs.len(),
            forall|j: int| 0 <= j < p ==> opcode_rank(#[trigger] old_rs[j].opcode) < opcode_rank(
                rule.opcode,
            ),
        decreases old_rs.len() - p,
    {
        p = p + 1;
    }
    if p < rules.len() && rules[p].opcode == rule.opcode {
        let ghost op = rule.opcode;
        rules[p] = rule;
        proof {
            let rs = rules@;
            assert(rs =~= old_rs.update(p as int, rule));
            assert forall|i: int| 0 <= i < rs.len() implies m2.contains_key(
                #[trigger] rs[i].opcode,
            ) && m2[rs[i].opcode] == rule_entry(rs[i]) by {
                if i != p {
                    assert(rs[i] == old_rs[i]);
                    if i < p {
                        assert(opcode_rank(old_rs[i].opcode) < opcode_rank(old_rs[p as int].opcode));
                    } else {
                        assert(opcode_rank(old_rs[p as int].opcode) < opcode_rank(old_rs[i].opcode));
                    }
                }
            }
            assert forall|o: Opcode| #[trigger] m2.contains_key(o) implies exists|i: int|
                0 <= i < rs.len() && rs[i].opcode == o by {
                if o == op {
                    assert(rs[p as int].opcode == o);
                } else {
                    assert(m.contains_key(o));
                    let i = choose|i: int| 0 <= i < old_rs.len() && old_rs[i].opcode == o;
                    assert(rs[i].opcode == o);
                }
            }
            assert(sorted_by_opcode(rs)) by {
                assert forall|i: int, j: int| 0 <= i < j < rs.len() implies opcode_rank(
                    #[trigger] rs[i].opcode,
                ) < opcode_rank(#[trigger] rs[j].opcode) by {
                    assert(opcode_rank(old_rs[i].opcode) < opcode_rank(old_rs[j].opcode));
                }
            }
        }
    } else {
        proof {
            if p < old_rs.len() {
                lemma_opcode_rank_injective(old_rs[p as int].opcode, rule.opcode);
            }
        }
        let ghost op = rule.opcode;
        rules.insert(p, rule);
        proof {
            let rs = rules@;
            assert(rs =~= old_rs.insert(p as int, rule));
            assert forall|j: int| p <= j < old_rs.len() implies opcode_rank(op) < opcode_rank(
                #[trigger] old_rs[j].opcode,
            ) by {
                if j > p {
                    assert(opcode_rank(old_rs[p as int].opcode) < opcode_rank(old_rs[j].opcode));
                }
            }
            assert(sorted_by_opcode(rs)) by {
                assert forall|i: int, j: int| 0 <= i < j < rs.len() implies opcode_rank(
                    #[trigger] rs[i].opcode,
                ) < opcode_rank(#[trigger] rs[j].opcode) by {
                    if j < p {
                        assert(opcode_rank(old_rs[i].opcode) < opcode_rank(old_rs[j].opcode));
                    } else if j == p {
                        assert(rs[i] == old_rs[i]);
                    } else if i == p {
                        assert(rs[j] == old_rs[j - 1]);
                    } else if i < p {
                        assert(rs[j] == old_rs[j - 1]);
                        assert(rs[i] == old_rs[i]);
                    } else {
                        assert(rs[j] == old_rs[j - 1]);
                        assert(rs[i] == old_rs[i - 1]);
                        assert(opcode_rank(old_rs[i - 1].opcode) < opcode_rank(
                            old_rs[j - 1].opcode,
                        ));
                    }
                }
            }
            assert forall|i: int| 0 <= i < rs.len() implies m2.contains_key(
                #[trigger] rs[i].opcode,
            ) && m2[rs[i].opcode] == rule_entry(rs[i]) by {
                if i < p {
                    assert(rs[i] == old_rs[i]);
                } else if i > p {
                    assert(rs[i] == old_rs[i - 1]);
                }
            }
            assert forall|o: Opcode| #[trigger] m2.contains_key(o) implies exists|i: int|
                0 <= i < rs.len() && rs[i].opcode == o by {
                if o == op {
                    assert(rs[p as int].opcode == o);
                } else {
                    assert(m.contains_key(o));
                    let i = choose|i: int| 0 <= i < old_rs.len() && old_rs[i].opcode == o;
                    if i < p {
                        assert(rs[i].opcode == o);
                    } else {
                        assert(rs[i + 1].opcode == o);
                    }
                }
            }
        }
    }
}

// ---------------------------------------------------------------------------
// Scanning the grammar line by line
// ---------------------------------------------------------------------------

/// What the reader knows between two lines: the current section, the rules
/// kept so far (by opcode: AST and section), and the left-hand side of a rule
/// whose `=>` has not been seen yet.
pub ghost struct ScanState {
    pub section: Seq<char>,
    pub rules: Map<Opcode, (Seq<char>, Seq<char>)>,
    pub pending: Option<Seq<char>>,
}

/// Before the first line: section `unknown`, no rules, nothing pending.
pub open spec fn initial_scan() -> ScanState {
    ScanState { section: "unknown"@, rules: Map::empty(), pending: None }
}

/// The opcode and AST of a rule line, given the pending left-hand side: the
/// content split at `=>`, with a non-empty AST and an encoding that starts
/// with an opcode key.
pub open spec fn rule_of_line(line: Seq<char>, pending: Option<Seq<char>>) -> Option<(Opcode, Seq<char>)> {
    match rule_arrow_spec(rule_content_spec(line, pending)) {
        Some((left, ast)) => if ast.len() > 0 {
            match opcode_key_at(left, 0) {
                Ok((_, op)) => Some((op, ast)),
                Err(_) => None,
            }
        } else {
            None
        },
        None => None,
    }
}

/// The effect of one line, given the section title it opens (if any).
pub open spec fn step_with(st: ScanState, line: Seq<char>, title: Option<Seq<char>>) -> ScanState {
    match title {
        Some(sec) => ScanState { section: sec, ..st },
        None => {
            let t = trim(line);
            if t == ellipsis() {
                st
            } else if find(line, arrow()) is Some {
                let cleared = ScanState { pending: None, ..st };
                match rule_of_line(line, st.pending) {
                    Some((op, ast)) => ScanState {
                        rules: st.rules.insert(op, (ast, st.section)),
                        ..cleared
                    },
                    None => cleared,
                }
            } else if t.len() > 0 && t[0] == '|' {
                let frag = pipe_fragment(line);
                if frag.len() > 0 {
                    ScanState {
                        pending: Some(
                            match st.pending {
                                Some(prev) => join_space(prev, frag),
                                None => frag,
                            },
                        ),
                        ..st
                    }
                } else {
                    st
                }
            } else if st.pending is Some && t.len() > 0 && !starts_with(t, grammar_keyword()) {
                ScanState { pending: Some(join_space(st.pending->0, t)), ..st }
            } else {
                st
            }
        },
    }
}

/// The effect of one line.
pub open spec fn step(st: ScanState, line: Seq<char>) -> ScanState {
    step_with(st, line, section_title(line))
}

/// The effect of a sequence of lines, first to last.
pub open spec fn scan_lines(st: ScanState, lines: Seq<Seq<char>>) -> ScanState
    decreases lines.len(),
{
    if lines.len() == 0 {
        st
    } else {
        scan_lines(step(st, lines[0]), lines.drop_first())
    }
}

/// A line without the carriage return of a `\r\n` ending.
pub open spec fn strip_cr(l: Seq<char>) -> Seq<char> {
    if l.len() > 0 && l.last() == '\r' {
        l.drop_last()
    } else {
        l
    }
}

/// The lines of `s` from index `start`, as `str::lines` splits them: at `\n`,
/// with a `\r` before the `\n` removed, and no empty line after a final `\n`.
pub open spec fn lines_from(s: Seq<char>, start: nat) -> Seq<Seq<char>>
    decreases s.len() - start,
{
    if start >= s.len() {
        Seq::empty()
    } else {
        match find_from(s, seq!['\n'], start) {
            None => seq![s.subrange(start as int, s.len() as int)],
            Some(k) => {
                proof {
                    lemma_find_from(s, seq!['\n'], start);
                }
                seq![strip_cr(s.subrange(start as int, k as int))] + lines_from(s, k + 1)
            },
        }
    }
}

/// The lines of `s`.
pub open spec fn lines_of(s: Seq<char>) -> Seq<Seq<char>> {
    lines_from(s, 0)
}

/// What the whole grammar text yields.
pub open spec fn scan_source(s: Seq<char>) -> ScanState {
    scan_lines(initial_scan(), lines_of(s))
}

/// The reader's state between lines.
pub struct SpectecScan {
    section: String,
    rules: Vec<SpectecRule>,
    pending: Option<Vec<char>>,
    rule_map: Ghost<Map<Opcode, (Seq<char>, Seq<char>)>>,
}

impl SpectecScan {
    /// The state the reader is in.
    pub closed spec fn state(&self) -> ScanState {
        ScanState {
            section: self.section@,
            rules: self.rule_map@,
            pending: opt_chars_view(self.pending),
        }
    }

    /// The kept rules are listed in opcode order.
    #[verifier::type_invariant]
    closed spec fn wf(self) -> bool {
        lists(self.rules@, self.rule_map@)
    }

    /// A reader before the first line.
    pub fn new() -> (r: SpectecScan)
        ensures
            r.state() == initial_scan(),
    {
        SpectecScan {
            section: "unknown".to_string(),
            rules: Vec::new(),
            pending: None,
            rule_map: Ghost(Map::empty()),
        }
    }

    /// Takes in one line, given the section title it opens (the lowercased
    /// title when it is a `;; Title` line, else `None`).
    pub fn apply_line(&mut self, line: &[char], title: Option<String>)
        ensures
            final(self).state() == step_with(old(self).state(), line@, opt_string_view(title)),
    {
        proof {
            use_type_invariant(&*self);
        }
        let ghost st = self.state();
        if let Some(sec) = title {
            self.section = sec;
            return;
        }
        let t = trim_chars(line);
        let dots = vec!['|', ' ', '.', '.', '.'];
        assert(dots@ =~= ellipsis());
        if t.len() == 5 && matches_at(&t, &dots, 0) {
            assert(t@ =~= t@.subrange(0, 5));
            return;
        }
        assert(t@ != ellipsis()) by {
            if t@ == ellipsis() {
                assert(t@.subrange(0, 5) =~= t@);
            }
        }
        let arrow_pat = vec!['=', '>'];
        assert(arrow_pat@ =~= arrow());
        if find_chars(line, &arrow_pat).is_some() {
            let mut pending: Option<Vec<char>> = None;
            std::mem::swap(&mut pending, &mut self.pending);
            let content = rule_content_chars(line, pending);
            let ghost cleared = ScanState { pending: None, ..st };
            assert(self.state() == cleared);
            if let Some((left, ast)) = rule_arrow_chars(&content) {
                if ast.len() > 0 {
                    if let Ok((_, op)) = opcode_key_chars(&left, 0) {
                        let mut taken = SpectecScan::new();
                        std::mem::swap(self, &mut taken);
                        proof {
                            use_type_invariant(&taken);
                        }
                        let SpectecScan { section, mut rules, pending, rule_map } = taken;
                        let rule = SpectecRule {
                            opcode: op,
                            ast: string_of(&ast),
                            section: section.clone(),
                        };
                        insert_rule(&mut rules, rule, rule_map);
                        let ghost new_map = rule_map@.insert(op, (ast@, section@));
                        *self = SpectecScan { section, rules, pending, rule_map: Ghost(new_map) };
                        assert(self.state() == ScanState {
                            rules: st.rules.insert(op, (ast@, st.section)),
                            ..cleared
                        });
                    }
                }
            }
            return;
        }
        if t.len() > 0 && t[0] == '|' {
            let frag = pipe_fragment_chars(line);
            if frag.len() > 0 {
                let mut previous: Option<Vec<char>> = None;
                std::mem::swap(&mut previous, &mut self.pending);
                let joined = match previous {
                    Some(prev) => {
                        let mut joined = prev;
                        joined.push(' ');
                        push_all(&mut joined, &frag);
                        assert(joined@ =~= join_space(st.pending->0, frag@));
                        joined
                    },
                    None => frag,
                };
                self.pending = Some(joined);
            }
        } else if self.pending.is_some() && t.len() > 0 {
            let keyword = vec!['g', 'r', 'a', 'm', 'm', 'a', 'r'];
            assert(keyword@ =~= grammar_keyword());
            if !matches_at(&t, &keyword, 0) {
                let mut previous: Option<Vec<char>> = None;
                std::mem::swap(&mut previous, &mut self.pending);
                let mut joined = previous.unwrap();
                joined.push(' ');
                push_all(&mut joined, &t);
                assert(joined@ =~= join_space(st.pending->0, t@));
                self.pending = Some(joined);
            }
        }
    }

    /// Takes in one line.
    pub fn feed_line(&mut self, line: &[char])
        ensures
            final(self).state() == step(old(self).state(), line@),
    {
        let title = section_title_chars(line);
        self.apply_line(line, title);
    }

    /// The kept rules, in opcode order.
    pub fn into_rules(self) -> (r: Vec<SpectecRule>)
        ensures
            lists(r@, self.state().rules),
    {
        proof {
            use_type_invariant(&self);
        }
        self.rules
    }
}

/// Reads all grammar rules of a Spectec text: for each opcode the last rule
/// that names it, with the section it stands in, in opcode order.
pub fn parse_spectec(source: &str) -> (r: Vec<SpectecRule>)
    ensures
        lists(r@, scan_source(source@).rules),
{
    let s = chars_of(source);
    let n = s.len();
    let newline = vec!['\n'];
    assert(newline@ =~= seq!['\n']);
    let mut scan = SpectecScan::new();
    let mut start: usize = 0;
    while start < n
        invariant
            n == s@.len(),
            s@ == source@,
            newline@ == seq!['\n'],
            start <= n,
            scan_lines(scan.state(), lines_from(s@, start as nat)) == scan_source(source@),
        decreases n - start,
    {
        let ghost st = scan.state();
        match find_chars_from(&s, &newline, start) {
            Some(k) => {
                proof {
                    lemma_find_from(s@, seq!['\n'], start as nat);
                }
                let raw = slice_range(&s, start, k);
                let line = if raw.len() > 0 && raw[raw.len() - 1] == '\r' {
                    slice_range(&raw, 0, raw.len() - 1)
                } else {
                    raw
                };
                assert(line@ =~= strip_cr(s@.subrange(start as int, k as int)));
                scan.feed_line(&line);
                proof {
                    let ls = lines_from(s@, start as nat);
                    assert(ls =~= seq![line@] + lines_from(s@, (k + 1) as nat));
                    assert(ls.drop_first() =~= lines_from(s@, (k + 1) as nat));
                }
                start = k + 1;
            },
            None => {
                let line = slice_range(&s, start, n);
                scan.feed_line(&line);
                proof {
                    let ls = lines_from(s@, start as nat);
                    assert(ls =~= seq![line@]);
                    assert(ls.drop_first() =~= Seq::<Seq<char>>::empty());
                    assert(lines_from(s@, n as nat) =~= Seq::<Seq<char>>::empty());
                }
                start = n;
            },
        }
    }
    scan.into_rules()
}

/// The rules read list each opcode once.
pub proof fn lemma_one_rule_per_opcode(rs: Seq<SpectecRule>, m: Map<Opcode, (Seq<char>, Seq<char>)>)
    requires
        lists(rs, m),
    ensures
        forall|i: int, j: int| 0 <= i < j < rs.len() ==> rs[i].opcode != rs[j].opcode,
{
    assert forall|i: int, j: int| 0 <= i < j < rs.len() implies rs[i].opcode != rs[j].opcode by {
        assert(opcode_rank(rs[i].opcode) < opcode_rank(rs[j].opcode));
    }
}

/// A rule, once read, is never dropped: later lines can only replace the rule
/// kept for an opcode or add rules for other opcodes.
pub proof fn lemma_scan_keeps_opcodes(st: ScanState, lines: Seq<Seq<char>>)
    ensures
        forall|op: Opcode| #[trigger]
            st.rules.contains_key(op) ==> scan_lines(st, lines).rules.contains_key(op),
    decreases lines.len(),
{
    if lines.len() > 0 {
        let next = step(st, lines[0]);
        lemma_scan_keeps_opcodes(next, lines.drop_first());
        assert forall|op: Opcode| #[trigger] st.rules.contains_key(op) implies next.rules.contains_key(
            op,
        ) by {}
    }
}

/// A rule line replaces whatever rule was kept for its opcode: the opcode
/// then maps to the line's AST in the current section, and all other
/// opcodes keep their rules.
pub proof fn lemma_rule_line_replaces(st: ScanState, line: Seq<char>, op: Opcode, ast: Seq<char>)
    requires
        section_title(line) is None,
        trim(line) != ellipsis(),
        find(line, arrow()) is Some,
        rule_of_line(line, st.pending) == Some((op, ast)),
    ensures
        step(st, line).rules == st.rules.insert(op, (ast, st.section)),
        step(st, line).pending is None,
        step(st, line).section == st.section,
{
}

/// A line with no effect on the reader: blank (whitespace only) or `| ...`.
pub open spec fn is_inert_line(line: Seq<char>) -> bool {
    trim(line).len() == 0 || trim(line) == ellipsis()
}

/// The lines without the blank and `| ...` lines, in order.
pub open spec fn without_inert(lines: Seq<Seq<char>>) -> Seq<Seq<char>>
    decreases lines.len(),
{
    if lines.len() == 0 {
        Seq::empty()
    } else if is_inert_line(lines[0]) {
        without_inert(lines.drop_first())
    } else {
        seq![lines[0]] + without_inert(lines.drop_first())
    }
}

/// A blank or `| ...` line leaves the reader's state as it is.
pub proof fn lemma_inert_line_step(st: ScanState, line: Seq<char>)
    requires
        is_inert_line(line),
    ensures
        step(st, line) == st,
{
    let t = trim(line);
    if t.len() == 0 {
        lemma_trim_keeps_all_but_white_space(line);
        lemma_find_from(line, arrow(), 0);
        if find(line, arrow()) is Some {
            let k = find(line, arrow())->0 as int;
            assert(line.subrange(k, k + 2)[0] == '=');
            assert(line[k] == '=');
            assert(!t.contains(line[k]));
        }
    }
}

/// Blank and `| ...` lines, wherever they stand, do not change what the
/// reader ends with.
pub proof fn lemma_scan_ignores_inert_lines(st: ScanState, lines: Seq<Seq<char>>)
    ensures
        scan_lines(st, lines) == scan_lines(st, without_inert(lines)),
    decreases lines.len(),
{
    if lines.len() > 0 {
        let rest = lines.drop_first();
        if is_inert_line(lines[0]) {
            lemma_inert_line_step(st, lines[0]);
            lemma_scan_ignores_inert_lines(st, rest);
        } else {
            lemma_scan_ignores_inert_lines(step(st, lines[0]), rest);
            let w = seq![lines[0]] + without_inert(rest);
            assert(w.drop_first() =~= without_inert(rest));
        }
    }
}

/// Two listings of the same rule map are the same rules.
pub proof fn lemma_lists_unique(
    r1: Seq<SpectecRule>,
    r2: Seq<SpectecRule>,
    m: Map<Opcode, (Seq<char>, Seq<char>)>,
)
    requires
        lists(r1, m),
        lists(r2, m),
    ensures
        r1.len() == r2.len(),
        forall|i: int|
            0 <= i < r1.len() ==> r1[i].opcode == r2[i].opcode && rule_entry(r1[i])
                == rule_entry(r2[i]),
{
    let n = if r1.len() <= r2.len() { r1.len() as int } else { r2.len() as int };
    lemma_lists_agree(r1, r2, m, n);
    if r1.len() < r2.len() {
        let op = r2[n].opcode;
        assert(m.contains_key(op));
        let j = choose|j: int| 0 <= j < r1.len() && r1[j].opcode == op;
        assert(r2[j].opcode == op);
        assert(opcode_rank(r2[j].opcode) < opcode_rank(r2[n].opcode));
    } else if r2.len() < r1.len() {
        let op = r1[n].opcode;
        assert(m.contains_key(op));
        let j = choose|j: int| 0 <= j < r2.len() && r2[j].opcode == op;
        assert(r1[j].opcode == op);
        assert(opcode_rank(r1[j].opcode) < opcode_rank(r1[n].opcode));
    }
}

/// Two listings of one map agree on their first `n` opcodes.
proof fn lemma_lists_agree(
    r1: Seq<SpectecRule>,
    r2: Seq<SpectecRule>,
    m: Map<Opcode, (Seq<char>, Seq<char>)>,
    n: int,
)
    requires
        lists(r1, m),
        lists(r2, m),
        0 <= n <= r1.len(),
        n <= r2.len(),
    ensures
        forall|i: int| 0 <= i < n ==> r1[i].opcode == r2[i].opcode,
    decreases n,
{
    if n > 0 {
        let i = n - 1;
        lemma_lists_agree(r1, r2, m, i);
        let a = r1[i].opcode;
        let b = r2[i].opcode;
        lemma_opcode_rank_injective(a, b);
        if opcode_rank(a) < opcode_rank(b) {
            assert(m.contains_key(a));
            let j = choose|j: int| 0 <= j < r2.len() && r2[j].opcode == a;
            if j < i {
                assert(r1[j].opcode == r2[j].opcode);
                assert(opcode_rank(r1[j].opcode) < opcode_rank(r1[i].opcode));
            } else if j > i {
                assert(opcode_rank(r2[i].opcode) < opcode_rank(r2[j].opcode));
            }
        } else if opcode_rank(b) < opcode_rank(a) {
            assert(m.contains_key(b));
            let j = choose|j: int| 0 <= j < r1.len() && r1[j].opcode == b;
            if j < i {
                assert(r1[j].opcode == r2[j].opcode);
                assert(opcode_rank(r2[j].opcode) < opcode_rank(r2[i].opcode));
            } else if j > i {
                assert(opcode_rank(r1[i].opcode) < opcode_rank(r1[j].opcode));
            }
        }
    }
}

/// Grammar texts whose lines differ only in blank and `| ...` lines yield
/// the same rules.
pub proof fn lemma_parse_ignores_inert_lines(
    s1: Seq<char>,
    s2: Seq<char>,
    r1: Seq<SpectecRule>,
    r2: Seq<SpectecRule>,
)
    requires
        without_inert(lines_of(s1)) == without_inert(lines_of(s2)),
        lists(r1, scan_source(s1).rules),
        lists(r2, scan_source(s2).rules),
    ensures
        r1.len() == r2.len(),
        forall|i: int|
            0 <= i < r1.len() ==> r1[i].opcode == r2[i].opcode && rule_entry(r1[i])
                == rule_entry(r2[i]),
{
    lemma_scan_ignores_inert_lines(initial_scan(), lines_of(s1));
    lemma_scan_ignores_inert_lines(initial_scan(), lines_of(s2));
    lemma_lists_unique(r1, r2, scan_source(s1).rules);
}

/// Where a character first occurs from `i`, the search for it finds it.
proof fn lemma_find_char_at(s: Seq<char>, c: char, i: nat, j: int)
    requires
        i <= j < s.len(),
        s[j] == c,
        forall|l: int| i <= l < j ==> s[l] != c,
    ensures
        find_from(s, seq![c], i) == Some(j as nat),
{
    lemma_find_from(s, seq![c], i);
    assert(s.subrange(j, j + 1) =~= seq![c]);
    assert(occurs_at(s, seq![c], j));
    match find_from(s, seq![c], i) {
        Some(k) => {
            if k < j {
                assert(s.subrange(k as int, k + 1int)[0] == s[k as int]);
            } else if k > j {
                assert(!occurs_at(s, seq![c], j));
            }
        },
        None => {
            assert(!occurs_at(s, seq![c], j));
        },
    }
}

/// Where a character does not occur from `i` on, the search for it finds nothing.
proof fn lemma_find_char_none(s: Seq<char>, c: char, i: nat)
    requires
        forall|l: int| i <= l < s.len() ==> s[l] != c,
    ensures
        find_from(s, seq![c], i) is None,
{
    lemma_find_from(s, seq![c], i);
    if let Some(k) = find_from(s, seq![c], i) {
        assert(s.subrange(k as int, k + 1int)[0] == s[k as int]);
    }
}

/// The lines of a text that continues past a line ending are the lines up to
/// that ending followed by the lines after it.
proof fn lemma_lines_prefix(t: Seq<char>, w: Seq<char>, k: nat)
    requires
        k <= t.len(),
        k == t.len() || t.last() == '\n',
    ensures
        lines_from(t + w, k) == lines_from(t, k) + lines_from(t + w, t.len()),
    decreases t.len() - k,
{
    let s = t + w;
    if k == t.len() {
        assert(lines_from(t, k) =~= Seq::<Seq<char>>::empty());
        assert(lines_from(t, k) + lines_from(s, t.len()) =~= lines_from(s, t.len()));
    } else {
        lemma_find_from(t, seq!['\n'], k);
        assert(t.subrange(t.len() - 1, t.len() as int) =~= seq!['\n']);
        assert(occurs_at(t, seq!['\n'], t.len() - 1));
        let j = find_from(t, seq!['\n'], k)->0;
        assert forall|l: int| k <= l < j implies s[l] != '\n' by {
            assert(!occurs_at(t, seq!['\n'], l));
            assert(t.subrange(l, l + 1) =~= seq![t[l]]);
        }
        assert(t.subrange(j as int, j + 1int)[0] == t[j as int]);
        lemma_find_char_at(s, '\n', k, j as int);
        lemma_lines_prefix(t, w, j + 1);
        assert(s.subrange(k as int, j as int) =~= t.subrange(k as int, j as int));
        let head = seq![strip_cr(t.subrange(k as int, j as int))];
        assert(lines_from(s, k) == head + lines_from(s, j + 1));
        assert(lines_from(t, k) == head + lines_from(t, j + 1));
        assert(head + (lines_from(t, j + 1) + lines_from(s, t.len())) =~= (head + lines_from(
            t,
            j + 1,
        )) + lines_from(s, t.len()));
    }
}

/// The lines of a text are read as `str::lines` reads them: after a text that
/// is empty or ends with a line break, a further piece without line breaks
/// is one more line when it is not empty (also without a final line break),
/// and a piece ended by a line break is one more line, without the `\r` of
/// a `\r\n` ending.
pub proof fn lemma_lines_append(t: Seq<char>, u: Seq<char>)
    requires
        t.len() == 0 || t.last() == '\n',
        forall|i: int| 0 <= i < u.len() ==> u[i] != '\n',
    ensures
        lines_of(Seq::<char>::empty()) == Seq::<Seq<char>>::empty(),
        lines_of(t + u) == (if u.len() == 0 {
            lines_of(t)
        } else {
            lines_of(t).push(u)
        }),
        lines_of(t + u.push('\n')) == lines_of(t).push(
            if u.len() > 0 && u.last() == '\r' {
                u.drop_last()
            } else {
                u
            },
        ),
{
    let n = t.len();
    let s1 = t + u;
    lemma_lines_prefix(t, u, 0);
    if u.len() == 0 {
        assert(lines_from(s1, n) =~= Seq::<Seq<char>>::empty());
        assert(lines_of(t) + lines_from(s1, n) =~= lines_of(t));
    } else {
        assert forall|l: int| n <= l < s1.len() implies s1[l] != '\n' by {
            assert(s1[l] == u[l - n]);
        }
        lemma_find_char_none(s1, '\n', n);
        assert(s1.subrange(n as int, s1.len() as int) =~= u);
        assert(lines_from(s1, n) =~= seq![u]);
        assert(lines_of(t) + seq![u] =~= lines_of(t).push(u));
    }
    let s2 = t + u.push('\n');
    lemma_lines_prefix(t, u.push('\n'), 0);
    assert forall|l: int| n <= l < n + u.len() implies s2[l] != '\n' by {
        assert(s2[l] == u[l - n]);
    }
    let e = (n + u.len()) as int;
    assert(s2[e] == '\n');
    lemma_find_char_at(s2, '\n', n, e);
    assert(s2.subrange(n as int, e) =~= u);
    assert(lines_from(s2, n + u.len() + 1) =~= Seq::<Seq<char>>::empty());
    assert(lines_from(s2, n) =~= seq![strip_cr(u)]);
    assert(lines_of(t) + seq![strip_cr(u)] =~= lines_of(t).push(strip_cr(u)));
}

/// Reading lines one more line further is one more step.
pub proof fn lemma_scan_lines_push(st: ScanState, lines: Seq<Seq<char>>, line: Seq<char>)
    ensures
        scan_lines(st, lines.push(line)) == step(scan_lines(st, lines), line),
    decreases lines.len(),
{
    if lines.len() == 0 {
        assert(lines.push(line).drop_first() =~= Seq::<Seq<char>>::empty());
        assert(lines.push(line)[0] == line);
        assert(scan_lines(step(st, line), Seq::<Seq<char>>::empty()) == step(st, line));
    } else {
        lemma_scan_lines_push(step(st, lines[0]), lines.drop_first(), line);
        assert(lines.push(line).drop_first() =~= lines.drop_first().push(line));
        assert(lines.push(line)[0] == lines[0]);
    }
}

/// The last line of a grammar text is read whether or not a line break ends
/// it: after a text that is empty or ends with a line break, a piece without
/// line breaks is taken in as one more line.
pub proof fn lemma_final_line_is_read(t: Seq<char>, u: Seq<char>)
    requires
        t.len() == 0 || t.last() == '\n',
        u.len() > 0,
        forall|i: int| 0 <= i < u.len() ==> u[i] != '\n',
    ensures
        scan_source(t + u) == step(scan_source(t), u),
        scan_source(t + u.push('\n')) == step(scan_source(t), strip_cr(u)),
{
    lemma_lines_append(t, u);
    lemma_scan_lines_push(initial_scan(), lines_of(t), u);
    lemma_scan_lines_push(initial_scan(), lines_of(t), strip_cr(u));
}

/// A rule on the last line of a grammar text, ended by a line break or not,
/// is kept for its opcode.
pub proof fn lemma_final_rule_is_kept(t: Seq<char>, u: Seq<char>, op: Opcode, ast: Seq<char>)
    requires
        t.len() == 0 || t.last() == '\n',
        u.len() > 0,
        forall|i: int| 0 <= i < u.len() ==> u[i] != '\n',
        section_title(u) is None,
        trim(u) != ellipsis(),
        find(u, arrow()) is Some,
        rule_of_line(u, scan_source(t).pending) == Some((op, ast)),
    ensures
        scan_source(t + u).rules.contains_key(op),
        scan_source(t + u).rules[op] == (ast, scan_source(t).section),
{
    lemma_final_line_is_read(t, u);
    lemma_rule_line_replaces(scan_source(t), u, op, ast);
}

/// The table order of opcodes: every single-byte opcode comes before every
/// prefixed one; single-byte opcodes go by byte; prefixed ones by prefix, then
/// by index.
pub proof fn lemma_opcode_order(a: Opcode, b: Opcode)
    ensures
        (a matches Opcode::Single(x) && b matches Opcode::Multi(_, _)) ==> opcode_rank(a)
            < opcode_rank(b),
        a matches Opcode::Single(x) ==> (b matches Opcode::Single(y) ==> (opcode_rank(a)
            < opcode_rank(b) <==> x < y)),
        a matches Opcode::Multi(p, i) ==> (b matches Opcode::Multi(q, j) ==> (opcode_rank(a)
            < opcode_rank(b) <==> (p < q || (p == q && i < j)))),
{
}

} // verus!
