//! The grammar readers agree with the same grammar written with `nom`
//! combinators on a set of inputs.

use nom::{
    bytes::complete::{tag, tag_no_case},
    character::complete::{hex_digit1, multispace0, space0},
    combinator::{opt, rest},
    sequence::preceded,
    IResult, Parser,
};
use wasm_opcode_table::{bu32_index, hex_byte, opcode_key, rule_arrow, Opcode, SpectecError};

fn nom_hex_byte(input: &str) -> IResult<&str, u8> {
    let (input, digits) = preceded(tag_no_case("0x"), hex_digit1).parse(input)?;
    let value = u8::from_str_radix(digits, 16).map_err(|_| {
        nom::Err::Failure(nom::error::make_error(input, nom::error::ErrorKind::HexDigit))
    })?;
    Ok((input, value))
}

fn nom_bu32_index(input: &str) -> IResult<&str, u32> {
    let (input, digits) = nom::character::complete::digit1.parse(input)?;
    let (input, _) = tag(":Bu32").parse(input)?;
    let value = digits.parse().map_err(|_| {
        nom::Err::Failure(nom::error::make_error(input, nom::error::ErrorKind::Digit))
    })?;
    Ok((input, value))
}

fn nom_opcode_key(input: &str) -> IResult<&str, Opcode> {
    let (input, byte) = preceded(multispace0, nom_hex_byte).parse(input)?;
    let (input, index) = opt(preceded(space0, nom_bu32_index)).parse(input)?;
    Ok((
        input,
        match index {
            Some(i) => Opcode::Multi(byte, i),
            None => Opcode::Single(byte),
        },
    ))
}

fn nom_rule_arrow(input: &str) -> IResult<&str, (&str, &str)> {
    let (input, left) = nom::bytes::complete::take_until("=>").parse(input)?;
    let (input, _) = tag("=>").parse(input)?;
    let (input, ast) = rest.parse(input)?;
    Ok((input, (left.trim(), ast.trim())))
}

fn kind<T>(r: &IResult<&str, T>) -> Option<SpectecError> {
    match r {
        Ok(_) => None,
        Err(nom::Err::Error(_)) => Some(SpectecError::NoMatch),
        Err(_) => Some(SpectecError::OutOfRange),
    }
}

const INPUTS: &[&str] = &[
    "", "0", "0x", "0X", "0x0", "0x08 x", "0xFB ", "0xfb", "0xFF", "0x100", "0x0000000ff",
    "0x1g", "x08", " 0x08", "\n\t 0x08", "0x08 24:Bu32", "0x08\t24:Bu32 rest", "0x08  24:Bu3",
    "0x08 24", "0x08 :Bu32", "0xFC 4294967295:Bu32", "0xFC 4294967296:Bu32",
    "0xFC 0004294967295:Bu32", "24:Bu32 ", "256:Bu32", "1:Bu32:Bu32", "0xé", "é0x01",
    "0x08 x:Btagidx => THROW x", "a => b => c", "=>", "  =>  ", "no arrow", "0x01 => ",
    "0xFB 24:Bu32 (null_1?)", "0x0a\u{3000}1:Bu32", "0x01 \u{a0}1:Bu32",
];

#[test]
fn hex_byte_agrees_with_nom() {
    for input in INPUTS {
        let ours = hex_byte(input);
        let theirs = nom_hex_byte(input);
        match (&ours, &theirs) {
            (Ok((rest, v)), Ok((nrest, nv))) => assert_eq!((rest.as_str(), *v), (*nrest, *nv), "{input:?}"),
            _ => assert_eq!(ours.err(), kind(&theirs), "{input:?}"),
        }
    }
}

#[test]
fn bu32_index_agrees_with_nom() {
    for input in INPUTS {
        let ours = bu32_index(input);
        let theirs = nom_bu32_index(input);
        match (&ours, &theirs) {
            (Ok((rest, v)), Ok((nrest, nv))) => assert_eq!((rest.as_str(), *v), (*nrest, *nv), "{input:?}"),
            _ => assert_eq!(ours.err(), kind(&theirs), "{input:?}"),
        }
    }
}

#[test]
fn opcode_key_agrees_with_nom() {
    for input in INPUTS {
        let ours = opcode_key(input);
        let theirs = nom_opcode_key(input);
        match (&ours, &theirs) {
            (Ok((rest, v)), Ok((nrest, nv))) => assert_eq!((rest.as_str(), *v), (*nrest, *nv), "{input:?}"),
            _ => assert_eq!(ours.err(), kind(&theirs), "{input:?}"),
        }
    }
}

#[test]
fn rule_arrow_agrees_with_nom() {
    for input in INPUTS {
        let ours = rule_arrow(input);
        let theirs = nom_rule_arrow(input);
        match (&ours, &theirs) {
            (Ok((rest, (l, a))), Ok((nrest, (nl, na)))) => {
                assert_eq!((rest.as_str(), l.as_str(), a.as_str()), (*nrest, *nl, *na), "{input:?}")
            }
            _ => assert_eq!(ours.err(), kind(&theirs), "{input:?}"),
        }
    }
}
