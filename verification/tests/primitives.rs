use expr_frontend::bytes::{run_length, starts_with_no_case, ByteClass};
use nom::bytes::complete::{tag_no_case, take_while1};
use nom::character::complete::{digit1, multispace0};
use nom::character::is_alphanumeric;
use nom::error::Error;

const TEXTS: [&[u8]; 16] = [
    b"",
    b"0",
    b"123",
    b"123.123",
    b"12ab",
    b"ab12",
    b"foo bar",
    b" \t\r\n x",
    b"\n\n",
    b"\x0b\x0c",
    b"def",
    b"DEF(",
    b"Extern foo",
    b"@[`{/:",
    b"az AZ 09",
    b"\xc3\xa9t\xc3\xa9",
];

fn taken(found: nom::IResult<&[u8], &[u8], Error<&[u8]>>) -> usize {
    match found {
        Ok((_, head)) => head.len(),
        Err(_) => 0,
    }
}

#[test]
fn digit_runs_are_those_of_digit1() {
    for text in TEXTS {
        assert_eq!(
            run_length(text, 0, ByteClass::Digit),
            taken(digit1(text)),
            "{:?}",
            text
        );
    }
}

#[test]
fn letter_and_digit_runs_are_those_of_take_while1() {
    for text in TEXTS {
        assert_eq!(
            run_length(text, 0, ByteClass::Alphanumeric),
            taken(take_while1(is_alphanumeric)(text)),
            "{:?}",
            text
        );
    }
}

#[test]
fn white_space_runs_are_those_of_multispace0() {
    for text in TEXTS {
        assert_eq!(
            run_length(text, 0, ByteClass::Whitespace),
            taken(multispace0(text)),
            "{:?}",
            text
        );
    }
    for b in 0u8..=255 {
        let text = [b];
        assert_eq!(
            run_length(&text, 0, ByteClass::Whitespace),
            taken(multispace0(&text[..])),
            "byte {}",
            b
        );
    }
}

#[test]
fn words_are_compared_as_by_tag_no_case() {
    let words: [&[u8]; 4] = [b"def", b"extern", b"DEF", b""];
    for text in TEXTS {
        for word in words {
            let found: nom::IResult<&[u8], &[u8], Error<&[u8]>> = tag_no_case(word)(text);
            assert_eq!(
                starts_with_no_case(text, word),
                found.is_ok(),
                "{:?} {:?}",
                text,
                word
            );
        }
    }
    for a in 0u8..=255 {
        for b in [b'a', b'A', b'z', b'Z', b'@', b'`', b'[', b'{', b'0'] {
            let text = [a];
            let word = [b];
            let found: nom::IResult<&[u8], &[u8], Error<&[u8]>> = tag_no_case(&word[..])(&text[..]);
            assert_eq!(
                starts_with_no_case(&text, &word),
                found.is_ok(),
                "{} {}",
                a,
                b
            );
        }
    }
}
