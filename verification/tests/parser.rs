use expr_frontend::keywords::keywords;
use expr_frontend::{
    expression, identifier, number_expr, variable_expr, Expression, NoMatch, Position, Rule, Span,
};
use std::str::FromStr;

/// An expression with the value of its literal worked out.
#[derive(Clone, Debug, PartialEq)]
enum Valued {
    Number { pos: Position, value: f64 },
    Variable { pos: Position, name: String },
}

fn valued(expression: Expression) -> Valued {
    match expression {
        Expression::Number { pos, literal } => Valued::Number {
            pos,
            value: f64::from_str(&literal).unwrap(),
        },
        Expression::Variable { pos, name } => Valued::Variable { pos, name },
    }
}

fn failed(rule: Rule) -> NoMatch {
    NoMatch { rule }
}

#[test]
fn identifiers() {
    let id1 = Span::new(b"foo");
    let id2 = Span::new(b"def");

    assert!(identifier(id1).is_ok());
    assert!(identifier(id2).is_err());
}

#[test]
fn parse_number() {
    let integer = Span::new(b"123");
    let float = Span::new(b"123.123");

    let p_integer = valued(number_expr(integer).unwrap().1);
    let p_float = valued(number_expr(float).unwrap().1);

    let expect_integer = Valued::Number {
        pos: Position::new(1, 1),
        value: 123 as f64,
    };
    let expect_float = Valued::Number {
        pos: Position::new(1, 1),
        value: 123.123 as f64,
    };

    assert_eq!(expect_integer, p_integer);
    assert_eq!(expect_float, p_float);
}

#[test]
fn parse_variable() {
    let var = Span::new(b"a");

    let p_var = variable_expr(var).unwrap().1;

    let expect_var = Expression::Variable {
        pos: Position::new(1, 1),
        name: "a".to_string(),
    };

    assert_eq!(expect_var, p_var);
}

#[test]
fn parse_expression() {
    let var = Span::new(b"a");
    let integer = Span::new(b"123");
    let float = Span::new(b"123.123");

    let p_var = valued(expression(var).unwrap().1);
    let p_integer = valued(expression(integer).unwrap().1);
    let p_float = valued(expression(float).unwrap().1);

    let expect_integer = Valued::Number {
        pos: Position::new(1, 1),
        value: 123 as f64,
    };
    let expect_float = Valued::Number {
        pos: Position::new(1, 1),
        value: 123.123 as f64,
    };
    let expect_var = Valued::Variable {
        pos: Position::new(1, 1),
        name: "a".to_string(),
    };

    assert_eq!(expect_integer, p_integer);
    assert_eq!(expect_float, p_float);
    assert_eq!(expect_var, p_var);
}

#[test]
fn number_keeps_its_literal() {
    let (rest, number) = number_expr(Span::new(b"123.123;")).unwrap();
    assert_eq!(
        number,
        Expression::Number {
            pos: Position::new(1, 1),
            literal: "123.123".to_string(),
        }
    );
    assert_eq!(rest.fragment(), b";");
    assert_eq!(rest.location_offset(), 7);
    assert_eq!(rest.get_column(), 8);
}

#[test]
fn identifier_takes_the_whole_name() {
    for name in [&b"foo"[..], b"x", b"foo123", b"Bar", b"define", b"externs", b"de", b"9lives"] {
        let (rest, word) = identifier(Span::new(name)).unwrap();
        assert_eq!(word.fragment(), name);
        assert_eq!(rest.fragment(), b"");
        assert_eq!(rest.location_offset(), name.len());
    }
}

#[test]
fn identifier_stops_at_the_first_other_byte() {
    let (rest, word) = identifier(Span::new(b"foo+bar")).unwrap();
    assert_eq!(word.fragment(), b"foo");
    assert_eq!(word.location_offset(), 0);
    assert_eq!(rest.fragment(), b"+bar");
    assert_eq!(rest.location_offset(), 3);
}

#[test]
fn identifier_refuses_reserved_words_in_any_case() {
    for word in [
        &b"def"[..],
        b"DEF",
        b"Def",
        b"dEf",
        b"extern",
        b"EXTERN",
        b"Extern",
        b"eXtErN",
    ] {
        assert_eq!(
            identifier(Span::new(word)).unwrap_err(),
            failed(Rule::Identifier)
        );
    }
}

#[test]
fn identifier_refuses_a_reserved_word_whatever_follows() {
    for text in [&b"def "[..], b"def(", b"def+", b"extern;", b"EXTERN-1"] {
        assert!(identifier(Span::new(text)).is_err());
    }
}

#[test]
fn identifier_needs_a_letter_or_a_digit() {
    for text in [&b""[..], b" foo", b"+", b"_a", b"\n", b"(", b"\xc3\xa9"] {
        assert_eq!(
            identifier(Span::new(text)).unwrap_err(),
            failed(Rule::Identifier)
        );
    }
}

#[test]
fn identifier_class_is_ascii_letters_and_digits() {
    for b in 0u8..=255 {
        let text = [b];
        let expected = b.is_ascii_alphanumeric();
        assert_eq!(identifier(Span::new(&text)).is_ok(), expected, "byte {}", b);
    }
}

#[test]
fn keywords_match_before_a_boundary() {
    for (text, len) in [
        (&b"def"[..], 3usize),
        (b"def foo", 3),
        (b"DEF(", 3),
        (b"extern", 6),
        (b"Extern\tsin", 6),
        (b"eXTERN;", 6),
        (b"def\n", 3),
        (b"def\r\n", 3),
        (b"def,", 3),
        (b"def=", 3),
        (b"def)", 3),
    ] {
        let (rest, word) = keywords(Span::new(text)).unwrap();
        assert_eq!(word.fragment(), &text[..len]);
        assert_eq!(rest.fragment(), &text[len..]);
        assert_eq!(rest.location_offset(), len);
    }
}

#[test]
fn keywords_need_a_boundary() {
    for text in [
        &b"define"[..],
        b"def1",
        b"def+",
        b"def.",
        b"externs",
        b"extern_",
        b"ext",
        b"de",
        b"",
        b" def",
        b"foo",
    ] {
        assert_eq!(
            keywords(Span::new(text)).unwrap_err(),
            failed(Rule::Keyword)
        );
    }
}

#[test]
fn number_takes_digits_and_a_fraction() {
    for (text, literal) in [
        (&b"0"[..], "0"),
        (b"7 ", "7"),
        (b"123", "123"),
        (b"123.123", "123.123"),
        (b"1.5)", "1.5"),
        (b"007.250,", "007.250"),
        (b"42\n", "42"),
        (b"3.14=", "3.14"),
    ] {
        let (rest, number) = number_expr(Span::new(text)).unwrap();
        assert_eq!(
            number,
            Expression::Number {
                pos: Position::new(1, 1),
                literal: literal.to_string(),
            }
        );
        assert_eq!(rest.fragment(), &text[literal.len()..]);
    }
}

#[test]
fn number_leaves_a_bare_dot_out() {
    for text in [&b"1."[..], b"1. ", b"1.x", b"1.5.", b"1.5.2", b"1..2"] {
        assert_eq!(
            number_expr(Span::new(text)).unwrap_err(),
            failed(Rule::Number)
        );
    }
}

#[test]
fn number_needs_a_digit_first() {
    for text in [&b""[..], b".5", b"a1", b" 1", b"-1", b"+1"] {
        assert_eq!(
            number_expr(Span::new(text)).unwrap_err(),
            failed(Rule::Number)
        );
    }
}

#[test]
fn number_needs_a_boundary() {
    for text in [&b"1abc"[..], b"12x", b"1.5e3", b"1+2", b"1-", b"1.5x", b"1_000"] {
        assert_eq!(
            number_expr(Span::new(text)).unwrap_err(),
            failed(Rule::Number)
        );
    }
}

#[test]
fn variable_needs_a_boundary() {
    for text in [&b"a+b"[..], b"foo.bar", b"x-", b"a_b", b"n!"] {
        assert_eq!(
            variable_expr(Span::new(text)).unwrap_err(),
            failed(Rule::Variable)
        );
    }
}

#[test]
fn variable_refuses_reserved_words() {
    for text in [&b"def"[..], b"DEF ", b"extern(", b""] {
        assert_eq!(
            variable_expr(Span::new(text)).unwrap_err(),
            failed(Rule::Variable)
        );
    }
}

#[test]
fn tokens_end_at_every_boundary() {
    let followers: [&[u8]; 9] = [b" ", b"\t", b"\n", b";", b"(", b")", b",", b"=", b""];
    for follower in followers {
        let text = [&b"def"[..], follower].concat();
        let (rest, word) = keywords(Span::new(&text)).unwrap();
        assert_eq!(word.fragment(), b"def");
        assert_eq!(rest.fragment(), follower);

        let text = [&b"12.5"[..], follower].concat();
        let (rest, number) = expression(Span::new(&text)).unwrap();
        assert_eq!(
            number,
            Expression::Number {
                pos: Position::new(1, 1),
                literal: "12.5".to_string(),
            }
        );
        assert_eq!(rest.fragment(), follower);

        let text = [&b"total"[..], follower].concat();
        let (rest, variable) = expression(Span::new(&text)).unwrap();
        assert_eq!(
            variable,
            Expression::Variable {
                pos: Position::new(1, 1),
                name: "total".to_string(),
            }
        );
        assert_eq!(rest.fragment(), follower);
    }
}

#[test]
fn tokens_do_not_end_anywhere_else() {
    for follower in [b'+', b'-', b'*', b'/', b'.', b'_', b'!', b'"', b'<', 0u8, 0x0B, 0x0C, 0x80] {
        let text = [&b"def"[..], &[follower]].concat();
        assert!(keywords(Span::new(&text)).is_err());

        let text = [&b"12"[..], &[follower]].concat();
        assert!(expression(Span::new(&text)).is_err());

        let text = [&b"total"[..], &[follower]].concat();
        assert!(expression(Span::new(&text)).is_err());
    }
    assert!(keywords(Span::new(b"defx")).is_err());
    assert!(number_expr(Span::new(b"12x")).is_err());
}

#[test]
fn carriage_return_is_white_space() {
    let (rest, word) = keywords(Span::new(b"def\r\n")).unwrap();
    assert_eq!(word.fragment(), b"def");
    assert_eq!(rest.fragment(), b"\r\n");
    assert!(expression(Span::new(b"a\r")).is_ok());
    assert!(expression(Span::new(b"1\r")).is_ok());
}

#[test]
fn expression_refuses_a_reserved_word() {
    assert_eq!(
        expression(Span::new(b"def")).unwrap_err(),
        failed(Rule::Variable)
    );
}

#[test]
fn expression_does_not_fall_back_behind_digits() {
    assert_eq!(
        expression(Span::new(b"1abc")).unwrap_err(),
        failed(Rule::Number)
    );
    assert_eq!(
        expression(Span::new(b"1.")).unwrap_err(),
        failed(Rule::Number)
    );
}

#[test]
fn expression_tries_the_number_first() {
    let (_, found) = expression(Span::new(b"42 x")).unwrap();
    assert_eq!(
        valued(found),
        Valued::Number {
            pos: Position::new(1, 1),
            value: 42.0,
        }
    );
    let (_, found) = expression(Span::new(b"x42 1")).unwrap();
    assert_eq!(
        valued(found),
        Valued::Variable {
            pos: Position::new(1, 1),
            name: "x42".to_string(),
        }
    );
    assert_eq!(
        expression(Span::new(b"+")).unwrap_err(),
        failed(Rule::Variable)
    );
    assert_eq!(
        expression(Span::new(b"")).unwrap_err(),
        failed(Rule::Variable)
    );
}

#[test]
fn recognition_can_be_repeated() {
    for text in [&b"foo bar"[..], b"def", b"1abc", b"12.5)", b"", b"+"] {
        let cursor = Span::new(text);
        assert_eq!(expression(cursor), expression(cursor));
        assert_eq!(identifier(cursor), identifier(cursor));
        assert_eq!(keywords(cursor), keywords(cursor));
        assert_eq!(number_expr(cursor), number_expr(cursor));
        assert_eq!(variable_expr(cursor), variable_expr(cursor));
    }
    let cursor = Span::new(b"foo bar");
    let (rest, _) = identifier(cursor).unwrap();
    assert_eq!(identifier(rest), identifier(rest));
    assert!(identifier(rest).is_err());
    assert_eq!(identifier(cursor).unwrap().0, rest);
}

#[test]
fn expression_carries_the_place_of_its_first_byte() {
    let source = b"x = 1\n  yy = 22.5\n";
    let start = Span::new(source);
    let (rest, _) = start.take_split(8).unwrap();
    let (rest, variable) = expression(rest).unwrap();
    assert_eq!(
        variable,
        Expression::Variable {
            pos: Position::new(2, 3),
            name: "yy".to_string(),
        }
    );
    let (rest, _) = rest.take_split(3).unwrap();
    let (rest, number) = expression(rest).unwrap();
    assert_eq!(
        number,
        Expression::Number {
            pos: Position::new(2, 8),
            literal: "22.5".to_string(),
        }
    );
    assert_eq!(rest.fragment(), b"\n");
    assert_eq!(Position::from_span(rest), Position::new(2, 12));
}
