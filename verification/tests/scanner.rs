use minilex::lexer::{scan, Lexer};
use minilex::token::{lexeme, Kind, NewlineMode, Token};

fn tok(kind: Kind, start: usize, end: usize) -> Token {
    Token { kind, start, end }
}

#[test]
fn empty_source_yields_no_tokens() {
    assert_eq!(scan(b"", NewlineMode::Insignificant), vec![]);
    assert_eq!(scan(b"", NewlineMode::Significant), vec![]);
}

#[test]
fn single_character_operators() {
    let tokens = scan(b"+-/%=", NewlineMode::Insignificant);
    assert_eq!(
        tokens,
        vec![
            tok(Kind::Plus, 0, 0),
            tok(Kind::Minus, 1, 1),
            tok(Kind::Divide, 2, 2),
            tok(Kind::Modulus, 3, 3),
            tok(Kind::Equals, 4, 4),
        ]
    );
}

#[test]
fn power_longest_match() {
    assert_eq!(
        scan(b"**", NewlineMode::Insignificant),
        vec![tok(Kind::Power, 0, 1)]
    );
}

#[test]
fn star_then_identifier() {
    assert_eq!(
        scan(b"*x", NewlineMode::Insignificant),
        vec![tok(Kind::Multiply, 0, 0), tok(Kind::Identifier, 1, 1)]
    );
}

#[test]
fn lone_star_at_end_of_input() {
    assert_eq!(
        scan(b"*", NewlineMode::Insignificant),
        vec![tok(Kind::Multiply, 0, 0)]
    );
}

#[test]
fn three_stars() {
    assert_eq!(
        scan(b"***", NewlineMode::Insignificant),
        vec![tok(Kind::Power, 0, 1), tok(Kind::Multiply, 2, 2)]
    );
}

#[test]
fn keyword_val() {
    assert_eq!(
        scan(b"val", NewlineMode::Insignificant),
        vec![tok(Kind::ValKeyword, 0, 2)]
    );
}

#[test]
fn keyword_var() {
    assert_eq!(
        scan(b"var", NewlineMode::Insignificant),
        vec![tok(Kind::VarKeyword, 0, 2)]
    );
}

#[test]
fn keyword_prefix_is_identifier() {
    let source = b"value";
    let tokens = scan(source, NewlineMode::Insignificant);
    assert_eq!(tokens, vec![tok(Kind::Identifier, 0, 4)]);
    assert_eq!(lexeme(source, &tokens[0]), b"value");
}

#[test]
fn keywords_are_case_sensitive() {
    let source = b"VAL";
    let tokens = scan(source, NewlineMode::Insignificant);
    assert_eq!(tokens, vec![tok(Kind::Identifier, 0, 2)]);
    assert_eq!(lexeme(source, &tokens[0]), b"VAL");
}

#[test]
fn integer_literal() {
    assert_eq!(
        scan(b"42", NewlineMode::Insignificant),
        vec![tok(Kind::Integer(42), 0, 1)]
    );
}

#[test]
fn float_literal() {
    let tokens = scan(b"4.2", NewlineMode::Insignificant);
    assert_eq!(
        tokens,
        vec![tok(Kind::Float { mantissa: 42, scale: 1 }, 0, 2)]
    );
    match tokens[0].kind {
        Kind::Float { mantissa, scale } => {
            let value = mantissa as f64 / 10f64.powi(scale as i32);
            assert_eq!(value, 4.2);
        }
        _ => panic!("expected a Float token"),
    }
}

#[test]
fn second_dot_ends_the_literal() {
    assert_eq!(
        scan(b"4.2.3", NewlineMode::Insignificant),
        vec![
            tok(Kind::Float { mantissa: 42, scale: 1 }, 0, 2),
            tok(Kind::Invalid, 3, 3),
            tok(Kind::Integer(3), 4, 4),
        ]
    );
}

#[test]
fn trailing_dot_float() {
    assert_eq!(
        scan(b"4.", NewlineMode::Insignificant),
        vec![tok(Kind::Float { mantissa: 4, scale: 0 }, 0, 1)]
    );
}

#[test]
fn adjacent_dots_after_integer() {
    assert_eq!(
        scan(b"1..2", NewlineMode::Insignificant),
        vec![
            tok(Kind::Float { mantissa: 1, scale: 0 }, 0, 1),
            tok(Kind::Invalid, 2, 2),
            tok(Kind::Integer(2), 3, 3),
        ]
    );
}

#[test]
fn newline_collapsing_in_significant_mode() {
    assert_eq!(
        scan(b"a\n\n\nb", NewlineMode::Significant),
        vec![
            tok(Kind::Identifier, 0, 0),
            tok(Kind::Newline, 1, 3),
            tok(Kind::Identifier, 4, 4),
        ]
    );
}

#[test]
fn newline_skipped_in_insignificant_mode() {
    assert_eq!(
        scan(b"a\n\n\nb", NewlineMode::Insignificant),
        vec![tok(Kind::Identifier, 0, 0), tok(Kind::Identifier, 4, 4)]
    );
}

#[test]
fn newline_run_does_not_absorb_spaces() {
    assert_eq!(
        scan(b"\n \n", NewlineMode::Significant),
        vec![tok(Kind::Newline, 0, 0), tok(Kind::Newline, 2, 2)]
    );
}

#[test]
fn whitespace_collapsing_spaces() {
    assert_eq!(
        scan(b"a   b", NewlineMode::Insignificant),
        vec![tok(Kind::Identifier, 0, 0), tok(Kind::Identifier, 4, 4)]
    );
}

#[test]
fn whitespace_collapsing_tab() {
    assert_eq!(
        scan(b"a\tb", NewlineMode::Insignificant),
        vec![tok(Kind::Identifier, 0, 0), tok(Kind::Identifier, 2, 2)]
    );
}

#[test]
fn end_of_input_mid_identifier() {
    let source = b"abc";
    let tokens = scan(source, NewlineMode::Insignificant);
    assert_eq!(tokens, vec![tok(Kind::Identifier, 0, 2)]);
    assert_eq!(lexeme(source, &tokens[0]), b"abc");
}

#[test]
fn end_of_input_mid_integer() {
    assert_eq!(
        scan(b"12", NewlineMode::Insignificant),
        vec![tok(Kind::Integer(12), 0, 1)]
    );
}

#[test]
fn underscore_opens_but_does_not_continue() {
    let source = b"a_b";
    let tokens = scan(source, NewlineMode::Insignificant);
    assert_eq!(
        tokens,
        vec![tok(Kind::Identifier, 0, 0), tok(Kind::Identifier, 1, 2)]
    );
    assert_eq!(lexeme(source, &tokens[0]), b"a");
    assert_eq!(lexeme(source, &tokens[1]), b"_b");
}

#[test]
fn digit_continues_an_identifier() {
    assert_eq!(
        scan(b"a1", NewlineMode::Insignificant),
        vec![tok(Kind::Identifier, 0, 1)]
    );
}

#[test]
fn digit_cannot_open_an_identifier() {
    assert_eq!(
        scan(b"1a", NewlineMode::Insignificant),
        vec![tok(Kind::Integer(1), 0, 0), tok(Kind::Identifier, 1, 1)]
    );
}

#[test]
fn largest_integer_fits() {
    assert_eq!(
        scan(b"2147483647", NewlineMode::Insignificant),
        vec![tok(Kind::Integer(2147483647), 0, 9)]
    );
}

#[test]
fn integer_overflow_becomes_number_error() {
    assert_eq!(
        scan(b"2147483648", NewlineMode::Insignificant),
        vec![tok(Kind::NumberError, 0, 9)]
    );
}

#[test]
fn huge_integer_becomes_number_error() {
    assert_eq!(
        scan(b"18446744073709551615", NewlineMode::Insignificant),
        vec![tok(Kind::NumberError, 0, 19)]
    );
}

#[test]
fn float_mantissa_overflow_becomes_number_error() {
    assert_eq!(
        scan(b"99999999999999999999.9", NewlineMode::Insignificant),
        vec![tok(Kind::NumberError, 0, 21)]
    );
}

#[test]
fn invalid_character() {
    assert_eq!(
        scan(b"#", NewlineMode::Insignificant),
        vec![tok(Kind::Invalid, 0, 0)]
    );
}

#[test]
fn scan_continues_after_invalid_character() {
    assert_eq!(
        scan(b"a # b", NewlineMode::Insignificant),
        vec![
            tok(Kind::Identifier, 0, 0),
            tok(Kind::Invalid, 2, 2),
            tok(Kind::Identifier, 4, 4),
        ]
    );
}

#[test]
fn mixed_declaration() {
    assert_eq!(
        scan(b"val x = 3 + 4.5 ** 2", NewlineMode::Insignificant),
        vec![
            tok(Kind::ValKeyword, 0, 2),
            tok(Kind::Identifier, 4, 4),
            tok(Kind::Equals, 6, 6),
            tok(Kind::Integer(3), 8, 8),
            tok(Kind::Plus, 10, 10),
            tok(Kind::Float { mantissa: 45, scale: 1 }, 12, 14),
            tok(Kind::Power, 16, 17),
            tok(Kind::Integer(2), 19, 19),
        ]
    );
}

#[test]
fn lexer_struct_matches_free_function() {
    let source = b"var total = a1 % 7";
    let mut lexer = Lexer::new(source, NewlineMode::Insignificant);
    assert_eq!(lexer.tokens, vec![]);
    lexer.scan_tokens();
    assert_eq!(lexer.tokens, scan(source, NewlineMode::Insignificant));
    assert_eq!(lexer.source, source);
}
