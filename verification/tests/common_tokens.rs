use potter_poc::dsl::{tokenize, Lexeme, Tok};

/// Lexemes of `src` rendered as short strings.
fn lex(src: &str) -> Result<Vec<String>, String> {
    Ok(tokenize(src)?
        .into_iter()
        .map(|l| match l {
            Lexeme::Number(t) => format!("N:{}", String::from_utf8(t).unwrap()),
            Lexeme::Token(Tok::Ident(t)) => format!("I:{}", t),
            Lexeme::Token(t) => format!("{:?}", t),
        })
        .collect())
}

#[test]
fn tokenize_operators_and_power() {
    assert_eq!(
        lex("2**3*4/(x-1)+y,z").unwrap(),
        vec!["N:2", "Pow", "N:3", "Star", "N:4", "Slash", "LParen", "I:x", "Minus", "N:1", "RParen", "Plus", "I:y", "Comma", "I:z"]
    );
}

#[test]
fn tokenize_number_forms() {
    assert_eq!(lex("1.5e-6").unwrap(), vec!["N:1.5e-6"]);
    assert_eq!(lex(".5 5. 1E+3 7e2").unwrap(), vec!["N:.5", "N:5.", "N:1E+3", "N:7e2"]);
}

#[test]
fn tokenize_skips_whitespace() {
    assert_eq!(lex(" \t\n a_1\r\x0b\x0c+ b ").unwrap(), vec!["I:a_1", "Plus", "I:b"]);
    assert_eq!(lex("").unwrap(), Vec::<String>::new());
}

#[test]
fn tokenize_identifier_then_number() {
    // an identifier swallows digits; a literal starts a new token after it
    assert_eq!(lex("x2 2x").unwrap(), vec!["I:x2", "N:2", "I:x"]);
}

#[test]
fn tokenize_bad_numbers() {
    assert_eq!(lex("1.2.3").unwrap_err(), "bad number '1.2.3'");
    assert_eq!(lex("3 + 1e").unwrap_err(), "bad number '1e'");
    assert_eq!(lex(".").unwrap_err(), "bad number '.'");
    assert_eq!(lex("1e5e3").unwrap_err(), "bad number '1e5e3'");
    assert_eq!(lex("2e+").unwrap_err(), "bad number '2e+'");
}

#[test]
fn tokenize_unexpected_chars() {
    assert_eq!(lex("x $ y").unwrap_err(), "unexpected char '$'");
    assert_eq!(lex("1 ^ 2").unwrap_err(), "unexpected char '^'");
    // a non-ASCII character is reported by its first UTF-8 byte read as Latin-1
    assert_eq!(lex("é").unwrap_err(), "unexpected char 'Ã'");
}

#[test]
fn tokenize_first_error_wins() {
    assert_eq!(lex("1.2.3 $").unwrap_err(), "bad number '1.2.3'");
    assert_eq!(lex("$ 1.2.3").unwrap_err(), "unexpected char '$'");
}
