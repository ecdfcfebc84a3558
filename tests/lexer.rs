use qitc::{LexError, Op, Program, Token};

fn lex(src: &str, env: &Vec<(String, String)>) -> Result<Vec<Token>, LexError> {
    let words: Vec<&str> = src.split_whitespace().collect();
    let mut p = Program::new();
    p.lexer(words, env)?;
    Ok(p.list)
}

fn s(x: &str) -> String {
    String::from(x)
}

#[test]
fn new_program_is_empty() {
    let p = Program::new();
    assert_eq!(p.index, 0);
    assert!(p.list.is_empty());
    assert!(p.magic);
}

#[test]
fn keywords_and_symbols() {
    assert_eq!(
        lex("block endblock rept endrept : ; + - * / !align int32 name", &vec![]),
        Ok(vec![
            Token::BlockStart,
            Token::BlockEnd,
            Token::ReptStart,
            Token::ReptEnd,
            Token::Assign,
            Token::EndLn,
            Token::Operation(Op::Add),
            Token::Operation(Op::Sub),
            Token::Operation(Op::Mul),
            Token::Operation(Op::Div),
            Token::Command(s("align")),
            Token::Integer(32),
            Token::Label(s("name")),
        ])
    );
}

#[test]
fn literals_decimal_and_hex() {
    assert_eq!(
        lex("42 0x2A 0xfF 007", &vec![]),
        Ok(vec![Token::Value(42), Token::Value(42), Token::Value(255), Token::Value(7)])
    );
}

#[test]
fn uppercase_hex_marker_is_not_hex() {
    assert_eq!(lex("0XAB", &vec![]), Err(LexError::InvalidLiteral));
}

#[test]
fn malformed_literals_fail() {
    assert_eq!(lex("0xzz", &vec![]), Err(LexError::InvalidLiteral));
    assert_eq!(lex("0x", &vec![]), Err(LexError::InvalidLiteral));
    assert_eq!(lex("12ab", &vec![]), Err(LexError::InvalidLiteral));
    assert_eq!(lex("99999999999999999999999", &vec![]), Err(LexError::InvalidLiteral));
}

#[test]
fn brackets_and_terminator_are_split_off() {
    assert_eq!(
        lex("[10 - 3];", &vec![]),
        Ok(vec![
            Token::BracketOpen,
            Token::Value(10),
            Token::Operation(Op::Sub),
            Token::Value(3),
            Token::BracketClose,
            Token::EndLn,
        ])
    );
}

#[test]
fn bare_brackets_and_terminator() {
    assert_eq!(
        lex("[ ] ;", &vec![]),
        Ok(vec![Token::BracketOpen, Token::BracketClose, Token::EndLn])
    );
}

#[test]
fn comments_are_dropped() {
    assert_eq!(
        lex("a ## b c ## d", &vec![]),
        Ok(vec![Token::Label(s("a")), Token::Label(s("d"))])
    );
}

#[test]
fn unclosed_comment_drops_the_rest() {
    assert_eq!(lex("a ## 0xzz", &vec![]), Ok(vec![Token::Label(s("a"))]));
}

#[test]
fn path_substitution() {
    assert_eq!(
        lex("v$blk.fld];", &vec![]),
        Ok(vec![Token::PathSubst(s("blk"), s("fld")), Token::BracketClose, Token::EndLn])
    );
    assert_eq!(lex("v$a.b.c", &vec![]), Ok(vec![Token::PathSubst(s("a"), s("b.c"))]));
}

#[test]
fn path_without_separator_fails() {
    assert_eq!(lex("v$nodot", &vec![]), Err(LexError::MissingPathSeparator));
}

#[test]
fn environment_substitution() {
    let env = vec![(s("COUNT"), s("0x10")), (s("NAME"), s("field")), (s("COUNT"), s("7"))];
    assert_eq!(
        lex("e$COUNT; e$NAME e$UNSET", &env),
        Ok(vec![Token::Value(16), Token::EndLn, Token::Label(s("field")), Token::Label(s("e$UNSET"))])
    );
}

#[test]
fn empty_environment_value_is_an_empty_label() {
    let env = vec![(s("X"), s(""))];
    assert_eq!(lex("e$X", &env), Ok(vec![Token::Label(s(""))]));
    assert_eq!(lex("e$X;", &env), Ok(vec![Token::Label(s("")), Token::EndLn]));
}

#[test]
fn non_ascii_numeral_is_a_malformed_literal() {
    assert_eq!(lex("\u{0663}", &vec![]), Err(LexError::InvalidLiteral));
    assert_eq!(lex("\u{00BD}x", &vec![]), Err(LexError::InvalidLiteral));
}

#[test]
fn environment_value_is_classified() {
    let env = vec![(s("W"), s("int16"))];
    assert_eq!(lex("e$W", &env), Ok(vec![Token::Integer(16)]));
}

#[test]
fn lexer_appends_to_existing_tokens() {
    let mut p = Program::new();
    p.lexer(vec!["block"], &vec![]).unwrap();
    p.lexer(vec!["b"], &vec![]).unwrap();
    assert_eq!(p.list, vec![Token::BlockStart, Token::Label(s("b"))]);
}
