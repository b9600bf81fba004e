use eyeron::ast::{Literal, Term, Triple};
use eyeron::error::EyeronError;
use eyeron::parser::{parse_n3, parse_rdf_message_log};
use eyeron::token::TokenKind;

fn error_of(text: &str) -> EyeronError {
    match parse_n3(text, None) {
        Ok(_) => panic!("{} was read", text),
        Err(e) => e,
    }
}

fn located(text: &str, message: &str, offset: usize) {
    let e = error_of(text);
    assert_eq!(e.message, message, "{}", text);
    assert_eq!(e.offset, Some(offset), "{}", text);
}

fn plain(text: &str, message: &str) {
    let e = error_of(text);
    assert_eq!(e.message, message, "{}", text);
    assert_eq!(e.offset, None, "{}", text);
}

fn unexpected(text: &str, expected: TokenKind, got: TokenKind, offset: usize) {
    located(text, &format!("expected {:?}, got {:?}", expected, got), offset);
}

fn not_a_term(text: &str, got: TokenKind, offset: usize) {
    located(text, &format!("expected term, got {:?}", got), offset);
}

#[test]
fn constructors() {
    let e = EyeronError::new("m".to_string());
    assert_eq!(e, EyeronError { message: "m".to_string(), offset: None });
    let e = EyeronError::at("m".to_string(), 7);
    assert_eq!(e, EyeronError { message: "m".to_string(), offset: Some(7) });
}

#[test]
fn prefix_declarations() {
    located("@prefix <urn:x> .", "expected prefix name", 8);
    located("@prefix", "expected prefix name", 0);
    located("@prefix p: q:x .", "expected prefix IRI", 11);
    located("@prefix p:", "expected prefix IRI", 8);
    unexpected(
        "@prefix p: <urn:x> <urn:y>",
        TokenKind::Dot,
        TokenKind::Iri("urn:y".to_string()),
        19,
    );
    unexpected("PREFIX p: <urn:x>", TokenKind::Dot, TokenKind::Eof, 17);
}

#[test]
fn base_declarations() {
    located("@base p: .", "expected base IRI", 6);
    located("  @base", "expected base IRI", 2);
    unexpected("BASE <urn:x>", TokenKind::Dot, TokenKind::Eof, 12);
}

#[test]
fn statements_need_a_dot() {
    unexpected("<urn:a> <urn:b> <urn:c>", TokenKind::Dot, TokenKind::Eof, 23);
    unexpected(
        "<urn:a> <urn:b> <urn:c> <urn:d> .",
        TokenKind::Dot,
        TokenKind::Iri("urn:d".to_string()),
        24,
    );
    unexpected("true => {}", TokenKind::Dot, TokenKind::Eof, 10);
    unexpected("{} => {} }", TokenKind::Dot, TokenKind::RBrace, 9);
    unexpected("<urn:a> <urn:b> <urn:c> ]", TokenKind::Dot, TokenKind::RBracket, 24);
}

#[test]
fn names() {
    located("x <urn:b> <urn:c> .", "unknown bare name 'x'; use a prefix or <IRI>", 0);
    located("<urn:a> p:b <urn:c> .", "unknown prefix 'p:'", 8);
    located(":a <urn:b> <urn:c> .", "unknown prefix ':'", 0);
}

#[test]
fn terms() {
    not_a_term(", <urn:b> <urn:c> .", TokenKind::Comma, 0);
    not_a_term("<urn:a> <urn:b> .", TokenKind::Dot, 16);
    not_a_term("<urn:a> => .", TokenKind::Dot, 11);
    not_a_term("<urn:a> <urn:b> @en .", TokenKind::Lang("en".to_string()), 16);
    not_a_term("<urn:a> <urn:b> ^^ .", TokenKind::HatHat, 16);
    not_a_term("<urn:a> <urn:b> ( ; ) .", TokenKind::Semicolon, 18);
    not_a_term("] .", TokenKind::RBracket, 0);
    not_a_term("<urn:a> <urn:b> @prefix .", TokenKind::AtPrefix, 16);
}

#[test]
fn at_the_end_the_last_token_is_read_once_more() {
    unexpected("<urn:a> <urn:b>", TokenKind::Dot, TokenKind::Eof, 15);
    unexpected("<urn:a>", TokenKind::Dot, TokenKind::Eof, 7);
    unexpected("<urn:a> <urn:b> \"x\"", TokenKind::Dot, TokenKind::Eof, 19);
    unexpected("\"x\"", TokenKind::Dot, TokenKind::Eof, 3);
    not_a_term("<urn:a> <urn:b> <urn:c> ,", TokenKind::Comma, 24);
    not_a_term("<urn:a> <urn:b> <urn:c> ;", TokenKind::Semicolon, 24);
    not_a_term("<urn:a> =>", TokenKind::Arrow, 8);
    not_a_term("<urn:a> <urn:b> \"x\"^^", TokenKind::HatHat, 19);
    unexpected("<urn:a> {", TokenKind::RBrace, TokenKind::Eof, 9);
    unexpected("<urn:a> (", TokenKind::RParen, TokenKind::Eof, 9);
    located("[", "unterminated blank node property list", 0);
    located("<urn:a> [", "unterminated blank node property list", 8);
    unexpected("[ <urn:p>", TokenKind::RBracket, TokenKind::Eof, 9);
}

#[test]
fn brackets_that_are_not_closed() {
    unexpected("<urn:a> <urn:b> ( <urn:c>", TokenKind::RParen, TokenKind::Eof, 25);
    unexpected("<urn:a> <urn:b> [ <urn:c> <urn:d> .", TokenKind::RBracket, TokenKind::Dot, 34);
    unexpected("<urn:a> <urn:b> [ . ] .", TokenKind::RBracket, TokenKind::Dot, 18);
    unexpected("{ <urn:a> <urn:b> <urn:c> .", TokenKind::RBrace, TokenKind::Eof, 27);
    unexpected("{", TokenKind::RBrace, TokenKind::Eof, 1);
}

#[test]
fn statements_of_a_formula() {
    located(
        "{ <urn:a> <urn:b> <urn:c> <urn:d> } => {} .",
        "expected '.' or '}' in formula",
        26,
    );
    located("{ <urn:a> <urn:b> <urn:c>", "expected '.' or '}' in formula", 25);
}

#[test]
fn rules_need_an_arrow() {
    located("true .", "expected => or <= after true", 5);
    located("true", "expected => or <= after true", 4);
    unexpected("{} <= <urn:a> .", TokenKind::LBrace, TokenKind::Iri("urn:a".to_string()), 6);
    let term = Term::Iri("urn:p".to_string());
    located(
        "{} <urn:p> {} .",
        &format!("expected =>, <=, or log:query after formula, got {:?}", term),
        11,
    );
}

#[test]
fn every_sort_of_term_is_shown() {
    let iri = |s: &str| Term::Iri(s.to_string());
    let plain = |value: &str| {
        Term::Literal(Literal { value: value.to_string(), datatype: None, language: None })
    };
    let shown = |text: &str, term: Term| {
        let whole = format!("{{}} {} {{}} .", text);
        located(
            &whole,
            &format!("expected =>, <=, or log:query after formula, got {:?}", term),
            4 + text.chars().count(),
        );
    };
    shown("?x", Term::Var("x".to_string()));
    shown("_:x", Term::Blank("x".to_string()));
    shown("\"a\\\"b\\n\u{e9}\"", plain("a\"b\n\u{e9}"));
    shown(
        "\"a\"^^<urn:t>",
        Term::Literal(Literal {
            value: "a".to_string(),
            datatype: Some("urn:t".to_string()),
            language: None,
        }),
    );
    shown(
        "\"a\"@en",
        Term::Literal(Literal {
            value: "a".to_string(),
            datatype: None,
            language: Some("en".to_string()),
        }),
    );
    shown("()", Term::List(vec![]));
    shown("(<urn:a> ?b)", Term::List(vec![iri("urn:a"), Term::Var("b".to_string())]));
    shown("{}", Term::Formula(vec![]));
    let one = Triple { subject: iri("urn:a"), predicate: iri("urn:b"), object: plain("c") };
    let two = Triple { subject: iri("urn:d"), predicate: iri("urn:e"), object: iri("urn:f") };
    shown(
        "{<urn:a> <urn:b> \"c\" . <urn:d> <urn:e> <urn:f>}",
        Term::Formula(vec![one, two]),
    );
}

#[test]
fn every_sort_of_token_is_shown() {
    let text = |s: &str| s.to_string();
    let shown = |token: &str, kind: TokenKind| {
        unexpected(&format!("<urn:a> <urn:b> <urn:c> {}", token), TokenKind::Dot, kind, 24);
    };
    shown("@prefix", TokenKind::AtPrefix);
    shown("PreFix", TokenKind::Prefix);
    shown("@base", TokenKind::AtBase);
    shown("bAse", TokenKind::Base);
    shown("{", TokenKind::LBrace);
    shown("}", TokenKind::RBrace);
    shown("[", TokenKind::LBracket);
    shown("]", TokenKind::RBracket);
    shown("(", TokenKind::LParen);
    shown(")", TokenKind::RParen);
    shown("=>", TokenKind::Arrow);
    shown("<=", TokenKind::BackArrow);
    shown("=", TokenKind::Equals);
    shown("^^", TokenKind::HatHat);
    shown("a", TokenKind::A);
    shown("p:\u{e9}", TokenKind::PName(text("p:\u{e9}")));
    shown("?v", TokenKind::Var(text("v")));
    shown("_:b", TokenKind::Blank(text("b")));
    shown("\"q\\\"\\\\\\t\"", TokenKind::String(text("q\"\\\t")));
    shown("1.5", TokenKind::Number(text("1.5")));
    shown("@en", TokenKind::Lang(text("en")));
    shown("true", TokenKind::Boolean(true));
    shown("false", TokenKind::Boolean(false));
}

#[test]
fn triples_where_none_may_stand() {
    plain(
        "<urn:a> [ <urn:b> <urn:c> ] <urn:d> .",
        "generated blank/list triples cannot be used as predicates",
    );
    plain("<urn:a> <urn:b> \"x\"^^[ <urn:c> <urn:d> ] .", "datatype cannot generate triples");
    plain("<urn:a> <urn:b> \"x\"^^\"y\" .", "datatype must be an IRI");
    plain("<urn:a> <urn:b> \"x\"^^[] .", "datatype must be an IRI");
    plain(
        "true => [ <urn:b> <urn:c> ] .",
        "generated triples cannot appear around an unquoted RHS term",
    );
}

#[test]
fn characters_and_tokens() {
    located("<urn:a> \"x", "unterminated string", 8);
    located("'''x''", "unterminated string", 0);
    located("\"a\\x\"", "unknown escape in string", 2);
    located("\"\\u12G4\"", "unknown escape in string", 1);
    located("\"\\ud800\"", "unknown escape in string", 1);
    located("\"\\U00110000\"", "unknown escape in string", 1);
    located("\"\\u12", "unknown escape in string", 1);
    located("\"\\", "unknown escape in string", 1);
    located("  <urn:a", "unterminated IRI", 2);
    located("@ en", "expected a word after '@'", 0);
    located("? x", "expected a variable name after '?'", 0);
    located("_: x", "expected a blank node label after '_:'", 0);
    located("<urn:a> ^ x", "unexpected character", 8);
    located("\u{e9} - x", "unexpected character", 2);
    located("!", "unexpected character", 0);
}

#[test]
fn positions_count_characters() {
    located("\"\u{e9}\u{1f600}\" ! ", "unexpected character", 5);
}

#[test]
fn errors_point_into_the_text() {
    let texts = [
        "", "[", "{", "(", "<urn:a>", "true", "@prefix", "\"", "\"\\", "?", "{ {", "( ( [", "a a a",
        "a a a ;", "true => [", "_:a _:b _:c", "<urn:a> <urn:b> \"\"^^",
    ];
    for text in texts {
        if let Err(e) = parse_n3(text, None) {
            if let Some(offset) = e.offset {
                assert!(offset <= text.chars().count(), "{}", text);
            }
            assert_ne!(e.message, "no headway");
        }
    }
}

#[test]
fn message_logs_report_the_first_failure() {
    let log = "<urn:a> <urn:b> .\nMESSAGE\n!\nMESSAGE\n";
    let e = parse_rdf_message_log(log, None).unwrap_err();
    assert_eq!(e.message, "expected term, got Dot");
    let log = "# empty\nMESSAGE\n!\nMESSAGE\n<urn:a> <urn:b> .\n";
    let e = parse_rdf_message_log(log, None).unwrap_err();
    assert_eq!(e.message, "unexpected character");
    let log = "PREFIX oops\n# empty\n";
    let e = parse_rdf_message_log(log, None).unwrap_err();
    assert_eq!(e.message, "expected prefix IRI");
}
