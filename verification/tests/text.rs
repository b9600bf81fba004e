use eyeron::lexer::lex;
use eyeron::prefixes::PrefixMap;
use eyeron::text::{
    char_is_digit, char_is_letter, char_is_space, find, has_prefix, includes, push_decimal,
    same_ignoring_case, split_lines, to_chars, to_text, trimmed, trimmed_start,
};
use eyeron::token::{same_variant, Token, TokenKind};

fn samples() -> Vec<&'static str> {
    vec![
        "", " ", "a", " a ", "\t a\u{a0}b \r\n", "\n", "\r", "\r\n", "a\n", "a\r\n", "a\r",
        "a\n\nb", "a\r\r\nb\r", "\u{3000}x\u{2028}", "\u{200b}x", "\n\n", "a\u{85}b",
        "\u{1f600}\n\u{e9}",
    ]
}

#[test]
fn white_space_is_that_of_std() {
    for code in 0..=0x10ffff {
        if let Some(c) = char::from_u32(code) {
            assert_eq!(char_is_space(c), c.is_whitespace(), "{:x}", code);
            assert_eq!(char_is_digit(c), c.is_ascii_digit(), "{:x}", code);
            assert_eq!(char_is_letter(c), c.is_ascii_alphabetic(), "{:x}", code);
        }
    }
}

#[test]
fn lines_are_those_of_std() {
    for text in samples() {
        let chars = to_chars(text);
        let found: Vec<String> = split_lines(&chars).iter().map(|l| to_text(l)).collect();
        let expected: Vec<String> = text.lines().map(|l| l.to_string()).collect();
        assert_eq!(found, expected, "{:?}", text);
    }
}

#[test]
fn trimming_is_that_of_std() {
    for text in samples() {
        let chars = to_chars(text);
        assert_eq!(to_text(trimmed(&chars)), text.trim(), "{:?}", text);
        assert_eq!(to_text(trimmed_start(&chars)), text.trim_start(), "{:?}", text);
    }
}

#[test]
fn searching() {
    let chars = to_chars("a:b://c");
    assert_eq!(find(&chars, 0, ':'), 1);
    assert_eq!(find(&chars, 2, ':'), 3);
    assert_eq!(find(&chars, 0, 'x'), 7);
    assert!(includes(&chars, "://"));
    assert!(includes(&chars, ""));
    assert!(!includes(&chars, ":///"));
    assert!(has_prefix(&chars, "a:b"));
    assert!(!has_prefix(&chars, "b"));
}

#[test]
fn case_of_ascii_letters_only() {
    let same = |a: &str, b: &str| same_ignoring_case(&to_chars(a), &to_chars(b));
    assert!(same("PreFix", "pREFIX"));
    assert!(same("", ""));
    assert!(!same("\u{c9}", "\u{e9}"));
    assert!(!same("[", "{"));
    assert!(!same("@", "`"));
    assert!(!same("a", "ab"));
}

#[test]
fn decimal_numerals() {
    for n in [0, 7, 9, 10, 42, 100, 1234567890, usize::MAX] {
        let mut out = String::from("n");
        push_decimal(&mut out, n);
        assert_eq!(out, format!("n{}", n));
    }
}

#[test]
fn tokens_of_a_text() {
    let kinds: Vec<TokenKind> =
        lex("@prefix p: <i> . ?v _:b 'x'@en ^^ => <= = a true q:r.s. -1.5e3 ; , ( ) [ ] { }")
            .unwrap()
            .into_iter()
            .map(|t| t.kind)
            .collect();
    let s = |text: &str| text.to_string();
    assert_eq!(
        kinds,
        vec![
            TokenKind::AtPrefix,
            TokenKind::PName(s("p:")),
            TokenKind::Iri(s("i")),
            TokenKind::Dot,
            TokenKind::Var(s("v")),
            TokenKind::Blank(s("b")),
            TokenKind::String(s("x")),
            TokenKind::Lang(s("en")),
            TokenKind::HatHat,
            TokenKind::Arrow,
            TokenKind::BackArrow,
            TokenKind::Equals,
            TokenKind::A,
            TokenKind::Boolean(true),
            TokenKind::PName(s("q:r.s")),
            TokenKind::Dot,
            TokenKind::Number(s("-1.5e3")),
            TokenKind::Semicolon,
            TokenKind::Comma,
            TokenKind::LParen,
            TokenKind::RParen,
            TokenKind::LBracket,
            TokenKind::RBracket,
            TokenKind::LBrace,
            TokenKind::RBrace,
            TokenKind::Eof,
        ]
    );
}

#[test]
fn tokens_stand_at_increasing_positions() {
    let text = "# c\n:a \u{e9}x: \"\u{1f600}\" 1.";
    let tokens = lex(text).unwrap();
    let offsets: Vec<usize> = tokens.iter().map(|t| t.offset).collect();
    assert_eq!(offsets, vec![4, 7, 11, 15, 16, 17]);
    assert_eq!(
        tokens.last(),
        Some(&Token { kind: TokenKind::Eof, offset: text.chars().count() })
    );
    assert_eq!(tokens.iter().filter(|t| t.kind == TokenKind::Eof).count(), 1);
}

#[test]
fn number_boundaries() {
    let kinds = |text: &str| -> Vec<TokenKind> {
        lex(text).unwrap().into_iter().map(|t| t.kind).collect()
    };
    let n = |text: &str| TokenKind::Number(text.to_string());
    assert_eq!(kinds("1."), vec![n("1"), TokenKind::Dot, TokenKind::Eof]);
    assert_eq!(kinds("1.5.2"), vec![n("1.5"), TokenKind::Dot, n("2"), TokenKind::Eof]);
    assert_eq!(kinds("1e"), vec![n("1"), TokenKind::PName("e".to_string()), TokenKind::Eof]);
    assert_eq!(kinds("1e+2"), vec![n("1e+2"), TokenKind::Eof]);
}

#[test]
fn variants() {
    let s = |text: &str| text.to_string();
    assert!(same_variant(&TokenKind::Iri(s("a")), &TokenKind::Iri(s("b"))));
    assert!(same_variant(&TokenKind::Boolean(true), &TokenKind::Boolean(false)));
    assert!(same_variant(&TokenKind::Dot, &TokenKind::Dot));
    assert!(!same_variant(&TokenKind::Iri(s("a")), &TokenKind::PName(s("a"))));
    assert!(!same_variant(&TokenKind::AtPrefix, &TokenKind::Prefix));
    assert!(!same_variant(&TokenKind::Eof, &TokenKind::Dot));
}

#[test]
fn prefix_maps() {
    let s = |text: &str| text.to_string();
    let mut a = PrefixMap::new();
    a.insert(s("p"), s("1"));
    a.insert(s("q"), s("2"));
    a.insert(s("p"), s("3"));
    assert_eq!(a.entries(), &vec![(s("p"), s("3")), (s("q"), s("2"))]);
    let mut b = PrefixMap::new();
    b.insert(s("q"), s("4"));
    b.insert(s("r"), s("5"));
    a.extend(&b);
    assert_eq!(a.get(&s("p")), Some(&s("3")));
    assert_eq!(a.get(&s("q")), Some(&s("4")));
    assert_eq!(a.get(&s("r")), Some(&s("5")));
    assert_eq!(a.get(&s("")), None);
}

#[test]
fn prefix_maps_are_the_same_in_any_order() {
    let map = |pairs: &[(&str, &str)]| {
        let mut m = PrefixMap::new();
        for (prefix, iri) in pairs {
            m.insert(prefix.to_string(), iri.to_string());
        }
        m
    };
    assert_eq!(map(&[("p", "1"), ("q", "2")]), map(&[("q", "2"), ("p", "1")]));
    assert_eq!(map(&[("p", "1"), ("p", "2")]), map(&[("p", "2")]));
    assert_ne!(map(&[("p", "1"), ("q", "2")]), map(&[("p", "2"), ("q", "1")]));
    assert_ne!(map(&[("p", "1")]), map(&[("p", "1"), ("q", "2")]));
    assert_ne!(map(&[("p", "1"), ("q", "2")]), map(&[("p", "1")]));
    assert_eq!(map(&[]), PrefixMap::new());
}
