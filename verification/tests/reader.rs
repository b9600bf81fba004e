use eyeron::ast::{Document, Rule, Term, Triple, LOG_QUERY};
use eyeron::lexer::lex;
use eyeron::parser::{parse_n3, Parser};
use eyeron::token::TokenKind;

fn reader(text: &str, base: Option<&str>) -> Parser {
    Parser::new(lex(text).unwrap(), base)
}

fn iri(text: &str) -> Term {
    Term::Iri(text.to_string())
}

fn fact(subject: &str, predicate: &str, object: &str) -> Triple {
    Triple { subject: iri(subject), predicate: iri(predicate), object: iri(object) }
}

#[test]
fn a_reader_begins_at_the_first_token() {
    let p = reader("<urn:a> .", Some("http://h/"));
    assert_eq!(p.pos, 0);
    assert_eq!(p.blank_counter, 0);
    assert_eq!(p.doc.base_iri, Some("http://h/".to_string()));
    assert_eq!(p.peek_kind(), &TokenKind::Iri("urn:a".to_string()));
    assert_eq!(p.peek().offset, 0);
    assert!(p.check(&TokenKind::Iri("other".to_string())));
    assert!(!p.check(&TokenKind::Dot));
}

#[test]
fn tokens_are_read_one_by_one() {
    let mut p = reader("<urn:a> .", None);
    assert_eq!(p.advance().kind, TokenKind::Iri("urn:a".to_string()));
    assert_eq!(p.advance().kind, TokenKind::Dot);
    assert_eq!(p.pos, 2);
    assert_eq!(p.peek_kind(), &TokenKind::Eof);
    assert_eq!(p.advance().kind, TokenKind::Dot);
    assert_eq!(p.pos, 2);
}

#[test]
fn a_missing_token_is_not_passed_over() {
    let mut p = reader("<urn:a> .", None);
    let e = p.expect(TokenKind::Comma).unwrap_err();
    assert_eq!(e.message, "expected Comma, got Iri(\"urn:a\")");
    assert_eq!(e.offset, Some(0));
    assert_eq!(p.pos, 0);
    assert!(p.expect_dot().is_err());
    assert_eq!(p.pos, 0);
    p.advance();
    assert!(p.expect_dot().is_ok());
    assert_eq!(p.pos, 2);
}

#[test]
fn resolving_an_iri_twice_is_resolving_it_once() {
    for base in [None, Some("http://h/a/b"), Some("http://h/"), Some("http://h#"), Some("x://y")] {
        let p = reader("", base);
        for text in ["", "y", "#y", "/y", "../y", "urn:y", "mailto:y", "http://x/y"] {
            let once = p.resolve_iri(text);
            assert!(once.ends_with(text));
            assert_eq!(p.resolve_iri(&once), once);
        }
    }
    assert_eq!(reader("", Some("http://h/a/b")).resolve_iri("c"), "http://h/a/c");
    assert_eq!(reader("", Some("http://h/a/b")).resolve_iri("#c"), "http://h/a/b#c");
    assert_eq!(reader("", Some("x")).resolve_iri("c"), "xc");
}

#[test]
fn names_are_expanded() {
    let mut p = reader("@prefix p: <urn:x:> . p:a", None);
    assert!(p.parse_prefix().is_ok());
    assert_eq!(p.expand_pname("p:a:b", 3).unwrap(), "urn:x:a:b");
    let e = p.expand_pname("q:a", 3).unwrap_err();
    assert_eq!((e.message.as_str(), e.offset), ("unknown prefix 'q:'", Some(3)));
    let e = p.expand_pname("a", 4).unwrap_err();
    assert_eq!(e.message, "unknown bare name 'a'; use a prefix or <IRI>");
    assert_eq!(e.offset, Some(4));
}

#[test]
fn fresh_blank_nodes_are_counted() {
    let mut p = reader("", None);
    assert_eq!(p.fresh_blank("b"), Term::Blank("b1".to_string()));
    assert_eq!(p.fresh_blank("x"), Term::Blank("x2".to_string()));
    assert_eq!(p.blank_counter, 2);
}

#[test]
fn a_property_list_is_read_behind_its_bracket() {
    let mut p = reader("<urn:p> [] ; <urn:q> <urn:o> ] .", None);
    let (node, found) = p.parse_blank_node_property_list().unwrap();
    let b1 = Term::Blank("b1".to_string());
    let b2 = Term::Blank("b2".to_string());
    assert_eq!(node, b1);
    assert_eq!(found.len(), 2);
    assert_eq!(found[0], Triple::new(b1, iri("urn:p"), b2));
    assert_eq!(found[1].object, iri("urn:o"));
    assert_eq!(p.blank_counter, 2);
    assert!(p.expect_dot().is_ok());
}

#[test]
fn predicates_are_read_up_to_what_ends_them() {
    for (text, n) in [
        ("<p> <o> , <r> ; <q> <o> .", 7),
        ("<p> <o> , <r> ; ; <q> <o> ; ; .", 10),
        ("<p><o>,<r>;<q><o>.", 7),
    ] {
        let mut p = reader(text, Some("http://h/"));
        let found = p.parse_predicate_object_list(&iri("urn:s")).unwrap();
        assert_eq!(
            found,
            vec![
                fact("urn:s", "http://h/p", "http://h/o"),
                fact("urn:s", "http://h/p", "http://h/r"),
                fact("urn:s", "http://h/q", "http://h/o"),
            ]
        );
        assert_eq!(p.pos, n);
        assert_eq!(p.peek_kind(), &TokenKind::Dot);
    }
    let mut p = reader(". <urn:p>", None);
    assert_eq!(p.parse_predicate_object_list(&iri("urn:s")).unwrap(), Vec::<Triple>::new());
    assert_eq!(p.pos, 0);
}

#[test]
fn sentences_with_relative_iris_say_the_same() {
    let said = |text: &str, base: Option<&str>| parse_n3(text, base).unwrap();
    for base in [None, Some("http://h/a"), Some("x#"), Some("")] {
        let full = said("<s> <p> <o> . <s> <p> <r> . <s> <q> <o> .", base);
        assert_eq!(full.facts.len(), 3);
        assert_eq!(said("<s> <p> <o> , <r> ; <q> <o> .", base), full);
        assert_eq!(said("<s> <p> <o> , <r> ; ; <q> <o> ; ; .", base), full);
        assert_eq!(said("<s><p><o>,<r>;;<q><o>;.", base), full);
        assert_eq!(said("<s>\n<p> <o> ,\n\t<r> # and\n; <q> <o>.", base), full);
    }
}

fn rule_of(text: &str) -> Result<Vec<Rule>, (String, Option<usize>)> {
    let mut p = reader(text, Some("http://h/"));
    match p.parse_formula_statement() {
        Ok(()) => {
            assert_eq!(p.doc.facts, Vec::<Triple>::new());
            Ok(p.doc.rules)
        }
        Err(e) => Err((e.message, e.offset)),
    }
}

#[test]
fn a_query_makes_the_rule_of_an_arrow() {
    let query = format!("<{}>", LOG_QUERY);
    let shift = query.len() - 2;
    for left in [
        "{}", "{ <a> <b> ?x }", "{ {<a> <b> [ <c> <d> ]} a <e> }", "{ _:x a <c> . # {\n}",
    ] {
        for right in [
            "{}", "true", "{ ?x <b> [] }", "{ <c>", "{ <c> p:d <e> }", "true true", "{ } , { }",
        ] {
            let arrow = rule_of(&format!("{} => {} .", left, right));
            let named = rule_of(&format!("{} {} {} .", left, query, right));
            match (arrow, named) {
                (Ok(one), Ok(two)) => {
                    assert_eq!(one.len(), 1);
                    assert_eq!(one, two);
                }
                (Err((one, at)), Err((two, from))) => {
                    assert_eq!(one, two);
                    assert_eq!(at.map(|o| o + shift), from);
                }
                _ => panic!("{} {}", left, right),
            }
        }
    }
}

#[test]
fn a_query_fails_where_an_arrow_does() {
    let query = format!("<{}>", LOG_QUERY);
    for left in ["{ <a> }", "{ p:a <b> <c> }", "{ <a> <b> }", "{ ( }", "{ [ <a> }", "{ { } }"] {
        for right in ["{}", "true", "{ <a> <b> <c> }", "{ ) }"] {
            let arrow = rule_of(&format!("{} => {} .", left, right));
            let named = rule_of(&format!("{} {} {} .", left, query, right));
            match (arrow, named) {
                (Ok(one), Ok(two)) => assert_eq!(one, two),
                (one, two) => assert!(one.is_err() && two.is_err()),
            }
        }
    }
}

#[test]
fn statements_go_on_behind_a_query() {
    let query = format!("<{}>", LOG_QUERY);
    for rest in ["{} . <a> <b> <c> . { } => { } .", "true . <a> <b> .", "{} . \"open"] {
        let arrow = parse_n3(&format!("{{ ?x a ?y }} => {}", rest), None);
        let named = parse_n3(&format!("{{ ?x a ?y }} {} {}", query, rest), None);
        match (arrow, named) {
            (Ok(one), Ok(two)) => assert_eq!(one, two),
            (Err(one), Err(two)) => {
                assert_eq!(one.message, two.message);
                assert_eq!(one.offset.map(|o| o + query.len() - 2), two.offset);
            }
            _ => panic!("{}", rest),
        }
    }
}

#[test]
fn a_statement_that_fails_before_its_dot_says_nothing() {
    for text in ["true . ", "true <= <x> .", "true => [ <p> <o> ] ."] {
        let mut p = reader(text, None);
        assert!(p.parse_true_formula_statement().is_err());
        assert_eq!(p.doc, Document::new());
    }
    for text in ["{ <a> } ", "{ } <p> { } .", "{ } => [ <p> <o> ] .", "{ } <= <x> ."] {
        let mut p = reader(text, None);
        assert!(p.parse_formula_statement().is_err());
        assert_eq!(p.doc, Document::new());
    }
}

#[test]
fn a_rule_without_its_dot_is_said_already() {
    let mut p = reader("{ <urn:a> <urn:b> <urn:c> } => { } <urn:d>", None);
    let e = p.parse_formula_statement().unwrap_err();
    assert_eq!(e.message, "expected Dot, got Iri(\"urn:d\")");
    assert_eq!(p.doc.rules.len(), 1);
    assert_eq!(p.doc.rules[0].premise, vec![fact("urn:a", "urn:b", "urn:c")]);
    assert!(p.doc.rules[0].is_forward);
    let mut p = reader("true => <urn:p> <urn:q> ", None);
    assert!(p.parse_true_formula_statement().is_err());
    assert_eq!(p.doc.rules.len(), 1);
}

#[test]
fn declarations_are_kept_where_their_dot_is_missing() {
    let mut p = reader("@base <urn:x> <urn:y>", Some("urn:z"));
    assert!(p.parse_base().is_err());
    assert_eq!(p.doc.base_iri, Some("urn:x".to_string()));
    let mut p = reader("@base . <urn:y>", Some("urn:z"));
    assert!(p.parse_base().is_err());
    assert_eq!(p.doc.base_iri, Some("urn:z".to_string()));
    let mut p = reader("@prefix p: <urn:x> ;", None);
    assert!(p.parse_prefix().is_err());
    assert_eq!(p.expand_pname("p:a", 0).unwrap(), "urn:xa");
}

#[test]
fn a_reader_stops_where_reading_fails() {
    // The text, the place and the number of blank nodes when a term fails.
    for (text, pos, blanks) in [
        ("{ <a> <b> <c> <d> }", 4, 0),
        ("{ <a> <b> <c> ; <p> , }", 7, 0),
        ("{ <a> <b> <c>", 4, 0),
        ("( <a> [ <b> [] ] , )", 8, 2),
        ("[ <b> , ]", 3, 1),
        ("( <a>", 2, 0),
        (", <a>", 1, 0),
        ("\"x\" ^^ \"y\" .", 3, 0),
        ("\"x\" ^^ } .", 3, 0),
    ] {
        let mut p = reader(text, None);
        assert!(p.parse_term().is_err(), "{}", text);
        assert_eq!((p.pos, p.blank_counter), (pos, blanks), "{}", text);
    }
    // The same for a rule.
    for (text, pos) in [
        ("{ } <p> { } .", 3),
        ("{ } => [ <p> <o> ] .", 7),
        ("{ } => { } , .", 5),
        ("{ } <= <x> .", 3),
        ("{ } , { } .", 3),
        ("<x> .", 0),
    ] {
        let mut p = reader(text, None);
        assert!(p.parse_formula_statement().is_err(), "{}", text);
        assert_eq!(p.pos, pos, "{}", text);
    }
    for (text, pos) in [("true .", 1), ("true => , .", 3), ("true <= , .", 2)] {
        let mut p = reader(text, None);
        assert!(p.parse_true_formula_statement().is_err(), "{}", text);
        assert_eq!(p.pos, pos, "{}", text);
    }
    for (text, pos) in [("@prefix <a> .", 2), ("@prefix a: .", 3), ("@prefix a: <b> ,", 3)] {
        let mut p = reader(text, None);
        assert!(p.parse_prefix().is_err(), "{}", text);
        assert_eq!(p.pos, pos, "{}", text);
    }
}

#[test]
fn verbs_and_literals() {
    let mut p = reader("a = => <= <urn:p>", None);
    let mut found: Vec<Term> = Vec::new();
    for _ in 0..5 {
        found.push(p.parse_verb().unwrap());
    }
    assert_eq!(found[4], iri("urn:p"));
    assert_eq!(p.pos, 5);
    let mut p = reader("^^ <urn:d> .", None);
    let (term, inside) = p.finish_literal("v".to_string()).unwrap();
    assert!(inside.is_empty());
    if let Term::Literal(l) = term {
        assert_eq!((l.value.as_str(), l.datatype.as_deref()), ("v", Some("urn:d")));
    } else {
        panic!("not a literal");
    }
}

#[test]
fn lists_and_right_sides() {
    let mut p = reader("<urn:a> ( ) ) .", None);
    let (term, _) = p.parse_list().unwrap();
    assert_eq!(term, Term::List(vec![iri("urn:a"), Term::List(vec![])]));
    let mut p = reader("true {} <urn:x> .", None);
    assert_eq!(p.parse_formula_or_true().unwrap(), Vec::<Triple>::new());
    assert_eq!(p.parse_forward_rule_rhs().unwrap(), Vec::<Triple>::new());
    assert!(p.parse_formula_or_true().is_err());
    let unquoted = p.parse_forward_rule_rhs().unwrap();
    assert_eq!(unquoted.len(), 1);
    assert_eq!(unquoted[0].object, iri("urn:x"));
}

#[test]
fn the_rest_of_a_document_is_read() {
    let mut p = reader("@base <http://h/> . <a> <b> <c> .", None);
    assert!(p.parse_base().is_ok());
    let doc = p.parse_document().unwrap();
    assert_eq!(doc.facts, vec![fact("http://h/a", "http://h/b", "http://h/c")]);
}
