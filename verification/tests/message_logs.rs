use eyeron::ast::{Document, Term, Triple, RDF_TYPE};
use eyeron::message_log::{
    message_is_empty, normalize_turtle_directive, rewrite_message_blank_labels,
    split_rdf_message_log,
};
use eyeron::parser::{is_rdf_message_log, number_literal, parse_n3, parse_rdf_message_log};

fn iri(text: &str) -> Term {
    Term::Iri(text.to_string())
}

fn ey(local: &str) -> Term {
    Term::Iri(format!("https://eyereasoner.github.io/eyeling/vocab/message#{}", local))
}

fn stream() -> Term {
    iri("urn:eyeron:rdf-message-stream:1")
}

fn envelope(k: usize) -> Term {
    Term::Iri(format!("urn:eyeron:rdf-message-stream:1:envelope:{}", k))
}

fn payload(k: usize) -> Term {
    Term::Iri(format!("urn:eyeron:rdf-message-stream:1:payload:{}", k))
}

fn name_of() -> Term {
    iri("http://www.w3.org/2000/10/swap/log#nameOf")
}

fn fact(subject: Term, predicate: Term, object: Term) -> Triple {
    Triple { subject, predicate, object }
}

fn replay(text: &str) -> Document {
    parse_rdf_message_log(text, None).unwrap()
}

fn split(text: &str) -> (String, Vec<String>) {
    split_rdf_message_log(text).unwrap()
}

#[test]
fn message_logs_are_recognised() {
    assert!(is_rdf_message_log("VERSION \"1.2-messages\"\n"));
    assert!(is_rdf_message_log("# x\n  VERSION \"1.2-messages\" # more"));
    assert!(is_rdf_message_log("<a> <b> <c> .\n\tMESSAGE \r\n<d> <e> <f> ."));
    assert!(is_rdf_message_log("\u{2003}MESSAGE\u{a0}"));
    assert!(!is_rdf_message_log(""));
    assert!(!is_rdf_message_log("VERSION \"1.2\"\n"));
    assert!(!is_rdf_message_log("version \"1.2-messages\"\n"));
    assert!(!is_rdf_message_log("# VERSION \"1.2-messages\"\n"));
    assert!(!is_rdf_message_log("MESSAGES\n"));
    assert!(!is_rdf_message_log("message\n"));
    assert!(!is_rdf_message_log("a MESSAGE\n"));
}

#[test]
fn a_log_splits_into_declarations_and_messages() {
    let log = "VERSION \"1.2-messages\"\nPREFIX : <urn:x:>\n:a :b :c .\nMESSAGE\n# c\n\nMESSAGE\n\
               base <http://h/> .\n:d :e :f .";
    let (declared, messages) = split(log);
    assert_eq!(declared, "@prefix : <urn:x:> .\n@base <http://h/> .\n");
    assert_eq!(messages, vec![":a :b :c .\n", "# c\n\n", ":d :e :f .\n"]);
}

#[test]
fn an_empty_log_holds_one_empty_message() {
    assert_eq!(split(""), (String::new(), vec![String::new()]));
    assert_eq!(split("MESSAGE"), (String::new(), vec![String::new(), String::new()]));
    assert_eq!(split("MESSAGE\n"), split("MESSAGE"));
}

#[test]
fn there_is_one_message_more_than_delimiters() {
    for n in 0..5 {
        let mut log = String::from(":a :b :c .\n");
        for _ in 0..n {
            log.push_str("  MESSAGE\t\n# x\n");
        }
        assert_eq!(split(&log).1.len(), n + 1);
        assert_eq!(is_rdf_message_log(&log), n > 0);
    }
}

#[test]
fn lines_keep_their_white_space_but_not_their_carriage_return() {
    let (_, messages) = split("  :a :b :c . \r\n\tMESSAGE\r\n:d\r");
    assert_eq!(messages, vec!["  :a :b :c . \n", ":d\r\n"]);
}

#[test]
fn other_cases_are_content() {
    let (declared, messages) = split("Prefix : <urn:x:>\n@prefix : <urn:x:> .\nPREFIX\nVERSION\n");
    assert_eq!(declared, "");
    assert_eq!(messages, vec!["Prefix : <urn:x:>\n@prefix : <urn:x:> .\nPREFIX\nVERSION\n"]);
}

#[test]
fn any_version_line_is_skipped() {
    let (_, messages) = split("VERSION nonsense\n:a\n");
    assert_eq!(messages, vec![":a\n"]);
}

#[test]
fn directives_are_normalised() {
    let n = |line: &str| normalize_turtle_directive(line, "PREFIX", "@prefix").unwrap();
    assert_eq!(n("PREFIX : <urn:x:>"), "@prefix : <urn:x:> .");
    assert_eq!(n("prefix : <urn:x:> ."), "@prefix : <urn:x:> .");
    assert_eq!(n("PrEfIx : <urn:x:>."), "@prefix : <urn:x:> .");
    assert_eq!(n("PREFIX"), "@prefix  .");
    assert_eq!(n("PREFIX a .."), "@prefix a . .");
    assert_eq!(
        normalize_turtle_directive("BASE <urn:x:>", "BASE", "@base").unwrap(),
        "@base <urn:x:> ."
    );
    let e = normalize_turtle_directive("PRE", "PREFIX", "@prefix").unwrap_err();
    assert_eq!(e.message, "expected PREFIX directive");
    assert_eq!(e.offset, None);
    let e = normalize_turtle_directive("BASE <urn:x:>", "PREFIX", "@prefix").unwrap_err();
    assert_eq!(e.message, "expected PREFIX directive");
}

#[test]
fn the_dot_of_a_directive_is_optional() {
    for declared in ["p: <urn:x:>", " p: <urn:x:>  ", "", "x"] {
        let with = normalize_turtle_directive(&format!("BASE{}.", declared), "BASE", "@base");
        let without = normalize_turtle_directive(&format!("BASE{}", declared), "BASE", "@base");
        assert_eq!(with, without);
    }
}

#[test]
fn empty_messages() {
    assert!(message_is_empty(""));
    assert!(message_is_empty("\n \t\r\n# c\n  # d"));
    assert!(!message_is_empty("\n.\n"));
    assert!(!message_is_empty("# c\n:a"));
}

#[test]
fn labels_are_marked_with_the_number_of_their_message() {
    assert_eq!(rewrite_message_blank_labels("_:a :p _:b-1_c .", 12), "_:m12_a :p _:m12_b-1_c .");
    assert_eq!(rewrite_message_blank_labels("_:a", 0), "_:m0_a");
    assert_eq!(rewrite_message_blank_labels("", 1), "");
    assert_eq!(rewrite_message_blank_labels("_: _ _x:y _", 1), "_: _ _x:y _");
    assert_eq!(rewrite_message_blank_labels("__:a_:b", 1), "__:m1_a_:b");
    assert_eq!(rewrite_message_blank_labels("a_:b", 2), "a_:m2_b");
}

#[test]
fn strings_and_comments_are_not_marked() {
    let same = |text: &str| assert_eq!(rewrite_message_blank_labels(text, 3), text);
    same("\"_:a\"");
    same("'_:a'");
    same("\"\\\"_:a\"");
    same("'it\\'s _:a'");
    same("\"_:a");
    same("\"_:a\\");
    same("# _:a");
    same("<urn:x#y> _:a");
    assert_eq!(rewrite_message_blank_labels("# _:a\n_:a", 3), "# _:a\n_:m3_a");
    assert_eq!(rewrite_message_blank_labels("\"x\"_:a'y'_:b", 3), "\"x\"_:m3_a'y'_:m3_b");
    assert_eq!(rewrite_message_blank_labels("\"\"\"_:a\"\"\" _:a", 3), "\"\"\"_:a\"\"\" _:m3_a");
}

#[test]
fn text_without_labels_stays() {
    for text in ["", ":a :b :c .", "_", "_ :", ":_", "\u{e9}_\u{e9}", "\"\\"] {
        assert_eq!(rewrite_message_blank_labels(text, 7), text);
    }
}

#[test]
fn labels_of_different_messages_differ() {
    let a = rewrite_message_blank_labels("_:2_x", 1);
    let b = rewrite_message_blank_labels("_:x", 12);
    assert_eq!(a, "_:m1_2_x");
    assert_eq!(b, "_:m12_x");
    assert_ne!(a, b);
}

#[test]
fn replay_of_three_messages() {
    let log = "VERSION \"1.2-messages\"\nPREFIX : <urn:x:>\n_:n :p :o .\nMESSAGE\n# nothing\n\
               MESSAGE\n_:n :q [ :r 1 ] .\n";
    let doc = replay(log);
    let x = |local: &str| Term::Iri(format!("urn:x:{}", local));
    let b = |label: &str| Term::Blank(label.to_string());
    assert_eq!(
        doc.facts,
        vec![
            fact(stream(), iri(RDF_TYPE), ey("RDFMessageStream")),
            fact(
                stream(),
                ey("orderedEnvelopes"),
                Term::List(vec![envelope(1), envelope(2), envelope(3)])
            ),
            fact(stream(), ey("firstEnvelope"), envelope(1)),
            fact(stream(), ey("envelope"), envelope(1)),
            fact(envelope(1), iri(RDF_TYPE), ey("MessageEnvelope")),
            fact(envelope(1), ey("offset"), number_literal("0".to_string())),
            fact(envelope(1), ey("nextEnvelope"), envelope(2)),
            fact(envelope(1), ey("payloadKind"), ey("nonEmpty")),
            fact(envelope(1), ey("payloadGraph"), payload(1)),
            fact(
                payload(1),
                name_of(),
                Term::Formula(vec![fact(b("m1_n"), x("p"), x("o"))])
            ),
            fact(stream(), ey("envelope"), envelope(2)),
            fact(envelope(2), iri(RDF_TYPE), ey("MessageEnvelope")),
            fact(envelope(2), ey("offset"), number_literal("1".to_string())),
            fact(envelope(2), ey("nextEnvelope"), envelope(3)),
            fact(envelope(2), ey("payloadKind"), ey("empty")),
            fact(stream(), ey("envelope"), envelope(3)),
            fact(envelope(3), iri(RDF_TYPE), ey("MessageEnvelope")),
            fact(envelope(3), ey("offset"), number_literal("2".to_string())),
            fact(envelope(3), ey("payloadKind"), ey("nonEmpty")),
            fact(envelope(3), ey("payloadGraph"), payload(3)),
            fact(
                payload(3),
                name_of(),
                Term::Formula(vec![
                    fact(b("m3_n"), x("q"), b("b1")),
                    fact(b("b1"), x("r"), number_literal("1".to_string())),
                ])
            ),
        ]
    );
    assert!(doc.rules.is_empty());
    assert_eq!(doc.base_iri, None);
    assert_eq!(doc.prefixes.get(&"".to_string()), Some(&"urn:x:".to_string()));
}

#[test]
fn replay_of_an_empty_log() {
    let doc = replay("");
    assert_eq!(
        doc.facts,
        vec![
            fact(stream(), iri(RDF_TYPE), ey("RDFMessageStream")),
            fact(stream(), ey("orderedEnvelopes"), Term::List(vec![envelope(1)])),
            fact(stream(), ey("firstEnvelope"), envelope(1)),
            fact(stream(), ey("envelope"), envelope(1)),
            fact(envelope(1), iri(RDF_TYPE), ey("MessageEnvelope")),
            fact(envelope(1), ey("offset"), number_literal("0".to_string())),
            fact(envelope(1), ey("payloadKind"), ey("empty")),
        ]
    );
}

#[test]
fn prefixes_are_seeded_even_if_all_messages_are_empty() {
    let doc = replay("PREFIX p: <urn:1:>\nMESSAGE\nPREFIX q: <urn:2:>\n");
    assert_eq!(doc.prefixes.get(&"p".to_string()), Some(&"urn:1:".to_string()));
    assert_eq!(doc.prefixes.get(&"q".to_string()), Some(&"urn:2:".to_string()));
    assert_eq!(doc.prefixes.entries().len(), 2);
    assert_eq!(doc.facts.len(), 3 + 5 + 4);
}

#[test]
fn declarations_hold_for_all_messages() {
    let doc = replay("p:a p:b p:c .\nMESSAGE\nPREFIX p: <urn:1:>\n");
    let a = Term::Iri("urn:1:a".to_string());
    if let Term::Formula(said) = &doc.facts[9].object {
        assert_eq!(said[0].subject, a);
    } else {
        panic!("no formula");
    }
}

#[test]
fn a_message_may_declare_prefixes_of_its_own() {
    let doc = replay("@prefix p: <urn:1:> .\np:a p:b p:c .\nMESSAGE\n@prefix p: <urn:2:> .\n");
    assert_eq!(doc.prefixes.get(&"p".to_string()), Some(&"urn:2:".to_string()));
    let e = parse_rdf_message_log("@prefix p: <urn:1:> .\nMESSAGE\np:a p:b p:c .\n", None);
    assert_eq!(e.unwrap_err().message, "unknown prefix 'p:'");
}

#[test]
fn the_base_of_a_replay() {
    let doc = parse_rdf_message_log("<a> <b> <c> .", Some("http://h/")).unwrap();
    assert_eq!(doc.base_iri, Some("http://h/".to_string()));
    if let Term::Formula(said) = &doc.facts[8].object {
        assert_eq!(said[0], fact(iri("http://h/a"), iri("http://h/b"), iri("http://h/c")));
    } else {
        panic!("no formula");
    }
    let doc = replay("BASE <http://g/>\n<a> <b> <c> .");
    assert_eq!(doc.base_iri, Some("http://g/".to_string()));
    if let Term::Formula(said) = &doc.facts[8].object {
        assert_eq!(said[0], fact(iri("http://g/a"), iri("http://g/b"), iri("http://g/c")));
    } else {
        panic!("no formula");
    }
}

#[test]
fn rules_of_a_message_are_not_replayed() {
    let doc = replay("{ ?x ?y ?z } => { ?z ?y ?x } .\n<urn:a> <urn:b> <urn:c> .\n");
    assert!(doc.rules.is_empty());
    if let Term::Formula(said) = &doc.facts[8].object {
        assert_eq!(said.len(), 1);
    } else {
        panic!("no formula");
    }
}

#[test]
fn links_lead_from_each_envelope_to_the_next() {
    let doc = replay("MESSAGE\nMESSAGE\n<urn:a> <urn:b> <urn:c> .\nMESSAGE\n");
    let links: Vec<&Triple> =
        doc.facts.iter().filter(|t| t.predicate == ey("nextEnvelope")).collect();
    assert_eq!(
        links,
        vec![
            &fact(envelope(1), ey("nextEnvelope"), envelope(2)),
            &fact(envelope(2), ey("nextEnvelope"), envelope(3)),
            &fact(envelope(3), ey("nextEnvelope"), envelope(4)),
        ]
    );
    let graphs: Vec<&Triple> =
        doc.facts.iter().filter(|t| t.predicate == ey("payloadGraph")).collect();
    assert_eq!(graphs, vec![&fact(envelope(3), ey("payloadGraph"), payload(3))]);
}

#[test]
fn a_payload_is_what_the_message_says_on_its_own() {
    let doc = replay("<urn:s> <urn:p> \"_:x\" , _:x .\n");
    let alone = parse_n3("<urn:s> <urn:p> \"_:x\" , _:m1_x .\n", None).unwrap();
    assert_eq!(doc.facts.last().unwrap().object, Term::Formula(alone.facts));
}

#[test]
fn messages_hold_all_content_in_order() {
    let log = "VERSION \"1.2-messages\"\n:a\nPREFIX : <urn:x:>\n\n:b\nMESSAGE\n# c\n\
               BASE <urn:y>\n:d\n";
    let (_, messages) = split(log);
    assert_eq!(messages.concat(), ":a\n\n:b\n# c\n:d\n");
}

#[test]
fn marked_labels_are_not_made_up_ones() {
    let doc = replay("_:b1 <urn:p> [] .\n");
    if let Term::Formula(said) = &doc.facts[8].object {
        assert_eq!(
            said,
            &vec![fact(
                Term::Blank("m1_b1".to_string()),
                iri("urn:p"),
                Term::Blank("b1".to_string())
            )]
        );
    } else {
        panic!("no formula");
    }
    let doc = parse_n3("_:b1 <urn:p> [] .", None).unwrap();
    assert_eq!(doc.facts[0].subject, doc.facts[0].object);
}

fn collect_labels(t: &Term, labels: &mut Vec<String>) {
    match t {
        Term::Blank(label) => labels.push(label.clone()),
        Term::List(items) => {
            for item in items {
                collect_labels(item, labels);
            }
        }
        Term::Formula(items) => {
            for item in items {
                collect_labels(&item.subject, labels);
                collect_labels(&item.predicate, labels);
                collect_labels(&item.object, labels);
            }
        }
        _ => {}
    }
}

#[test]
fn graphs_of_different_messages_share_no_blank_node() {
    let message = "_:a ?x_ ( _:1_b <urn:x_:y> \"_:a\" '_:b' ) . # _:c\n\
                   { _:a_ <urn:p> \"\"\"x\\\"_:a\"\"\" } => _:d .\n";
    let log = format!("PREFIX : <urn:x:>\n{}MESSAGE\n{}MESSAGE\n{}", message, message, message);
    let doc = replay(&log);
    let mut seen: Vec<String> = Vec::new();
    let mut graphs = 0;
    for t in doc.facts.iter().filter(|t| t.predicate == name_of()) {
        graphs += 1;
        let mut labels: Vec<String> = Vec::new();
        collect_labels(&t.object, &mut labels);
        assert_eq!(labels.len(), 2);
        for label in &labels {
            assert!(label.starts_with(&format!("m{}_", graphs)));
            assert!(!seen.contains(label));
        }
        seen.extend(labels);
    }
    assert_eq!(graphs, 3);
}

#[test]
fn declarations_are_in_force_in_every_message() {
    let log = "PREFIX p: <urn:p:>\nBASE <http://h/>\np:a p:b <c> .\nMESSAGE\np:a p:b <d> .\n";
    let doc = replay(log);
    for t in doc.facts.iter().filter(|t| t.predicate == name_of()) {
        if let Term::Formula(said) = &t.object {
            assert_eq!(said[0].subject, iri("urn:p:a"));
            if let Term::Iri(text) = &said[0].object {
                assert!(text.starts_with("http://h/"));
            }
        }
    }
}

#[test]
fn a_message_with_brackets_shares_no_node_with_one_without() {
    let log = "PREFIX : <urn:x:>\n[ :p _:b1 ] :q _:b .\nMESSAGE\n_:b1 :p _:b , _:m1_b .\n";
    let doc = replay(log);
    let mut graphs: Vec<Vec<String>> = Vec::new();
    for t in doc.facts.iter().filter(|t| t.predicate == name_of()) {
        let mut labels: Vec<String> = Vec::new();
        collect_labels(&t.object, &mut labels);
        graphs.push(labels);
    }
    assert_eq!(graphs.len(), 2);
    assert!(graphs[0].contains(&"b1".to_string()));
    assert!(graphs[0].iter().all(|label| !graphs[1].contains(label)));
}

#[test]
fn two_messages_with_brackets_share_made_up_labels() {
    let doc = replay("PREFIX : <urn:x:>\n[] :p :o .\nMESSAGE\n[] :p :o .\n");
    let mut graphs: Vec<Vec<String>> = Vec::new();
    for t in doc.facts.iter().filter(|t| t.predicate == name_of()) {
        let mut labels: Vec<String> = Vec::new();
        collect_labels(&t.object, &mut labels);
        graphs.push(labels);
    }
    assert_eq!(graphs, vec![vec!["b1".to_string()], vec!["b1".to_string()]]);
}
