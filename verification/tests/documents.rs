use eyeron::ast::{
    Document, Literal, Rule, Term, Triple, EYERON_UNQUOTE, LOG_IMPLIED_BY, LOG_IMPLIES, LOG_QUERY,
    OWL_SAME_AS, RDF_TYPE,
};
use eyeron::parser::{boolean_literal, is_boolean_true_term, number_literal, parse_n3};

fn read(text: &str) -> Document {
    parse_n3(text, None).unwrap()
}

fn iri(text: &str) -> Term {
    Term::Iri(text.to_string())
}

fn ex(local: &str) -> Term {
    Term::Iri(format!("http://ex.org/{}", local))
}

fn var(name: &str) -> Term {
    Term::Var(name.to_string())
}

fn blank(label: &str) -> Term {
    Term::Blank(label.to_string())
}

fn literal(value: &str, datatype: Option<&str>, language: Option<&str>) -> Term {
    Term::Literal(Literal {
        value: value.to_string(),
        datatype: datatype.map(|s| s.to_string()),
        language: language.map(|s| s.to_string()),
    })
}

fn fact(subject: Term, predicate: Term, object: Term) -> Triple {
    Triple { subject, predicate, object }
}

const PREFIX: &str = "@prefix : <http://ex.org/> . ";

fn facts_of(text: &str) -> Vec<Triple> {
    read(&format!("{}{}", PREFIX, text)).facts
}

fn rules_of(text: &str) -> Vec<Rule> {
    read(&format!("{}{}", PREFIX, text)).rules
}

fn object_of(text: &str) -> Term {
    let mut facts = facts_of(&format!(":s :p {} .", text));
    assert_eq!(facts.len(), 1);
    facts.remove(0).object
}

#[test]
fn empty_text_says_nothing() {
    let doc = read("");
    assert_eq!(doc, Document::new());
    assert_eq!(read("  # a comment\n\t"), Document::new());
    assert_eq!(read(" . . "), Document::new());
}

#[test]
fn a_fact_of_iris() {
    let doc = read("<urn:a> <urn:b> <urn:c> .");
    assert_eq!(doc.facts, vec![fact(iri("urn:a"), iri("urn:b"), iri("urn:c"))]);
    assert!(doc.rules.is_empty());
    assert!(doc.prefixes.entries().is_empty());
    assert_eq!(doc.base_iri, None);
}

#[test]
fn prefixes_are_declared_and_expanded() {
    let doc = read("@prefix p: <http://a/> . PREFIX q: <http://b#> . p:x q:y p:z-1 .");
    assert_eq!(
        doc.facts,
        vec![fact(iri("http://a/x"), iri("http://b#y"), iri("http://a/z-1"))]
    );
    assert_eq!(doc.prefixes.get(&"p".to_string()), Some(&"http://a/".to_string()));
    assert_eq!(doc.prefixes.get(&"q".to_string()), Some(&"http://b#".to_string()));
    assert_eq!(doc.prefixes.get(&"r".to_string()), None);
}

#[test]
fn empty_prefix_and_inner_colon() {
    assert_eq!(facts_of(":a :b :c:d .")[0].object, iri("http://ex.org/c:d"));
    assert_eq!(facts_of(":a :b : .")[0].object, iri("http://ex.org/"));
}

#[test]
fn later_declaration_of_a_prefix_counts() {
    let doc = read("@prefix p: <urn:1:> . p:a p:a p:a . @prefix p: <urn:2:> . p:a p:a p:a .");
    assert_eq!(doc.facts[0].subject, iri("urn:1:a"));
    assert_eq!(doc.facts[1].subject, iri("urn:2:a"));
    assert_eq!(doc.prefixes.entries().len(), 1);
}

#[test]
fn prefix_iri_is_not_resolved() {
    let doc = parse_n3("@prefix p: <x#> . p:a p:b p:c .", Some("http://h/")).unwrap();
    assert_eq!(doc.facts[0].subject, iri("x#a"));
}

#[test]
fn iris_resolve_against_the_base() {
    let at = |base: Option<&str>, text: &str| {
        let doc = parse_n3(&format!("<urn:s> <urn:p> <{}> .", text), base).unwrap();
        doc.facts.into_iter().next().unwrap().object
    };
    assert_eq!(at(None, "x"), iri("x"));
    assert_eq!(at(Some("http://h/a/"), "x"), iri("http://h/a/x"));
    assert_eq!(at(Some("http://h/a#"), "x"), iri("http://h/a#x"));
    assert_eq!(at(Some("http://h/a/b"), "x"), iri("http://h/a/x"));
    assert_eq!(at(Some("http://h/a/b"), "#x"), iri("http://h/a/b#x"));
    assert_eq!(at(Some("http://h/a/b"), ""), iri("http://h/a/"));
    assert_eq!(at(Some("http://h/a/b"), "https://x"), iri("https://x"));
    assert_eq!(at(Some("http://h/a/b"), "urn:x"), iri("urn:x"));
    assert_eq!(at(Some("http://h/a/b"), "mailto:x"), iri("mailto:x"));
    assert_eq!(at(Some("http://h/a/b"), "x://y"), iri("x://y"));
    assert_eq!(at(Some("noslash"), "x"), iri("noslashx"));
    assert_eq!(at(Some(""), "x"), iri("x"));
}

#[test]
fn a_declared_base_replaces_the_given_one() {
    let doc = parse_n3(
        "<a> <urn:p> <b> . @base <http://new/> . <a> <urn:p> <b> . BASE <rel/> . <a> <urn:p> <b> .",
        Some("http://old/"),
    )
    .unwrap();
    assert_eq!(doc.facts[0], fact(iri("http://old/a"), iri("urn:p"), iri("http://old/b")));
    assert_eq!(doc.facts[1], fact(iri("http://new/a"), iri("urn:p"), iri("http://new/b")));
    assert_eq!(doc.facts[2], fact(iri("rel/a"), iri("urn:p"), iri("rel/b")));
    assert_eq!(doc.base_iri, Some("rel/".to_string()));
}

#[test]
fn resolving_twice_changes_nothing_more() {
    let once = parse_n3("<a> <b> <#c> .", Some("http://h/d/e")).unwrap();
    for t in [&once.facts[0].subject, &once.facts[0].predicate, &once.facts[0].object] {
        if let Term::Iri(text) = t {
            let again =
                parse_n3(&format!("<{}> <{}> <{}> .", text, text, text), Some("http://h/d/e"))
                    .unwrap();
            assert_eq!(&again.facts[0].subject, t);
        } else {
            panic!("not an IRI");
        }
    }
}

#[test]
fn literals() {
    assert_eq!(object_of("\"x\""), literal("x", None, None));
    assert_eq!(object_of("'x'"), literal("x", None, None));
    assert_eq!(object_of("\"\""), literal("", None, None));
    assert_eq!(object_of("\"\"\"a \"b\"\nc\"\"\""), literal("a \"b\"\nc", None, None));
    assert_eq!(object_of("'''it's'''"), literal("it's", None, None));
    assert_eq!(object_of("\"x\"@en-GB"), literal("x", None, Some("en-GB")));
    assert_eq!(object_of("\"x\"^^<urn:t>"), literal("x", Some("urn:t"), None));
    assert_eq!(object_of("\"x\"^^:t"), literal("x", Some("http://ex.org/t"), None));
    assert_eq!(object_of("\"x\"^^a"), literal("x", Some(RDF_TYPE), None));
}

#[test]
fn escapes_in_strings() {
    assert_eq!(
        object_of(r#""\t\n\r\b\f\"\'\\""#),
        literal("\t\n\r\u{8}\u{c}\"'\\", None, None)
    );
    assert_eq!(object_of(r#""\u00e9\u20AC""#), literal("\u{e9}\u{20ac}", None, None));
    assert_eq!(object_of(r#""\U0001F600x""#), literal("\u{1f600}x", None, None));
    assert_eq!(object_of(r#""\uFFFF""#), literal("\u{ffff}", None, None));
}

#[test]
fn numbers_keep_their_spelling() {
    let xsd = "http://www.w3.org/2001/XMLSchema#";
    let integer = format!("{}integer", xsd);
    let decimal = format!("{}decimal", xsd);
    assert_eq!(object_of("12"), literal("12", Some(&integer), None));
    assert_eq!(object_of("-007"), literal("-007", Some(&integer), None));
    assert_eq!(object_of("+5"), literal("+5", Some(&integer), None));
    assert_eq!(object_of("1.50"), literal("1.50", Some(&decimal), None));
    assert_eq!(object_of("1e6"), literal("1e6", Some(&decimal), None));
    assert_eq!(object_of("2.5E-3"), literal("2.5E-3", Some(&decimal), None));
    assert_eq!(number_literal("".to_string()), literal("", Some(&integer), None));
    assert_eq!(number_literal("e".to_string()), literal("e", Some(&decimal), None));
}

#[test]
fn a_dot_behind_a_number_ends_the_statement() {
    let facts = facts_of(":s :p 12.");
    assert_eq!(
        facts[0].object,
        literal("12", Some("http://www.w3.org/2001/XMLSchema#integer"), None)
    );
}

#[test]
fn booleans() {
    let datatype = "http://www.w3.org/2001/XMLSchema#boolean";
    assert_eq!(object_of("true"), literal("true", Some(datatype), None));
    assert_eq!(object_of("false"), literal("false", Some(datatype), None));
    assert_eq!(boolean_literal(true), literal("true", Some(datatype), None));
    assert!(is_boolean_true_term(&boolean_literal(true)));
    assert!(!is_boolean_true_term(&boolean_literal(false)));
    assert!(!is_boolean_true_term(&literal("true", None, None)));
    assert!(!is_boolean_true_term(&literal("true", Some(datatype), Some("en"))));
    assert!(!is_boolean_true_term(&literal("true", Some("urn:x"), None)));
    assert!(!is_boolean_true_term(&iri("true")));
}

#[test]
fn variables_and_blank_nodes() {
    assert_eq!(
        facts_of("?x :p _:b-1 ."),
        vec![fact(var("x"), ex("p"), blank("b-1"))]
    );
}

#[test]
fn the_word_a_is_the_type_predicate() {
    assert_eq!(facts_of(":s a :T ."), vec![fact(ex("s"), iri(RDF_TYPE), ex("T"))]);
    assert_eq!(facts_of("a a a .").len(), 1);
    assert_eq!(facts_of("a a a .")[0].object, iri(RDF_TYPE));
}

#[test]
fn equals_is_the_same_as_predicate() {
    assert_eq!(facts_of(":s = :o ."), vec![fact(ex("s"), iri(OWL_SAME_AS), ex("o"))]);
}

#[test]
fn commas_and_semicolons() {
    assert_eq!(
        facts_of(":s :p :a , :b ; :q :c ;; a :T ; ."),
        vec![
            fact(ex("s"), ex("p"), ex("a")),
            fact(ex("s"), ex("p"), ex("b")),
            fact(ex("s"), ex("q"), ex("c")),
            fact(ex("s"), iri(RDF_TYPE), ex("T")),
        ]
    );
}

#[test]
fn a_subject_alone_says_nothing() {
    assert_eq!(facts_of(":s ."), vec![]);
}

#[test]
fn lists() {
    assert_eq!(object_of("()"), Term::List(vec![]));
    assert_eq!(
        object_of("(:a \"b\"@en (1) ?x)"),
        Term::List(vec![
            ex("a"),
            literal("b", None, Some("en")),
            Term::List(vec![number_literal("1".to_string())]),
            var("x"),
        ])
    );
}

#[test]
fn bracketed_blank_nodes() {
    assert_eq!(facts_of(":s :p [] ."), vec![fact(ex("s"), ex("p"), blank("b1"))]);
    assert_eq!(
        facts_of(":s :p [ :q :a ; :r [ :t :u ] ] , [ ] ."),
        vec![
            fact(ex("s"), ex("p"), blank("b1")),
            fact(blank("b1"), ex("q"), ex("a")),
            fact(blank("b1"), ex("r"), blank("b2")),
            fact(blank("b2"), ex("t"), ex("u")),
            fact(ex("s"), ex("p"), blank("b3")),
        ]
    );
    assert_eq!(
        facts_of("[ :q :a ] :p :b . ([:r 1]) :p :c ."),
        vec![
            fact(blank("b1"), ex("q"), ex("a")),
            fact(blank("b1"), ex("p"), ex("b")),
            fact(blank("b2"), ex("r"), number_literal("1".to_string())),
            fact(Term::List(vec![blank("b2")]), ex("p"), ex("c")),
        ]
    );
    assert_eq!(facts_of("[ :q :a ] ."), vec![fact(blank("b1"), ex("q"), ex("a"))]);
}

#[test]
fn labels_of_bracketed_nodes_differ() {
    let facts = facts_of("[] :p [] , [ :q [] ] .");
    let mut labels: Vec<String> = Vec::new();
    for t in &facts {
        for x in [&t.subject, &t.object] {
            if let Term::Blank(label) = x {
                if !labels.contains(label) {
                    labels.push(label.clone());
                }
            }
        }
    }
    assert_eq!(labels, vec!["b1", "b2", "b3", "b4"]);
}

#[test]
fn formulas_are_terms() {
    assert_eq!(object_of("{}"), Term::Formula(vec![]));
    assert_eq!(
        object_of("{ :a :b :c . . ?x :d \"e\" }"),
        Term::Formula(vec![
            fact(ex("a"), ex("b"), ex("c")),
            fact(var("x"), ex("d"), literal("e", None, None)),
        ])
    );
    assert_eq!(
        object_of("{ :a :b [ :c :d ] }"),
        Term::Formula(vec![
            fact(ex("a"), ex("b"), blank("b1")),
            fact(blank("b1"), ex("c"), ex("d")),
        ])
    );
}

#[test]
fn forward_rules() {
    let rules = rules_of("{ ?x a :Cat } => { ?x a :Animal } .");
    assert_eq!(
        rules,
        vec![Rule {
            premise: vec![fact(var("x"), iri(RDF_TYPE), ex("Cat"))],
            conclusion: vec![fact(var("x"), iri(RDF_TYPE), ex("Animal"))],
            is_forward: true,
        }]
    );
}

#[test]
fn backward_rules_have_their_head_on_the_left() {
    let rules = rules_of("{ ?x a :Animal } <= { ?x a :Cat } .");
    assert_eq!(
        rules,
        vec![Rule {
            premise: vec![fact(var("x"), iri(RDF_TYPE), ex("Cat"))],
            conclusion: vec![fact(var("x"), iri(RDF_TYPE), ex("Animal"))],
            is_forward: false,
        }]
    );
}

#[test]
fn queries_are_forward_rules() {
    let text = format!("{{ ?x :p ?y }} <{}> {{ ?y :q ?x }} .", LOG_QUERY);
    let rules = rules_of(&text);
    assert_eq!(
        rules,
        vec![Rule {
            premise: vec![fact(var("x"), ex("p"), var("y"))],
            conclusion: vec![fact(var("y"), ex("q"), var("x"))],
            is_forward: true,
        }]
    );
    let text = format!("{{ ?x :p ?y }} <{}> true .", LOG_QUERY);
    assert_eq!(rules_of(&text)[0].conclusion, vec![]);
}

#[test]
fn true_is_the_empty_formula() {
    let a = vec![fact(ex("a"), ex("b"), ex("c"))];
    let rule = |premise: Vec<Triple>, conclusion: Vec<Triple>, is_forward: bool| {
        vec![Rule { premise, conclusion, is_forward }]
    };
    assert_eq!(rules_of("true => { :a :b :c } ."), rule(vec![], a.clone(), true));
    assert_eq!(rules_of("true <= { :a :b :c } ."), rule(a.clone(), vec![], false));
    assert_eq!(rules_of("{ :a :b :c } => true ."), rule(a.clone(), vec![], true));
    assert_eq!(rules_of("{ :a :b :c } <= true ."), rule(vec![], a.clone(), false));
    assert_eq!(rules_of("{} => {} ."), rule(vec![], vec![], true));
    assert_eq!(rules_of("true => true ."), rules_of("{} => {} ."));
    assert_eq!(rules_of("true <= true ."), rules_of("{} <= {} ."));
}

#[test]
fn a_conclusion_can_be_unquoted() {
    let unquote = |t: Term| vec![fact(iri(EYERON_UNQUOTE), iri(EYERON_UNQUOTE), t)];
    assert_eq!(rules_of("{ :a :b ?F } => ?F .")[0].conclusion, unquote(var("F")));
    assert_eq!(rules_of("true => :f .")[0].conclusion, unquote(ex("f")));
    assert_eq!(rules_of("true => false .")[0].conclusion, unquote(boolean_literal(false)));
}

#[test]
fn implications_inside_a_formula_are_triples() {
    let cat = Term::Formula(vec![fact(var("x"), iri(RDF_TYPE), ex("Cat"))]);
    let animal = Term::Formula(vec![fact(var("x"), iri(RDF_TYPE), ex("Animal"))]);
    assert_eq!(
        object_of("{ { ?x a :Cat } => { ?x a :Animal } . }"),
        Term::Formula(vec![fact(cat.clone(), iri(LOG_IMPLIES), animal.clone())])
    );
    assert_eq!(
        object_of("{ { ?x a :Animal } <= { ?x a :Cat } }"),
        Term::Formula(vec![fact(animal.clone(), iri(LOG_IMPLIED_BY), cat.clone())])
    );
    assert_eq!(
        object_of("{ { ?x a :Cat } => true }"),
        Term::Formula(vec![fact(cat.clone(), iri(LOG_IMPLIES), Term::Formula(vec![]))])
    );
    assert_eq!(
        object_of("{ true => ?F }"),
        Term::Formula(vec![fact(boolean_literal(true), iri(LOG_IMPLIES), var("F"))])
    );
}

#[test]
fn implication_between_terms_at_the_top_is_a_triple() {
    assert_eq!(facts_of("?F => ?G ."), vec![fact(var("F"), iri(LOG_IMPLIES), var("G"))]);
    assert_eq!(facts_of("?F <= ?G ."), vec![fact(var("F"), iri(LOG_IMPLIED_BY), var("G"))]);
    assert_eq!(
        facts_of("[ :p :q ] => [ :r :s ] ."),
        vec![
            fact(blank("b1"), ex("p"), ex("q")),
            fact(blank("b2"), ex("r"), ex("s")),
            fact(blank("b1"), iri(LOG_IMPLIES), blank("b2")),
        ]
    );
}

#[test]
fn arrows_as_later_predicates() {
    assert_eq!(
        facts_of(":s :p :o ; => :q ; <= :r ."),
        vec![
            fact(ex("s"), ex("p"), ex("o")),
            fact(ex("s"), iri(LOG_IMPLIES), ex("q")),
            fact(ex("s"), iri(LOG_IMPLIED_BY), ex("r")),
        ]
    );
}

#[test]
fn terms_may_be_predicates() {
    assert_eq!(
        facts_of(":s ?p :o . :s (1) :o . :s _:b :o ."),
        vec![
            fact(ex("s"), var("p"), ex("o")),
            fact(ex("s"), Term::List(vec![number_literal("1".to_string())]), ex("o")),
            fact(ex("s"), blank("b"), ex("o")),
        ]
    );
    assert_eq!(facts_of(":s [] :o ."), vec![fact(ex("s"), blank("b1"), ex("o"))]);
}

#[test]
fn comments_and_white_space() {
    assert_eq!(
        facts_of("# first\n:s # subject\r\n\t:p\u{a0}:o#no dot needed before\n."),
        vec![fact(ex("s"), ex("p"), ex("o"))]
    );
}

#[test]
fn statements_come_in_their_order() {
    let doc = read(&format!(
        "{} :a :b :c . {{ :d :e :f }} => {{ :g :h :i }} . :j :k :l . true => :m .",
        PREFIX
    ));
    assert_eq!(
        doc.facts,
        vec![fact(ex("a"), ex("b"), ex("c")), fact(ex("j"), ex("k"), ex("l"))]
    );
    assert_eq!(doc.rules.len(), 2);
    assert_eq!(doc.rules[0].premise, vec![fact(ex("d"), ex("e"), ex("f"))]);
    assert_eq!(doc.rules[1].premise, vec![]);
}

#[test]
fn what_was_said_before_stays_in_front() {
    let first = ":a :b :c . { :d :e :f } => true .";
    let second = ":g :h :i . { :j :k :l } <= true .";
    let both = read(&format!("{}{}{}", PREFIX, first, second));
    let one = read(&format!("{}{}", PREFIX, first));
    let two = read(&format!("{}{}", PREFIX, second));
    let mut merged = one;
    merged.merge(two);
    assert_eq!(both, merged);
}

#[test]
fn reading_gives_back_what_was_written() {
    let text = "<urn:s> <urn:p> ( \"x\"^^<urn:t> \"y\"@en \"z\" ?v _:l { ?a ?b ?c . } ) . \
                { ?x <urn:p> ?y . } => { ?y <urn:q> ?x . } . \
                { ?x <urn:r> ?y . } <= { } .";
    let doc = read(text);
    assert_eq!(
        doc.facts,
        vec![fact(
            iri("urn:s"),
            iri("urn:p"),
            Term::List(vec![
                literal("x", Some("urn:t"), None),
                literal("y", None, Some("en")),
                literal("z", None, None),
                var("v"),
                blank("l"),
                Term::Formula(vec![fact(var("a"), var("b"), var("c"))]),
            ])
        )]
    );
    assert_eq!(
        doc.rules,
        vec![
            Rule {
                premise: vec![fact(var("x"), iri("urn:p"), var("y"))],
                conclusion: vec![fact(var("y"), iri("urn:q"), var("x"))],
                is_forward: true,
            },
            Rule {
                premise: vec![],
                conclusion: vec![fact(var("x"), iri("urn:r"), var("y"))],
                is_forward: false,
            },
        ]
    );
}

#[test]
fn merging_keeps_the_first_base_and_the_later_prefix() {
    let mut a =
        parse_n3("@prefix p: <urn:1:> . @prefix q: <urn:q:> .", Some("urn:base:a")).unwrap();
    let b = parse_n3("@prefix p: <urn:2:> . p:x p:y p:z .", Some("urn:base:b")).unwrap();
    a.merge(b);
    assert_eq!(a.base_iri, Some("urn:base:a".to_string()));
    assert_eq!(a.prefixes.get(&"p".to_string()), Some(&"urn:2:".to_string()));
    assert_eq!(a.prefixes.get(&"q".to_string()), Some(&"urn:q:".to_string()));
    assert_eq!(a.facts.len(), 1);
    let mut c = Document::new();
    c.merge(a);
    assert_eq!(c.base_iri, Some("urn:base:a".to_string()));
}

#[test]
fn names_may_hold_dots_and_letters_of_any_script() {
    assert_eq!(object_of(":a.b"), ex("a.b"));
    assert_eq!(object_of(":\u{e9}t\u{e9}"), ex("\u{e9}t\u{e9}"));
    assert_eq!(facts_of(":s :p :o.")[0].object, ex("o"));
    assert_eq!(object_of(":a%20b"), ex("a%20b"));
}

#[test]
fn what_follows_does_not_change_a_document() {
    let first = format!("{} :a :b [ :c :d ] . {{ :e :f :g }} => true .", PREFIX);
    let alone = read(&first);
    let more = read(&format!("{} [ :h :i ] :j :k . true => ?F .", first));
    assert_eq!(more.facts[..alone.facts.len()], alone.facts[..]);
    assert_eq!(more.rules[..alone.rules.len()], alone.rules[..]);
    assert_eq!(
        more.facts[alone.facts.len()..],
        [fact(blank("b2"), ex("h"), ex("i")), fact(blank("b2"), ex("j"), ex("k"))]
    );
    assert_eq!(more.prefixes, alone.prefixes);
}

#[test]
fn declarations_are_not_taken_back() {
    let doc = read("@prefix p: <urn:p:> . @base <urn:b:> . @prefix q: <urn:q:> . p:a q:b p:c .");
    assert_eq!(doc.prefixes.entries().len(), 2);
    assert_eq!(doc.base_iri, Some("urn:b:".to_string()));
}

#[test]
fn a_text_that_is_written_out_is_read_back() {
    let text = "<urn:s> <urn:p> ( \"a\\\"b\\\\\n\" \"\" \"x\" @en \"y\" ^^ <urn:t> ) . \
                ?v _:b { } . { ?x ?y ?z . } => { } . { } <= { ?x ?y ( ) . } . ";
    let doc = read(text);
    assert_eq!(
        doc.facts,
        vec![
            fact(
                iri("urn:s"),
                iri("urn:p"),
                Term::List(vec![
                    literal("a\"b\\\n", None, None),
                    literal("", None, None),
                    literal("x", None, Some("en")),
                    literal("y", Some("urn:t"), None),
                ])
            ),
            fact(var("v"), blank("b"), Term::Formula(vec![])),
        ]
    );
    assert_eq!(
        doc.rules,
        vec![
            Rule {
                premise: vec![fact(var("x"), var("y"), var("z"))],
                conclusion: vec![],
                is_forward: true,
            },
            Rule {
                premise: vec![fact(var("x"), var("y"), Term::List(vec![]))],
                conclusion: vec![],
                is_forward: false,
            },
        ]
    );
}

#[test]
fn a_leading_base_acts_as_the_given_base() {
    for base in ["http://h/a/b", "rel#", "", "x y"] {
        for text in
            ["<a> <#b> \"c\"^^<d> .", "[] <p> [ ] .", "{ <a> <b> <c> } => <d> .", "<a> ,", "["]
        {
            let declared = format!("@base <{}> .\n{}", base, text);
            let shift = declared.chars().count() - text.chars().count();
            for given in [None, Some("http://other/")] {
                match (parse_n3(&declared, given), parse_n3(text, Some(base))) {
                    (Ok(one), Ok(two)) => assert_eq!(one, two),
                    (Err(one), Err(two)) => {
                        assert_eq!(one.message, two.message);
                        assert_eq!(one.offset, two.offset.map(|o| o + shift));
                    }
                    _ => panic!("{} under {}", text, base),
                }
            }
        }
    }
}

#[test]
fn two_texts_say_what_both_say() {
    let first = "<a> <b> <c> . { <d> <e> <f> } => true . # no line feed";
    let second = "@prefix p: <urn:p:> . p:g p:h [ p:i p:j ] . { } <= { p:k p:l p:m } .";
    let base = Some("http://h/");
    let both = parse_n3(&format!("{}\n{}", first, second), base).unwrap();
    let mut one = parse_n3(first, base).unwrap();
    let two = parse_n3(second, base).unwrap();
    assert_eq!(both.prefixes, two.prefixes);
    assert_eq!(both.base_iri, two.base_iri);
    one.facts.extend(two.facts);
    one.rules.extend(two.rules);
    assert_eq!(both.facts, one.facts);
    assert_eq!(both.rules, one.rules);
    let bad = "<x> <y> .";
    let alone = parse_n3(bad, base).unwrap_err();
    let behind = parse_n3(&format!("{}\n{}", first, bad), base).unwrap_err();
    assert_eq!(behind.message, alone.message);
    assert_eq!(behind.offset, alone.offset.map(|o| o + first.chars().count() + 1));
}

#[test]
fn a_query_reads_as_an_implication() {
    let query = format!("<{}>", LOG_QUERY);
    for right in ["{ :c :d :e }", "{}", "true", "{ :c", "{ :c :d :e } :x"] {
        let with = |arrow: &str| {
            parse_n3(&format!("{}{{ :a :b ?x }} {} {} .", PREFIX, arrow, right), None)
        };
        match (with("=>"), with(&query)) {
            (Ok(one), Ok(two)) => assert_eq!(one, two),
            (Err(one), Err(two)) => {
                assert_eq!(one.message, two.message);
                assert_eq!(one.offset.map(|o| o + query.len() - 2), two.offset);
            }
            _ => panic!("{}", right),
        }
    }
}

#[test]
fn commas_and_semicolons_abbreviate() {
    let full = read(
        "<urn:s> <urn:p> <urn:o> . <urn:s> <urn:p> <urn:r> . <urn:s> <urn:q> <urn:o> .",
    );
    for text in [
        "<urn:s> <urn:p> <urn:o> , <urn:r> ; <urn:q> <urn:o> .",
        "<urn:s> <urn:p> <urn:o> , <urn:r> ; ; <urn:q> <urn:o> ; ; .",
        "<urn:s> <urn:p> <urn:o> ; <urn:p> <urn:r> ;;; <urn:q> <urn:o> ; .",
    ] {
        assert_eq!(read(text), full);
    }
}

#[test]
fn a_resolved_iri_ends_as_it_is_written() {
    for base in ["http://h/a", "http://h/a/", "x#", ""] {
        for text in ["", "y", "#y", "/y", "urn:y", "../y"] {
            let doc = parse_n3(&format!("<{}> a a .", text), Some(base)).unwrap();
            if let Term::Iri(found) = &doc.facts[0].subject {
                assert!(found.ends_with(text));
            } else {
                panic!("not an IRI");
            }
        }
    }
}
