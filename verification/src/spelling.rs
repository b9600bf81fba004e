//! How facts and rules are written, and that reading gives back what was written.
use crate::ast::{DocumentView, LiteralView, RuleView, TermView, TripleView};
use crate::error::ErrorView;
use crate::grammar::{
    document, formula, formula_items, is_absolute, list_items, objects, predicates, resolve, scope,
    statement, statement_triples, statements, term, verb, Cursor, Nested, NestedItems, Scope,
};
use crate::token::{KindView, TokenView};
use vstd::prelude::*;

verus! {

/// The tokens behind the value of a literal.
pub open spec fn annotation(l: LiteralView) -> Seq<KindView> {
    match (l.datatype, l.language) {
        (Some(datatype), _) => seq![KindView::HatHat, KindView::Iri(datatype)],
        (None, Some(tag)) => seq![KindView::Lang(tag)],
        (None, None) => Seq::empty(),
    }
}

/// The tokens of a term.
pub open spec fn spelled(t: TermView) -> Seq<KindView>
    decreases t,
{
    match t {
        TermView::Iri(iri) => seq![KindView::Iri(iri)],
        TermView::Var(name) => seq![KindView::Var(name)],
        TermView::Blank(label) => seq![KindView::Blank(label)],
        TermView::Literal(l) => seq![KindView::String(l.value)] + annotation(l),
        TermView::List(items) => seq![KindView::LParen] + spelled_terms(items) + seq![
            KindView::RParen,
        ],
        TermView::Formula(items) => seq![KindView::LBrace] + spelled_triples(items) + seq![
            KindView::RBrace,
        ],
    }
}

/// The tokens of the items of a list.
pub open spec fn spelled_terms(items: Seq<TermView>) -> Seq<KindView>
    decreases items,
{
    if items.len() == 0 {
        Seq::empty()
    } else {
        spelled(items[0]) + spelled_terms(items.subrange(1, items.len() as int))
    }
}

/// The tokens of a triple.
pub open spec fn spelled_triple(t: TripleView) -> Seq<KindView>
    decreases t,
{
    spelled(t.subject) + spelled(t.predicate) + spelled(t.object)
}

/// The tokens of triples, each with a dot behind it.
pub open spec fn spelled_triples(items: Seq<TripleView>) -> Seq<KindView>
    decreases items,
{
    if items.len() == 0 {
        Seq::empty()
    } else {
        spelled_triple(items[0]).push(KindView::Dot) + spelled_triples(
            items.subrange(1, items.len() as int),
        )
    }
}

/// The tokens of a formula.
pub open spec fn spelled_formula(items: Seq<TripleView>) -> Seq<KindView> {
    seq![KindView::LBrace] + spelled_triples(items) + seq![KindView::RBrace]
}

/// The tokens of a rule: its conclusion stands where the arrow points.
pub open spec fn spelled_rule(rule: RuleView) -> Seq<KindView> {
    if rule.is_forward {
        spelled_formula(rule.premise).push(KindView::Arrow) + spelled_formula(
            rule.conclusion,
        ).push(KindView::Dot)
    } else {
        spelled_formula(rule.conclusion).push(KindView::BackArrow) + spelled_formula(
            rule.premise,
        ).push(KindView::Dot)
    }
}

/// The tokens of rules.
pub open spec fn spelled_rules(rules: Seq<RuleView>) -> Seq<KindView>
    decreases rules.len(),
{
    if rules.len() == 0 {
        Seq::empty()
    } else {
        spelled_rule(rules[0]) + spelled_rules(rules.subrange(1, rules.len() as int))
    }
}

/// A term in which no literal has both a datatype and a language.
pub open spec fn sound(t: TermView) -> bool
    decreases t,
{
    match t {
        TermView::Literal(l) => l.datatype is None || l.language is None,
        TermView::List(items) => forall|i: int|
            0 <= i < items.len() ==> sound(#[trigger] items[i]),
        TermView::Formula(items) => forall|i: int|
            0 <= i < items.len() ==> sound_triple(#[trigger] items[i]),
        _ => true,
    }
}

/// A triple in whose terms no literal has both a datatype and a language.
pub open spec fn sound_triple(t: TripleView) -> bool
    decreases t,
{
    sound(t.subject) && sound(t.predicate) && sound(t.object)
}

/// Triples in whose terms no literal has both a datatype and a language.
pub open spec fn sound_triples(items: Seq<TripleView>) -> bool {
    forall|i: int| 0 <= i < items.len() ==> sound_triple(#[trigger] items[i])
}

/// Rules in whose terms no literal has both a datatype and a language.
pub open spec fn sound_rules(rules: Seq<RuleView>) -> bool {
    forall|i: int|
        0 <= i < rules.len() ==> sound_triples((#[trigger] rules[i]).premise) && sound_triples(
            rules[i].conclusion,
        )
}

/// A term as it is meant under a base.
pub open spec fn resolved(base: Option<Seq<char>>, t: TermView) -> TermView
    decreases t,
{
    match t {
        TermView::Iri(iri) => TermView::Iri(resolve(base, iri)),
        TermView::Literal(l) => TermView::Literal(
            LiteralView {
                datatype: match l.datatype {
                    Some(datatype) => Some(resolve(base, datatype)),
                    None => None,
                },
                ..l
            },
        ),
        TermView::List(items) => TermView::List(resolved_terms(base, items)),
        TermView::Formula(items) => TermView::Formula(resolved_triples(base, items)),
        _ => t,
    }
}

/// Terms as they are meant under a base.
pub open spec fn resolved_terms(base: Option<Seq<char>>, items: Seq<TermView>) -> Seq<TermView>
    decreases items,
{
    if items.len() == 0 {
        Seq::empty()
    } else {
        seq![resolved(base, items[0])] + resolved_terms(
            base,
            items.subrange(1, items.len() as int),
        )
    }
}

/// A triple as it is meant under a base.
pub open spec fn resolved_triple(base: Option<Seq<char>>, t: TripleView) -> TripleView
    decreases t,
{
    TripleView {
        subject: resolved(base, t.subject),
        predicate: resolved(base, t.predicate),
        object: resolved(base, t.object),
    }
}

/// Triples as they are meant under a base.
pub open spec fn resolved_triples(base: Option<Seq<char>>, items: Seq<TripleView>) -> Seq<
    TripleView,
>
    decreases items,
{
    if items.len() == 0 {
        Seq::empty()
    } else {
        seq![resolved_triple(base, items[0])] + resolved_triples(
            base,
            items.subrange(1, items.len() as int),
        )
    }
}

/// A rule as it is meant under a base.
pub open spec fn resolved_rule(base: Option<Seq<char>>, rule: RuleView) -> RuleView {
    RuleView {
        premise: resolved_triples(base, rule.premise),
        conclusion: resolved_triples(base, rule.conclusion),
        is_forward: rule.is_forward,
    }
}

/// Rules as they are meant under a base.
pub open spec fn resolved_rules(base: Option<Seq<char>>, rules: Seq<RuleView>) -> Seq<RuleView> {
    rules.map_values(|rule: RuleView| resolved_rule(base, rule))
}

/// Whether the tokens from index `at` on are of the given kinds. There are more tokens behind them.
pub open spec fn written(s: Scope, at: int, kinds: Seq<KindView>) -> bool {
    &&& 0 <= at
    &&& at + kinds.len() < s.tokens.len()
    &&& forall|k: int| 0 <= k < kinds.len() ==> s.tokens[at + k].kind == #[trigger] kinds[k]
}

/// The place `n` tokens behind another.
pub open spec fn ahead(c: Cursor, n: nat) -> Cursor {
    Cursor { pos: c.pos + n, blanks: c.blanks }
}

/// A kind that the tokens of a term begin with.
pub open spec fn begins_term(kind: KindView) -> bool {
    ||| kind is Iri
    ||| kind is Var
    ||| kind is Blank
    ||| kind is String
    ||| kind is LParen
    ||| kind is LBrace
}

/// A kind that, behind a string, belongs to the literal.
pub open spec fn annotates(kind: KindView) -> bool {
    kind is HatHat || kind is Lang
}

/// The tokens of a term begin with one that begins a term.
pub proof fn lemma_begins(t: TermView)
    ensures
        spelled(t).len() > 0,
        begins_term(spelled(t)[0]),
        t is Formula <==> spelled(t)[0] is LBrace,
{
}

/// Tokens that are written one behind the other are each written.
pub proof fn lemma_written(s: Scope, at: int, a: Seq<KindView>, b: Seq<KindView>)
    requires
        written(s, at, a + b),
    ensures
        written(s, at, a),
        written(s, at + a.len(), b),
        b.len() > 0 ==> s.tokens[at + a.len()].kind == b[0],
{
    assert forall|k: int| 0 <= k < a.len() implies s.tokens[at + k].kind == #[trigger] a[k] by {
        assert((a + b)[k] == a[k]);
    }
    assert forall|k: int| 0 <= k < b.len() implies s.tokens[at + a.len() + k].kind
        == #[trigger] b[k] by {
        assert((a + b)[a.len() + k] == b[k]);
    }
}

/// A term that is written is read.
pub proof fn lemma_reads_term(s: Scope, c: Cursor, t: TermView)
    requires
        written(s, c.pos, spelled(t)),
        sound(t),
        !annotates(s.peek(ahead(c, spelled(t).len()))),
    ensures
        term(s, c) == Ok::<(Nested, Cursor), ErrorView>(
            (
                Nested { term: resolved(s.base, t), triples: Seq::empty() },
                ahead(c, spelled(t).len()),
            ),
        ),
    decreases t, 0nat,
{
    lemma_begins(t);
    let kinds = spelled(t);
    assert(s.peek(c) == kinds[0]);
    match t {
        TermView::Literal(l) => {
            let d = s.step(c);
            assert(d == ahead(c, 1));
            if let Some(datatype) = l.datatype {
                assert(s.peek(d) == kinds[1]);
                assert(s.tokens[c.pos + 2].kind == kinds[2]);
                assert(s.peek(s.step(d)) == KindView::Iri(datatype));
                assert(s.step(s.step(d)) == ahead(c, 3));
                assert(term(s, s.step(d)) == Ok::<(Nested, Cursor), ErrorView>(
                    (
                        Nested {
                            term: TermView::Iri(resolve(s.base, datatype)),
                            triples: Seq::empty(),
                        },
                        ahead(c, 3),
                    ),
                ));
            } else if l.language is Some {
                assert(s.peek(d) == kinds[1]);
                assert(s.step(d) == ahead(c, 2));
            }
        },
        TermView::List(items) => {
            let inner = spelled_terms(items);
            let d = ahead(c, 1);
            lemma_written(s, c.pos, seq![KindView::LParen] + inner, seq![KindView::RParen]);
            lemma_written(s, c.pos, seq![KindView::LParen], inner);
            lemma_reads_items(s, d, items);
        },
        TermView::Formula(items) => {
            lemma_reads_formula(s, c, items);
        },
        _ => {},
    }
}

proof fn lemma_reads_items(s: Scope, c: Cursor, items: Seq<TermView>)
    requires
        written(s, c.pos, spelled_terms(items)),
        forall|i: int| 0 <= i < items.len() ==> sound(#[trigger] items[i]),
        s.peek(ahead(c, spelled_terms(items).len())) is RParen,
    ensures
        list_items(s, c) == Ok::<(NestedItems, Cursor), ErrorView>(
            (
                NestedItems { items: resolved_terms(s.base, items), triples: Seq::empty() },
                ahead(c, spelled_terms(items).len()),
            ),
        ),
    decreases items, 0nat,
{
    if items.len() > 0 {
        let first = items[0];
        let rest = items.subrange(1, items.len() as int);
        let d = ahead(c, spelled(first).len());
        lemma_written(s, c.pos, spelled(first), spelled_terms(rest));
        lemma_begins(first);
        assert(s.peek(c) == spelled(first)[0]);
        if rest.len() > 0 {
            lemma_begins(rest[0]);
            assert(spelled_terms(rest)[0] == spelled(rest[0])[0]);
        }
        lemma_reads_term(s, c, first);
        lemma_reads_items(s, d, rest);
        assert(Seq::<TripleView>::empty() + Seq::<TripleView>::empty() =~= Seq::empty());
    }
}

proof fn lemma_reads_triple(s: Scope, c: Cursor, t: TripleView)
    requires
        written(s, c.pos, spelled_triple(t)),
        sound_triple(t),
        s.peek(ahead(c, spelled_triple(t).len())) is Dot,
    ensures
        statement_triples(s, c) == Ok::<(Seq<TripleView>, Cursor), ErrorView>(
            (seq![resolved_triple(s.base, t)], ahead(c, spelled_triple(t).len())),
        ),
    decreases t, 0nat,
{
    let subject = spelled(t.subject);
    let predicate = spelled(t.predicate);
    let object = spelled(t.object);
    lemma_begins(t.subject);
    lemma_begins(t.predicate);
    lemma_begins(t.object);
    lemma_written(s, c.pos, subject + predicate, object);
    lemma_written(s, c.pos, subject, predicate);
    let d = ahead(c, subject.len());
    let e = ahead(d, predicate.len());
    lemma_reads_term(s, c, t.subject);
    lemma_reads_term(s, d, t.predicate);
    lemma_reads_term(s, e, t.object);
    let meant = resolved_triple(s.base, t);
    let none = Seq::<TripleView>::empty();
    assert(seq![meant] + none =~= seq![meant]);
    assert(none + seq![meant] =~= seq![meant]);
    assert(verb(s, d) == Ok::<(TermView, Cursor), ErrorView>((meant.predicate, e)));
    assert(objects(s, e, meant.subject, meant.predicate) == Ok::<
        (Seq<TripleView>, Cursor),
        ErrorView,
    >((seq![meant], ahead(e, object.len()))));
    assert(predicates(s, d, meant.subject) == Ok::<(Seq<TripleView>, Cursor), ErrorView>(
        (seq![meant], ahead(e, object.len())),
    ));
}

proof fn lemma_reads_triples(s: Scope, c: Cursor, items: Seq<TripleView>)
    requires
        written(s, c.pos, spelled_triples(items)),
        sound_triples(items),
        s.peek(ahead(c, spelled_triples(items).len())) is RBrace,
    ensures
        formula_items(s, c) == Ok::<(Seq<TripleView>, Cursor), ErrorView>(
            (resolved_triples(s.base, items), ahead(c, spelled_triples(items).len())),
        ),
    decreases items, 0nat,
{
    if items.len() > 0 {
        let first = items[0];
        let rest = items.subrange(1, items.len() as int);
        let kinds = spelled_triple(first);
        lemma_written(s, c.pos, kinds.push(KindView::Dot), spelled_triples(rest));
        assert(kinds.push(KindView::Dot) =~= kinds + seq![KindView::Dot]);
        lemma_written(s, c.pos, kinds, seq![KindView::Dot]);
        lemma_begins(first.subject);
        assert(s.peek(c) == spelled(first.subject)[0]) by {
            assert(kinds[0] == spelled(first.subject)[0]);
        }
        lemma_reads_triple(s, c, first);
        lemma_reads_triples(s, ahead(c, kinds.len() + 1), rest);
    }
}

proof fn lemma_reads_formula(s: Scope, c: Cursor, items: Seq<TripleView>)
    requires
        written(s, c.pos, spelled_formula(items)),
        sound_triples(items),
    ensures
        formula(s, c) == Ok::<(Seq<TripleView>, Cursor), ErrorView>(
            (resolved_triples(s.base, items), ahead(c, spelled_formula(items).len())),
        ),
    decreases items, 1nat,
{
    let inner = spelled_triples(items);
    lemma_written(s, c.pos, seq![KindView::LBrace] + inner, seq![KindView::RBrace]);
    lemma_written(s, c.pos, seq![KindView::LBrace], inner);
    assert(s.peek(c) == spelled_formula(items)[0]);
    assert(s.step(c) == ahead(c, 1));
    lemma_reads_triples(s, ahead(c, 1), items);
    let e = ahead(c, 1 + inner.len());
    assert(s.peek(e) is RBrace);
    assert(s.step(e) == ahead(c, spelled_formula(items).len()));
}

proof fn lemma_reads_rule(tokens: Seq<TokenView>, doc: DocumentView, c: Cursor, rule: RuleView)
    requires
        written(scope(tokens, doc), c.pos, spelled_rule(rule)),
        sound_triples(rule.premise),
        sound_triples(rule.conclusion),
    ensures
        statement(tokens, doc, c) == Ok::<(DocumentView, Cursor), ErrorView>(
            (
                DocumentView { rules: doc.rules.push(resolved_rule(doc.base_iri, rule)), ..doc },
                ahead(c, spelled_rule(rule).len()),
            ),
        ),
{
    let s = scope(tokens, doc);
    let (left, right, arrow) = if rule.is_forward {
        (rule.premise, rule.conclusion, KindView::Arrow)
    } else {
        (rule.conclusion, rule.premise, KindView::BackArrow)
    };
    let front = spelled_formula(left);
    let back = spelled_formula(right);
    assert(front.push(arrow) =~= front + seq![arrow]);
    assert(back.push(KindView::Dot) =~= back + seq![KindView::Dot]);
    lemma_written(s, c.pos, front.push(arrow), back.push(KindView::Dot));
    lemma_written(s, c.pos, front, seq![arrow]);
    let d = ahead(c, front.len() + 1);
    lemma_written(s, d.pos, back, seq![KindView::Dot]);
    lemma_reads_formula(s, c, left);
    lemma_reads_formula(s, d, right);
    assert(s.peek(c) == front[0]);
    assert(s.peek(d) == back[0]);
    assert(s.step(ahead(c, front.len())) == d);
}

/// Reading goes on behind a rule from what it says.
proof fn lemma_goes_past_rule(tokens: Seq<TokenView>, doc: DocumentView, c: Cursor, rule: RuleView)
    requires
        written(scope(tokens, doc), c.pos, spelled_rule(rule)),
        sound_triples(rule.premise),
        sound_triples(rule.conclusion),
    ensures
        statements(tokens, doc, c) == statements(
            tokens,
            DocumentView { rules: doc.rules.push(resolved_rule(doc.base_iri, rule)), ..doc },
            ahead(c, spelled_rule(rule).len()),
        ),
{
    lemma_reads_rule(tokens, doc, c, rule);
    assert(tokens[c.pos + 0].kind == spelled_rule(rule)[0]);
}

proof fn lemma_reads_rules(
    tokens: Seq<TokenView>,
    doc: DocumentView,
    c: Cursor,
    rules: Seq<RuleView>,
)
    requires
        written(scope(tokens, doc), c.pos, spelled_rules(rules)),
        c.pos + spelled_rules(rules).len() == tokens.len() - 1,
        tokens.last().kind is Eof,
        sound_rules(rules),
    ensures
        statements(tokens, doc, c) == Ok::<DocumentView, ErrorView>(
            DocumentView { rules: doc.rules + resolved_rules(doc.base_iri, rules), ..doc },
        ),
    decreases rules.len(),
{
    let meant = resolved_rules(doc.base_iri, rules);
    if rules.len() == 0 {
        assert(doc.rules + meant =~= doc.rules);
    } else {
        let first = rules[0];
        let rest = rules.subrange(1, rules.len() as int);
        let next = DocumentView {
            rules: doc.rules.push(resolved_rule(doc.base_iri, first)),
            ..doc
        };
        let d = ahead(c, spelled_rule(first).len());
        lemma_written(scope(tokens, doc), c.pos, spelled_rule(first), spelled_rules(rest));
        lemma_goes_past_rule(tokens, doc, c, first);
        lemma_reads_rules(tokens, next, d, rest);
        assert(next.rules + resolved_rules(doc.base_iri, rest) =~= doc.rules + meant);
    }
}

/// Reading goes on behind facts from what they say.
pub proof fn lemma_reads_facts(
    tokens: Seq<TokenView>,
    doc: DocumentView,
    c: Cursor,
    facts: Seq<TripleView>,
)
    requires
        written(scope(tokens, doc), c.pos, spelled_triples(facts)),
        sound_triples(facts),
        forall|i: int| 0 <= i < facts.len() ==> !((#[trigger] facts[i]).subject is Formula),
    ensures
        statements(tokens, doc, c) == statements(
            tokens,
            DocumentView { facts: doc.facts + resolved_triples(doc.base_iri, facts), ..doc },
            ahead(c, spelled_triples(facts).len()),
        ),
    decreases facts.len(),
{
    let meant = resolved_triples(doc.base_iri, facts);
    if facts.len() == 0 {
        assert(doc.facts + meant =~= doc.facts);
    } else {
        let s = scope(tokens, doc);
        let first = facts[0];
        let rest = facts.subrange(1, facts.len() as int);
        let kinds = spelled_triple(first);
        let next = DocumentView {
            facts: doc.facts + seq![resolved_triple(doc.base_iri, first)],
            ..doc
        };
        let d = ahead(c, kinds.len() + 1);
        lemma_written(s, c.pos, kinds.push(KindView::Dot), spelled_triples(rest));
        assert(kinds.push(KindView::Dot) =~= kinds + seq![KindView::Dot]);
        lemma_written(s, c.pos, kinds, seq![KindView::Dot]);
        lemma_begins(first.subject);
        assert(s.peek(c) == spelled(first.subject)[0]) by {
            assert(kinds[0] == spelled(first.subject)[0]);
        }
        lemma_reads_triple(s, c, first);
        assert(statement(tokens, doc, c) == Ok::<(DocumentView, Cursor), ErrorView>((next, d)));
        lemma_reads_facts(tokens, next, d, rest);
        assert(next.facts + resolved_triples(doc.base_iri, rest) =~= doc.facts + meant);
    }
}

/// Reading gives what was written as it is meant under the base: facts, none of them with a formula
/// as its subject, and rules make a document that says them in their order and nothing else.
pub proof fn law_reading_resolves_writing(
    tokens: Seq<TokenView>,
    base: Option<Seq<char>>,
    facts: Seq<TripleView>,
    rules: Seq<RuleView>,
)
    requires
        tokens.map_values(|t: TokenView| t.kind) == (spelled_triples(facts) + spelled_rules(
            rules,
        )).push(KindView::Eof),
        sound_triples(facts),
        sound_rules(rules),
        forall|i: int| 0 <= i < facts.len() ==> !((#[trigger] facts[i]).subject is Formula),
    ensures
        document(tokens, base) == Ok::<DocumentView, ErrorView>(
            DocumentView {
                prefixes: Map::empty(),
                base_iri: base,
                facts: resolved_triples(base, facts),
                rules: resolved_rules(base, rules),
            },
        ),
{
    let kinds = spelled_triples(facts) + spelled_rules(rules);
    let start = DocumentView { base_iri: base, ..DocumentView::empty() };
    let c = Cursor { pos: 0, blanks: 0 };
    let s = scope(tokens, start);
    let found = tokens.map_values(|t: TokenView| t.kind);
    let said = resolved_triples(base, facts);
    let meant = resolved_rules(base, rules);
    assert(tokens.len() == found.len());
    assert forall|k: int| 0 <= k < kinds.len() implies tokens[0 + k].kind
        == #[trigger] kinds[k] by {
        assert(found[k] == kinds.push(KindView::Eof)[k]);
    }
    assert(tokens.last().kind == found.last());
    assert(written(s, 0, kinds));
    lemma_written(s, 0, spelled_triples(facts), spelled_rules(rules));
    let told = DocumentView { facts: start.facts + said, ..start };
    lemma_reads_facts(tokens, start, c, facts);
    lemma_reads_rules(tokens, told, ahead(c, spelled_triples(facts).len()), rules);
    assert(start.facts + said =~= said);
    assert(start.rules + meant =~= meant);
}

/// Facts and rules whose IRIs a base does not change are given back as they are.
pub proof fn law_reading_undoes_writing(
    tokens: Seq<TokenView>,
    base: Option<Seq<char>>,
    facts: Seq<TripleView>,
    rules: Seq<RuleView>,
)
    requires
        tokens.map_values(|t: TokenView| t.kind) == (spelled_triples(facts) + spelled_rules(
            rules,
        )).push(KindView::Eof),
        sound_triples(facts),
        sound_rules(rules),
        forall|i: int| 0 <= i < facts.len() ==> !((#[trigger] facts[i]).subject is Formula),
        resolved_triples(base, facts) == facts,
        resolved_rules(base, rules) == rules,
    ensures
        document(tokens, base) == Ok::<DocumentView, ErrorView>(
            DocumentView { prefixes: Map::empty(), base_iri: base, facts, rules },
        ),
{
    law_reading_resolves_writing(tokens, base, facts, rules);
}

/// Without a base, and where all IRIs are absolute, terms are meant as they are written.
pub proof fn law_terms_are_meant_as_written(base: Option<Seq<char>>, t: TermView)
    requires
        base is None || absolute(t),
    ensures
        resolved(base, t) == t,
    decreases t,
{
    match t {
        TermView::List(items) => {
            lemma_terms_as_written(base, items);
        },
        TermView::Formula(items) => {
            law_triples_are_meant_as_written(base, items);
        },
        _ => {},
    }
}

/// A term with none but absolute IRIs in it.
pub open spec fn absolute(t: TermView) -> bool
    decreases t,
{
    match t {
        TermView::Iri(iri) => is_absolute(iri),
        TermView::Literal(l) => l.datatype matches Some(datatype) ==> is_absolute(datatype),
        TermView::List(items) => forall|i: int|
            0 <= i < items.len() ==> absolute(#[trigger] items[i]),
        TermView::Formula(items) => forall|i: int|
            0 <= i < items.len() ==> absolute_triple(#[trigger] items[i]),
        _ => true,
    }
}

/// A triple with none but absolute IRIs in it.
pub open spec fn absolute_triple(t: TripleView) -> bool
    decreases t,
{
    absolute(t.subject) && absolute(t.predicate) && absolute(t.object)
}

proof fn lemma_terms_as_written(base: Option<Seq<char>>, items: Seq<TermView>)
    requires
        base is None || forall|i: int| 0 <= i < items.len() ==> absolute(#[trigger] items[i]),
    ensures
        resolved_terms(base, items) == items,
    decreases items,
{
    if items.len() > 0 {
        law_terms_are_meant_as_written(base, items[0]);
        lemma_terms_as_written(base, items.subrange(1, items.len() as int));
    }
    assert(resolved_terms(base, items) =~= items);
}

/// Without a base, and where all IRIs are absolute, triples are meant as they are written.
pub proof fn law_triples_are_meant_as_written(base: Option<Seq<char>>, items: Seq<TripleView>)
    requires
        base is None || forall|i: int|
            0 <= i < items.len() ==> absolute_triple(#[trigger] items[i]),
    ensures
        resolved_triples(base, items) == items,
    decreases items,
{
    if items.len() > 0 {
        let first = items[0];
        law_terms_are_meant_as_written(base, first.subject);
        law_terms_are_meant_as_written(base, first.predicate);
        law_terms_are_meant_as_written(base, first.object);
        assert(resolved_triple(base, first) == first);
        law_triples_are_meant_as_written(base, items.subrange(1, items.len() as int));
    }
    assert(resolved_triples(base, items) =~= items);
}

} // verus!
