//! What commas and semicolons stand for.
use crate::ast::{triple, DocumentView, RuleView, TermView, TripleView};
use crate::error::ErrorView;
use crate::grammar::{
    content, document, n3, objects, predicates, resolve, scope, skip_semicolons, statement,
    statement_triples, statements, verb, Cursor, Scope,
};
use crate::lexer::lex_text;
use crate::spelling::{
    ahead, annotates, begins_term, lemma_begins, lemma_reads_term, lemma_written, resolved,
    resolved_rules, resolved_triple, resolved_triples, sound, sound_triple, spelled, spelled_rules,
    spelled_triple, spelled_triples, written,
};
use crate::token::{KindView, TokenView};
use crate::writing::{law_sentence_spells, law_text_is_read_back, plain, sentence, spells};
use vstd::prelude::*;

verus! {

/// A predicate with its objects, and the number of semicolons behind them.
pub struct Group {
    pub predicate: TermView,
    pub objects: Seq<TermView>,
    pub semicolons: nat,
}

/// The tokens of objects with commas between them.
pub open spec fn spelled_objects(items: Seq<TermView>) -> Seq<KindView>
    decreases items.len(),
{
    if items.len() == 0 {
        Seq::empty()
    } else if items.len() == 1 {
        spelled(items[0])
    } else {
        spelled(items[0]).push(KindView::Comma) + spelled_objects(
            items.subrange(1, items.len() as int),
        )
    }
}

/// So many semicolons.
pub open spec fn semicolons(n: nat) -> Seq<KindView> {
    Seq::new(n, |i: int| KindView::Semicolon)
}

/// The tokens of predicates with their objects.
pub open spec fn spelled_groups(groups: Seq<Group>) -> Seq<KindView>
    decreases groups.len(),
{
    if groups.len() == 0 {
        Seq::empty()
    } else {
        spelled(groups[0].predicate) + (spelled_objects(groups[0].objects) + (semicolons(
            groups[0].semicolons,
        ) + spelled_groups(groups.subrange(1, groups.len() as int))))
    }
}

/// The tokens of a statement with one subject.
pub open spec fn abbreviated(subject: TermView, groups: Seq<Group>) -> Seq<KindView> {
    (spelled(subject) + spelled_groups(groups)).push(KindView::Dot)
}

/// The triples of a subject and a predicate with each of the objects.
pub open spec fn object_facts(
    subject: TermView,
    predicate: TermView,
    items: Seq<TermView>,
) -> Seq<TripleView> {
    Seq::new(items.len(), |i: int| triple(subject, predicate, items[i]))
}

/// The triples of a subject with each predicate and each of its objects.
pub open spec fn group_facts(subject: TermView, groups: Seq<Group>) -> Seq<TripleView>
    decreases groups.len(),
{
    if groups.len() == 0 {
        Seq::empty()
    } else {
        object_facts(subject, groups[0].predicate, groups[0].objects) + group_facts(
            subject,
            groups.subrange(1, groups.len() as int),
        )
    }
}

/// Each predicate has an object, and each but the last one has a semicolon behind its objects.
pub open spec fn grouped(groups: Seq<Group>) -> bool {
    &&& forall|i: int| 0 <= i < groups.len() ==> (#[trigger] groups[i]).objects.len() > 0
    &&& forall|i: int| 0 <= i < groups.len() - 1 ==> (#[trigger] groups[i]).semicolons > 0
}

/// Terms in which no literal has both a datatype and a language.
pub open spec fn sound_terms(items: Seq<TermView>) -> bool {
    forall|i: int| 0 <= i < items.len() ==> sound(#[trigger] items[i])
}

/// Predicates and objects in which no literal has both a datatype and a language.
pub open spec fn sound_groups(groups: Seq<Group>) -> bool {
    forall|i: int|
        0 <= i < groups.len() ==> sound((#[trigger] groups[i]).predicate) && sound_terms(
            groups[i].objects,
        )
}

proof fn lemma_resolved_join(base: Option<Seq<char>>, a: Seq<TripleView>, b: Seq<TripleView>)
    ensures
        resolved_triples(base, a + b) == resolved_triples(base, a) + resolved_triples(base, b),
    decreases a.len(),
{
    if a.len() == 0 {
        assert(a + b =~= b);
        assert(Seq::<TripleView>::empty() + resolved_triples(base, b) =~= resolved_triples(
            base,
            b,
        ));
    } else {
        let rest = a.subrange(1, a.len() as int);
        let first = seq![resolved_triple(base, a[0])];
        lemma_resolved_join(base, rest, b);
        assert((a + b).subrange(1, (a + b).len() as int) =~= rest + b);
        assert(first + (resolved_triples(base, rest) + resolved_triples(base, b)) =~= first
            + resolved_triples(base, rest) + resolved_triples(base, b));
    }
}

proof fn lemma_reads_objects(
    s: Scope,
    c: Cursor,
    subject: TermView,
    predicate: TermView,
    items: Seq<TermView>,
)
    requires
        items.len() > 0,
        written(s, c.pos, spelled_objects(items)),
        sound_terms(items),
        !annotates(s.peek(ahead(c, spelled_objects(items).len()))),
        !(s.peek(ahead(c, spelled_objects(items).len())) is Comma),
    ensures
        objects(s, c, resolved(s.base, subject), resolved(s.base, predicate)) == Ok::<
            (Seq<TripleView>, Cursor),
            ErrorView,
        >(
            (
                resolved_triples(s.base, object_facts(subject, predicate, items)),
                ahead(c, spelled_objects(items).len()),
            ),
        ),
    decreases items.len(),
{
    let first = items[0];
    let kinds = spelled(first);
    let facts = object_facts(subject, predicate, items);
    let more = facts.subrange(1, facts.len() as int);
    let said = seq![resolved_triple(s.base, facts[0])];
    let rest = items.subrange(1, items.len() as int);
    assert(said + Seq::<TripleView>::empty() =~= said);
    assert(more =~= object_facts(subject, predicate, rest));
    if items.len() == 1 {
        lemma_reads_term(s, c, first);
        assert(resolved_triples(s.base, more) =~= Seq::empty());
    } else {
        let d = ahead(c, kinds.len());
        let e = ahead(d, 1);
        lemma_written(s, c.pos, kinds.push(KindView::Comma), spelled_objects(rest));
        assert(kinds.push(KindView::Comma) =~= kinds + seq![KindView::Comma]);
        lemma_written(s, c.pos, kinds, seq![KindView::Comma]);
        lemma_reads_term(s, c, first);
        lemma_reads_objects(s, e, subject, predicate, rest);
        assert(s.step(d) == e);
    }
}

proof fn lemma_reads_semicolons(s: Scope, c: Cursor, n: nat)
    requires
        written(s, c.pos, semicolons(n)),
        !(s.peek(ahead(c, n)) is Semicolon),
    ensures
        skip_semicolons(s, c) == ahead(c, n),
    decreases n,
{
    if n > 0 {
        let rest = semicolons((n - 1) as nat);
        assert(semicolons(n) =~= seq![KindView::Semicolon] + rest);
        lemma_written(s, c.pos, seq![KindView::Semicolon], rest);
        assert(s.peek(c) == semicolons(n)[0]);
        lemma_reads_semicolons(s, ahead(c, 1), (n - 1) as nat);
    }
}

/// What stands behind the objects of the first group.
proof fn lemma_behind_objects(groups: Seq<Group>)
    requires
        groups.len() > 0,
        grouped(groups),
    ensures
        ({
            let rest = spelled_groups(groups.subrange(1, groups.len() as int));
            let tail = semicolons(groups[0].semicolons) + rest;
            &&& groups[0].semicolons > 0 ==> tail.len() > 0 && tail[0] is Semicolon
            &&& groups[0].semicolons == 0 ==> tail.len() == 0 && groups.len() == 1
            &&& rest.len() > 0 ==> begins_term(rest[0])
            &&& grouped(groups.subrange(1, groups.len() as int))
        }),
{
    let rest = groups.subrange(1, groups.len() as int);
    assert forall|i: int| 0 <= i < rest.len() implies (#[trigger] rest[i]).objects.len() > 0 by {
        assert(rest[i] == groups[i + 1]);
    }
    assert forall|i: int| 0 <= i < rest.len() - 1 implies (#[trigger] rest[i]).semicolons > 0 by {
        assert(rest[i] == groups[i + 1]);
    }
    if rest.len() > 0 {
        lemma_begins(rest[0].predicate);
    }
}

proof fn lemma_reads_groups(s: Scope, c: Cursor, subject: TermView, groups: Seq<Group>)
    requires
        grouped(groups),
        sound_groups(groups),
        written(s, c.pos, spelled_groups(groups)),
        s.peek(ahead(c, spelled_groups(groups).len())) is Dot,
    ensures
        predicates(s, c, resolved(s.base, subject)) == Ok::<(Seq<TripleView>, Cursor), ErrorView>(
            (
                resolved_triples(s.base, group_facts(subject, groups)),
                ahead(c, spelled_groups(groups).len()),
            ),
        ),
    decreases groups.len(),
{
    if groups.len() > 0 {
        let group = groups[0];
        let rest = groups.subrange(1, groups.len() as int);
        let p = spelled(group.predicate);
        let os = spelled_objects(group.objects);
        let ss = semicolons(group.semicolons);
        let tail = spelled_groups(rest);
        lemma_behind_objects(groups);
        lemma_written(s, c.pos, p, os + (ss + tail));
        let d = ahead(c, p.len());
        lemma_written(s, d.pos, os, ss + tail);
        let e = ahead(d, os.len());
        lemma_written(s, e.pos, ss, tail);
        let f = ahead(e, ss.len());
        lemma_begins(group.predicate);
        lemma_begins(group.objects[0]);
        assert(s.peek(c) == p[0]);
        assert(os[0] == spelled(group.objects[0])[0]);
        assert(s.peek(d) == os[0]) by {
            assert((os + (ss + tail))[0] == os[0]);
        }
        lemma_reads_term(s, c, group.predicate);
        let predicate = resolved(s.base, group.predicate);
        let said = object_facts(subject, group.predicate, group.objects);
        assert(verb(s, c) == Ok::<(TermView, Cursor), ErrorView>((predicate, d)));
        assert(group.semicolons > 0 ==> s.peek(e) is Semicolon);
        assert(group.semicolons == 0 ==> s.peek(e) is Dot);
        lemma_reads_objects(s, d, subject, group.predicate, group.objects);
        assert forall|i: int| 0 <= i < rest.len() implies sound((#[trigger] rest[i]).predicate)
            && sound_terms(rest[i].objects) by {
            assert(rest[i] == groups[i + 1]);
        }
        lemma_resolved_join(s.base, said, group_facts(subject, rest));
        if group.semicolons > 0 {
            lemma_reads_semicolons(s, e, group.semicolons);
            lemma_reads_groups(s, f, subject, rest);
        } else {
            assert(group_facts(subject, rest) =~= Seq::empty());
            assert(resolved_triples(s.base, said) + Seq::<TripleView>::empty()
                =~= resolved_triples(s.base, said));
        }
    }
}

/// A comma repeats the subject and the predicate and a semicolon repeats the subject: the tokens of
/// a statement with one subject say one triple for each predicate and each of its objects, as it is
/// meant under the base.
pub proof fn law_abbreviated_tokens(
    tokens: Seq<TokenView>,
    base: Option<Seq<char>>,
    subject: TermView,
    groups: Seq<Group>,
)
    requires
        tokens.map_values(|t: TokenView| t.kind) == abbreviated(subject, groups).push(
            KindView::Eof,
        ),
        grouped(groups),
        sound_groups(groups),
        sound(subject),
        !(subject is Formula),
    ensures
        document(tokens, base) == Ok::<DocumentView, ErrorView>(
            DocumentView {
                base_iri: base,
                facts: resolved_triples(base, group_facts(subject, groups)),
                ..DocumentView::empty()
            },
        ),
{
    let front = spelled(subject) + spelled_groups(groups);
    let kinds = abbreviated(subject, groups);
    let found = tokens.map_values(|t: TokenView| t.kind);
    let start = DocumentView { base_iri: base, ..DocumentView::empty() };
    let s = scope(tokens, start);
    let c = Cursor { pos: 0, blanks: 0 };
    let d = ahead(c, spelled(subject).len());
    let e = ahead(c, front.len());
    assert(tokens.len() == found.len());
    assert forall|k: int| 0 <= k < kinds.len() implies tokens[0 + k].kind
        == #[trigger] kinds[k] by {
        assert(found[k] == kinds.push(KindView::Eof)[k]);
    }
    assert(tokens.last().kind == found.last());
    assert(kinds =~= front + seq![KindView::Dot]);
    lemma_written(s, 0, front, seq![KindView::Dot]);
    lemma_written(s, 0, spelled(subject), spelled_groups(groups));
    lemma_begins(subject);
    assert(s.peek(c) == spelled(subject)[0]);
    if groups.len() > 0 {
        lemma_begins(groups[0].predicate);
        assert(spelled_groups(groups)[0] == spelled(groups[0].predicate)[0]);
    }
    lemma_reads_term(s, c, subject);
    lemma_reads_groups(s, d, subject, groups);
    let said = resolved_triples(base, group_facts(subject, groups));
    assert(Seq::<TripleView>::empty() + said =~= said);
    assert(statement_triples(s, c) == Ok::<(Seq<TripleView>, Cursor), ErrorView>((said, e)));
    let told = DocumentView { facts: said, ..start };
    assert(content(s, start, c) == Ok::<(DocumentView, Cursor), ErrorView>((told, e)));
    let f = ahead(e, 1);
    assert(statement(tokens, start, c) == Ok::<(DocumentView, Cursor), ErrorView>((told, f)));
    assert(tokens[f.pos] == tokens.last());
    assert(statements(tokens, told, f) == Ok::<DocumentView, ErrorView>(told));
}

/// Each triple of the groups has the subject, a predicate of theirs and an object of it.
proof fn lemma_group_facts(subject: TermView, groups: Seq<Group>, i: int)
    requires
        sound_groups(groups),
        sound(subject),
        0 <= i < group_facts(subject, groups).len(),
    ensures
        group_facts(subject, groups)[i].subject == subject,
        sound_triple(group_facts(subject, groups)[i]),
    decreases groups.len(),
{
    let group = groups[0];
    let rest = groups.subrange(1, groups.len() as int);
    let said = object_facts(subject, group.predicate, group.objects);
    assert(sound(group.predicate) && sound_terms(group.objects));
    if i < said.len() {
        assert(group_facts(subject, groups)[i] == said[i]);
        assert(sound(group.objects[i]));
    } else {
        assert forall|j: int| 0 <= j < rest.len() implies sound((#[trigger] rest[j]).predicate)
            && sound_terms(rest[j].objects) by {
            assert(rest[j] == groups[j + 1]);
        }
        lemma_group_facts(subject, rest, i - said.len());
    }
}

/// A statement with one subject says the same as the statements that it abbreviates, one for each
/// predicate and each of its objects, however the two texts spell them.
pub proof fn law_abbreviations(
    short: Seq<char>,
    long: Seq<char>,
    base: Option<Seq<char>>,
    subject: TermView,
    groups: Seq<Group>,
)
    requires
        spells(short, abbreviated(subject, groups)),
        spells(long, spelled_triples(group_facts(subject, groups))),
        grouped(groups),
        sound_groups(groups),
        sound(subject),
        !(subject is Formula),
    ensures
        n3(short, base) == n3(long, base),
        n3(short, base) == Ok::<DocumentView, ErrorView>(
            DocumentView {
                base_iri: base,
                facts: resolved_triples(base, group_facts(subject, groups)),
                ..DocumentView::empty()
            },
        ),
{
    let facts = group_facts(subject, groups);
    law_abbreviated_tokens(lex_text(short)->Ok_0, base, subject, groups);
    assert forall|i: int| 0 <= i < facts.len() implies {
        let t = #[trigger] facts[i];
        t.subject == subject && sound_triple(t)
    } by {
        lemma_group_facts(subject, groups, i);
    }
    let none = Seq::<RuleView>::empty();
    let full = spelled_triples(facts);
    assert(full + spelled_rules(none) =~= full);
    law_text_is_read_back(long, base, facts, none);
    assert(resolved_rules(base, none) =~= none);
}

/// The same predicates with the same objects.
pub open spec fn same_groups(a: Seq<Group>, b: Seq<Group>) -> bool {
    &&& a.len() == b.len()
    &&& forall|i: int|
        0 <= i < a.len() ==> (#[trigger] a[i]).predicate == b[i].predicate && a[i].objects
            == b[i].objects
}

proof fn lemma_same_groups(subject: TermView, a: Seq<Group>, b: Seq<Group>)
    requires
        same_groups(a, b),
    ensures
        group_facts(subject, a) == group_facts(subject, b),
    decreases a.len(),
{
    if a.len() > 0 {
        let x = a.subrange(1, a.len() as int);
        let y = b.subrange(1, b.len() as int);
        assert forall|i: int| 0 <= i < x.len() implies (#[trigger] x[i]).predicate
            == y[i].predicate && x[i].objects == y[i].objects by {
            assert(x[i] == a[i + 1] && y[i] == b[i + 1]);
        }
        assert(a[0].predicate == b[0].predicate && a[0].objects == b[0].objects);
        lemma_same_groups(subject, x, y);
    }
}

/// Further semicolons, between predicates or behind the last one, change nothing, however the two
/// texts spell what stands between them.
pub proof fn law_further_semicolons(
    first: Seq<char>,
    second: Seq<char>,
    base: Option<Seq<char>>,
    subject: TermView,
    a: Seq<Group>,
    b: Seq<Group>,
)
    requires
        spells(first, abbreviated(subject, a)),
        spells(second, abbreviated(subject, b)),
        same_groups(a, b),
        grouped(a),
        grouped(b),
        sound_groups(a),
        sound(subject),
        !(subject is Formula),
    ensures
        n3(first, base) == n3(second, base),
        n3(first, base) == Ok::<DocumentView, ErrorView>(
            DocumentView {
                base_iri: base,
                facts: resolved_triples(base, group_facts(subject, a)),
                ..DocumentView::empty()
            },
        ),
{
    assert forall|i: int| 0 <= i < b.len() implies sound((#[trigger] b[i]).predicate)
        && sound_terms(b[i].objects) by {
        assert(a[i].predicate == b[i].predicate && a[i].objects == b[i].objects);
    }
    lemma_same_groups(subject, a, b);
    law_abbreviated_tokens(lex_text(first)->Ok_0, base, subject, a);
    law_abbreviated_tokens(lex_text(second)->Ok_0, base, subject, b);
}

/// Whether an IRI can be written between angle brackets: it does not end early, and it does not
/// make an arrow of the first bracket.
pub open spec fn bracketed(iri: Seq<char>) -> bool {
    plain(KindView::Iri(iri))
}

/// The tokens of `<s> <p> <o> , <r> ; <q> <o>`.
pub open spec fn one_statement(
    s: Seq<char>,
    p: Seq<char>,
    q: Seq<char>,
    o: Seq<char>,
    r: Seq<char>,
) -> Seq<KindView> {
    seq![
        KindView::Iri(s),
        KindView::Iri(p),
        KindView::Iri(o),
        KindView::Comma,
        KindView::Iri(r),
        KindView::Semicolon,
        KindView::Iri(q),
        KindView::Iri(o),
    ]
}

/// The tokens of `<s> <p> <o> , <r> ; ; <q> <o> ; ;`.
pub open spec fn more_semicolons(
    s: Seq<char>,
    p: Seq<char>,
    q: Seq<char>,
    o: Seq<char>,
    r: Seq<char>,
) -> Seq<KindView> {
    seq![
        KindView::Iri(s),
        KindView::Iri(p),
        KindView::Iri(o),
        KindView::Comma,
        KindView::Iri(r),
        KindView::Semicolon,
        KindView::Semicolon,
        KindView::Iri(q),
        KindView::Iri(o),
        KindView::Semicolon,
        KindView::Semicolon,
    ]
}

/// The tokens of `<s> <p> <o> . <s> <p> <r> . <s> <q> <o>`.
pub open spec fn three_statements(
    s: Seq<char>,
    p: Seq<char>,
    q: Seq<char>,
    o: Seq<char>,
    r: Seq<char>,
) -> Seq<KindView> {
    seq![
        KindView::Iri(s),
        KindView::Iri(p),
        KindView::Iri(o),
        KindView::Dot,
        KindView::Iri(s),
        KindView::Iri(p),
        KindView::Iri(r),
        KindView::Dot,
        KindView::Iri(s),
        KindView::Iri(q),
        KindView::Iri(o),
    ]
}

/// The document that says the facts `<s> <p> <o>`, `<s> <p> <r>` and `<s> <q> <o>` under a base.
pub open spec fn three_facts(
    base: Option<Seq<char>>,
    s: Seq<char>,
    p: Seq<char>,
    q: Seq<char>,
    o: Seq<char>,
    r: Seq<char>,
) -> DocumentView {
    DocumentView {
        base_iri: base,
        facts: seq![
            iri_fact(base, s, p, o),
            iri_fact(base, s, p, r),
            iri_fact(base, s, q, o),
        ],
        ..DocumentView::empty()
    }
}

/// `<s> <p> <o> , <r> ; <q> <o> .` says the same facts in the same order as
/// `<s> <p> <o> . <s> <p> <r> . <s> <q> <o> .`, whatever the base is.
pub proof fn law_one_for_three_statements(
    base: Option<Seq<char>>,
    s: Seq<char>,
    p: Seq<char>,
    q: Seq<char>,
    o: Seq<char>,
    r: Seq<char>,
)
    requires
        bracketed(s),
        bracketed(p),
        bracketed(q),
        bracketed(o),
        bracketed(r),
    ensures
        n3(sentence(one_statement(s, p, q, o, r)), base) == n3(
            sentence(three_statements(s, p, q, o, r)),
            base,
        ),
        n3(sentence(one_statement(s, p, q, o, r)), base) == Ok::<DocumentView, ErrorView>(
            three_facts(base, s, p, q, o, r),
        ),
{
    let a = two_groups(p, q, o, r, 1, 0);
    let subject = TermView::Iri(s);
    let one = sentence(one_statement(s, p, q, o, r));
    let other = sentence(three_statements(s, p, q, o, r));
    lemma_statement_tokens(base, s, p, q, o, r);
    lemma_statements_spell(s, p, q, o, r);
    lemma_sound_groups(p, q, o, r, 1, 0);
    law_abbreviations(one, other, base, subject, a);
}

/// `<s> <p> <o> , <r> ; <q> <o> .` says the same facts in the same order as
/// `<s> <p> <o> , <r> ; ; <q> <o> ; ; .`, whatever the base is.
pub proof fn law_more_semicolons(
    base: Option<Seq<char>>,
    s: Seq<char>,
    p: Seq<char>,
    q: Seq<char>,
    o: Seq<char>,
    r: Seq<char>,
)
    requires
        bracketed(s),
        bracketed(p),
        bracketed(q),
        bracketed(o),
        bracketed(r),
    ensures
        n3(sentence(one_statement(s, p, q, o, r)), base) == n3(
            sentence(more_semicolons(s, p, q, o, r)),
            base,
        ),
        n3(sentence(one_statement(s, p, q, o, r)), base) == Ok::<DocumentView, ErrorView>(
            three_facts(base, s, p, q, o, r),
        ),
{
    let a = two_groups(p, q, o, r, 1, 0);
    let b = two_groups(p, q, o, r, 2, 2);
    let subject = TermView::Iri(s);
    let one = sentence(one_statement(s, p, q, o, r));
    let other = sentence(more_semicolons(s, p, q, o, r));
    lemma_statement_tokens(base, s, p, q, o, r);
    lemma_statements_spell(s, p, q, o, r);
    lemma_sound_groups(p, q, o, r, 1, 0);
    lemma_sound_groups(p, q, o, r, 2, 2);
    law_further_semicolons(one, other, base, subject, a, b);
}

proof fn lemma_statements_spell(
    s: Seq<char>,
    p: Seq<char>,
    q: Seq<char>,
    o: Seq<char>,
    r: Seq<char>,
)
    requires
        bracketed(s),
        bracketed(p),
        bracketed(q),
        bracketed(o),
        bracketed(r),
    ensures
        ({
            let one = one_statement(s, p, q, o, r);
            let two = more_semicolons(s, p, q, o, r);
            let three = three_statements(s, p, q, o, r);
            &&& spells(sentence(one), one.push(KindView::Dot))
            &&& spells(sentence(two), two.push(KindView::Dot))
            &&& spells(sentence(three), three.push(KindView::Dot))
        }),
{
    law_sentence_spells(one_statement(s, p, q, o, r));
    law_sentence_spells(more_semicolons(s, p, q, o, r));
    law_sentence_spells(three_statements(s, p, q, o, r));
}

proof fn lemma_sound_groups(
    p: Seq<char>,
    q: Seq<char>,
    o: Seq<char>,
    r: Seq<char>,
    n: nat,
    m: nat,
)
    requires
        n > 0,
    ensures
        grouped(two_groups(p, q, o, r, n, m)),
        sound_groups(two_groups(p, q, o, r, n, m)),
        same_groups(two_groups(p, q, o, r, 1, 0), two_groups(p, q, o, r, n, m)),
{
    let groups = two_groups(p, q, o, r, n, m);
    assert(sound_terms(groups[0].objects) && sound_terms(groups[1].objects));
}

/// What the tokens of the three sentences spell.
proof fn lemma_statement_tokens(
    base: Option<Seq<char>>,
    s: Seq<char>,
    p: Seq<char>,
    q: Seq<char>,
    o: Seq<char>,
    r: Seq<char>,
)
    ensures
        ({
            let subject = TermView::Iri(s);
            let a = two_groups(p, q, o, r, 1, 0);
            let b = two_groups(p, q, o, r, 2, 2);
            let facts = group_facts(subject, a);
            let dot = KindView::Dot;
            &&& one_statement(s, p, q, o, r).push(dot) == abbreviated(subject, a)
            &&& more_semicolons(s, p, q, o, r).push(dot) == abbreviated(subject, b)
            &&& three_statements(s, p, q, o, r).push(dot) == spelled_triples(facts)
            &&& resolved_triples(base, facts) == seq![
                iri_fact(base, s, p, o),
                iri_fact(base, s, p, r),
                iri_fact(base, s, q, o),
            ]
        }),
{
    let subject = TermView::Iri(s);
    let a = two_groups(p, q, o, r, 1, 0);
    let b = two_groups(p, q, o, r, 2, 2);
    let dot = KindView::Dot;
    let facts = group_facts(subject, a);
    lemma_two_groups(s, p, q, o, r, 1, 0);
    lemma_two_groups(s, p, q, o, r, 2, 2);
    lemma_three_facts(base, facts);
    lemma_iri_fact(base, s, p, o);
    lemma_iri_fact(base, s, p, r);
    lemma_iri_fact(base, s, q, o);
    assert(one_statement(s, p, q, o, r).push(dot) =~= abbreviated(subject, a));
    assert(more_semicolons(s, p, q, o, r).push(dot) =~= abbreviated(subject, b));
    assert(three_statements(s, p, q, o, r).push(dot) =~= spelled_triples(facts));
}

/// The fact that three IRIs say under a base.
pub open spec fn iri_fact(
    base: Option<Seq<char>>,
    s: Seq<char>,
    p: Seq<char>,
    o: Seq<char>,
) -> TripleView {
    triple(
        TermView::Iri(resolve(base, s)),
        TermView::Iri(resolve(base, p)),
        TermView::Iri(resolve(base, o)),
    )
}

/// How a fact of three IRIs is spelled, and what it means under a base.
proof fn lemma_iri_fact(base: Option<Seq<char>>, s: Seq<char>, p: Seq<char>, o: Seq<char>)
    ensures
        ({
            let t = triple(TermView::Iri(s), TermView::Iri(p), TermView::Iri(o));
            &&& spelled_triple(t) == seq![KindView::Iri(s), KindView::Iri(p), KindView::Iri(o)]
            &&& resolved_triple(base, t) == iri_fact(base, s, p, o)
        }),
{
    let t = triple(TermView::Iri(s), TermView::Iri(p), TermView::Iri(o));
    assert(spelled_triple(t) =~= seq![KindView::Iri(s), KindView::Iri(p), KindView::Iri(o)]);
}

/// A predicate with two objects and one with one, and so many semicolons behind the objects.
spec fn two_groups(
    p: Seq<char>,
    q: Seq<char>,
    o: Seq<char>,
    r: Seq<char>,
    n: nat,
    m: nat,
) -> Seq<Group> {
    seq![
        Group {
            predicate: TermView::Iri(p),
            objects: seq![TermView::Iri(o), TermView::Iri(r)],
            semicolons: n,
        },
        Group { predicate: TermView::Iri(q), objects: seq![TermView::Iri(o)], semicolons: m },
    ]
}

proof fn lemma_two_groups(
    s: Seq<char>,
    p: Seq<char>,
    q: Seq<char>,
    o: Seq<char>,
    r: Seq<char>,
    n: nat,
    m: nat,
)
    ensures
        ({
            let (si, pi, qi) = (KindView::Iri(s), KindView::Iri(p), KindView::Iri(q));
            let (oi, ri) = (KindView::Iri(o), KindView::Iri(r));
            let groups = two_groups(p, q, o, r, n, m);
            let subject = TermView::Iri(s);
            &&& abbreviated(subject, groups) == (seq![si, pi, oi, KindView::Comma, ri]
                + semicolons(n) + seq![qi, oi] + semicolons(m)).push(KindView::Dot)
            &&& group_facts(subject, groups) == seq![
                triple(subject, TermView::Iri(p), TermView::Iri(o)),
                triple(subject, TermView::Iri(p), TermView::Iri(r)),
                triple(subject, TermView::Iri(q), TermView::Iri(o)),
            ]
        }),
{
    let (si, pi, qi) = (KindView::Iri(s), KindView::Iri(p), KindView::Iri(q));
    let (oi, ri) = (KindView::Iri(o), KindView::Iri(r));
    let groups = two_groups(p, q, o, r, n, m);
    let subject = TermView::Iri(s);
    let (a, b) = (groups[0], groups[1]);
    let rest = groups.subrange(1, 2);
    let last = rest.subrange(1, 1);
    assert(rest[0] == b);
    assert(a.objects.subrange(1, 2) =~= seq![TermView::Iri(r)]);
    assert(spelled_objects(seq![TermView::Iri(r)]) == seq![ri]);
    assert(spelled_objects(a.objects) =~= seq![oi, KindView::Comma, ri]);
    assert(spelled_objects(b.objects) == seq![oi]);
    assert(spelled_groups(last) =~= Seq::empty());
    assert(spelled_groups(rest) =~= seq![qi, oi] + semicolons(m));
    assert(spelled_groups(groups) =~= seq![pi, oi, KindView::Comma, ri] + semicolons(n) + seq![
        qi,
        oi,
    ] + semicolons(m));
    assert(abbreviated(subject, groups) =~= (seq![si, pi, oi, KindView::Comma, ri] + semicolons(n)
        + seq![qi, oi] + semicolons(m)).push(KindView::Dot));
    assert(group_facts(subject, last) =~= Seq::empty());
    assert(group_facts(subject, rest) =~= seq![triple(subject, b.predicate, b.objects[0])]);
    assert(group_facts(subject, groups) =~= seq![
        triple(subject, a.predicate, a.objects[0]),
        triple(subject, a.predicate, a.objects[1]),
        triple(subject, b.predicate, b.objects[0]),
    ]);
}

/// Three triples, spelled out and as they are meant.
proof fn lemma_three_facts(base: Option<Seq<char>>, facts: Seq<TripleView>)
    requires
        facts.len() == 3,
    ensures
        spelled_triples(facts) == spelled_triple(facts[0]).push(KindView::Dot) + (spelled_triple(
            facts[1],
        ).push(KindView::Dot) + spelled_triple(facts[2]).push(KindView::Dot)),
        resolved_triples(base, facts) == seq![
            resolved_triple(base, facts[0]),
            resolved_triple(base, facts[1]),
            resolved_triple(base, facts[2]),
        ],
{
    let rest = facts.subrange(1, 3);
    let last = rest.subrange(1, 2);
    let none = last.subrange(1, 1);
    assert(rest[0] == facts[1] && last[0] == facts[2]);
    assert(spelled_triples(none) =~= Seq::empty());
    assert(resolved_triples(base, none) =~= Seq::empty());
    assert(spelled_triples(last) =~= spelled_triple(facts[2]).push(KindView::Dot));
    assert(spelled_triples(rest) == spelled_triple(facts[1]).push(KindView::Dot)
        + spelled_triples(last));
    assert(spelled_triples(facts) == spelled_triple(facts[0]).push(KindView::Dot)
        + spelled_triples(rest));
    assert(resolved_triples(base, last) =~= seq![resolved_triple(base, facts[2])]);
    assert(resolved_triples(base, rest) =~= seq![
        resolved_triple(base, facts[1]),
        resolved_triple(base, facts[2]),
    ]);
    assert(resolved_triples(base, facts) =~= seq![
        resolved_triple(base, facts[0]),
        resolved_triple(base, facts[1]),
        resolved_triple(base, facts[2]),
    ]);
}

} // verus!
