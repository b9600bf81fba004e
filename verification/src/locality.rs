//! What has been read does not depend on what stands behind it.
use crate::ast::{DocumentView, TermView};
use crate::grammar::{
    content, document, formula, formula_items, formula_or_true, formula_content, forward_conclusion,
    fresh_label, list_items, literal, objects, predicates, property_list, scope, skip_semicolons,
    statement, statement_triples, statements, term, true_content, verb, Cursor, Reading, Scope,
};
use crate::headway::{
    complete, lemma_conclusion, lemma_content, lemma_formula, lemma_formula_items, lemma_list_items,
    lemma_literal, lemma_objects, lemma_predicates, lemma_property_list, lemma_skip_semicolons,
    lemma_statement, lemma_statement_triples, lemma_term, lemma_verb, placed,
};
use crate::labels::{lemma_unbracketed, unbracketed};
use crate::token::{KindView, TokenView};
use vstd::prelude::*;

verus! {

/// Two scopes that do not differ in their first `m` tokens, which are not all that they have.
pub open spec fn agree(s: Scope, t: Scope, m: int) -> bool {
    &&& complete(s.tokens)
    &&& complete(t.tokens)
    &&& 0 <= m <= s.last()
    &&& m <= t.last()
    &&& s.prefixes == t.prefixes
    &&& s.base == t.base
    &&& forall|i: int| 0 <= i < m ==> #[trigger] s.tokens[i] == t.tokens[i]
}

/// Whether reading ended before token `m`.
pub open spec fn ends_before<T>(r: Reading<T>, m: int) -> bool {
    r is Ok && r->Ok_0.1.pos < m
}

proof fn local_literal(s: Scope, t: Scope, m: int, c: Cursor, value: Seq<char>)
    requires
        agree(s, t, m),
        placed(s, c),
        ends_before(literal(s, c, value), m),
    ensures
        literal(t, c, value) == literal(s, c, value),
    decreases s.tokens.len() - c.pos, 0nat,
{
    lemma_literal(s, c, value);
    if s.peek(c) is HatHat {
        local_term(s, t, m, s.step(c));
    }
}

proof fn local_term(s: Scope, t: Scope, m: int, c: Cursor)
    requires
        agree(s, t, m),
        placed(s, c),
        ends_before(term(s, c), m),
    ensures
        term(t, c) == term(s, c),
    decreases s.tokens.len() - c.pos, 2nat,
{
    lemma_term(s, c);
    match s.peek(c) {
        KindView::String(value) => {
            local_literal(s, t, m, s.step(c), value);
        },
        KindView::LBrace => {
            local_formula(s, t, m, c);
        },
        KindView::LBracket => {
            local_property_list(s, t, m, s.step(c));
        },
        KindView::LParen => {
            lemma_list_items(s, s.step(c));
            local_list_items(s, t, m, s.step(c));
        },
        _ => {},
    }
}

proof fn local_list_items(s: Scope, t: Scope, m: int, c: Cursor)
    requires
        agree(s, t, m),
        placed(s, c),
        ends_before(list_items(s, c), m),
    ensures
        list_items(t, c) == list_items(s, c),
    decreases s.tokens.len() - c.pos, 7nat,
{
    lemma_list_items(s, c);
    if !(s.peek(c) is RParen || s.peek(c) is Eof) {
        lemma_term(s, c);
        let d = term(s, c)->Ok_0.1;
        lemma_list_items(s, d);
        local_term(s, t, m, c);
        local_list_items(s, t, m, d);
    }
}

proof fn local_property_list(s: Scope, t: Scope, m: int, c: Cursor)
    requires
        agree(s, t, m),
        placed(s, c),
        ends_before(property_list(s, c), m),
    ensures
        property_list(t, c) == property_list(s, c),
    decreases s.tokens.len() - c.pos, 7nat,
{
    lemma_property_list(s, c);
    let blank = TermView::Blank(fresh_label(c.blanks + 1));
    let c = Cursor { pos: c.pos, blanks: c.blanks + 1 };
    if !(s.peek(c) is RBracket) {
        lemma_predicates(s, c, blank);
        local_predicates(s, t, m, c, blank);
    }
}

/// A predicate that ends before what differs is read alike.
pub proof fn local_verb(s: Scope, t: Scope, m: int, c: Cursor)
    requires
        agree(s, t, m),
        placed(s, c),
        ends_before(verb(s, c), m),
    ensures
        verb(t, c) == verb(s, c),
    decreases s.tokens.len() - c.pos, 4nat,
{
    lemma_verb(s, c);
    if !(s.peek(c) is A || s.peek(c) is Equals || s.peek(c) is Arrow || s.peek(c) is BackArrow) {
        local_term(s, t, m, c);
    }
}

/// Objects that end before what differs are read alike.
pub proof fn local_objects(
    s: Scope,
    t: Scope,
    m: int,
    c: Cursor,
    subject: TermView,
    predicate: TermView,
)
    requires
        agree(s, t, m),
        placed(s, c),
        ends_before(objects(s, c, subject, predicate), m),
    ensures
        objects(t, c, subject, predicate) == objects(s, c, subject, predicate),
    decreases s.tokens.len() - c.pos, 3nat,
{
    lemma_term(s, c);
    let d = term(s, c)->Ok_0.1;
    if s.peek(d) is Comma {
        lemma_objects(s, s.step(d), subject, predicate);
        local_term(s, t, m, c);
        local_objects(s, t, m, s.step(d), subject, predicate);
    } else {
        local_term(s, t, m, c);
    }
}

/// Semicolons that end before what differs are passed over alike.
pub proof fn local_semicolons(s: Scope, t: Scope, m: int, c: Cursor)
    requires
        agree(s, t, m),
        placed(s, c),
        skip_semicolons(s, c).pos < m,
    ensures
        skip_semicolons(t, c) == skip_semicolons(s, c),
    decreases s.tokens.len() - c.pos,
{
    lemma_skip_semicolons(s, c);
    if s.peek(c) is Semicolon {
        local_semicolons(s, t, m, s.step(c));
    }
}

proof fn local_predicates(s: Scope, t: Scope, m: int, c: Cursor, subject: TermView)
    requires
        agree(s, t, m),
        placed(s, c),
        ends_before(predicates(s, c, subject), m),
    ensures
        predicates(t, c, subject) == predicates(s, c, subject),
    decreases s.tokens.len() - c.pos, 5nat,
{
    lemma_predicates(s, c, subject);
    if !s.ends_predicates(c) {
        lemma_verb(s, c);
        let (predicate, d) = verb(s, c)->Ok_0;
        lemma_objects(s, d, subject, predicate);
        let e = objects(s, d, subject, predicate)->Ok_0.1;
        if s.peek(e) is Semicolon {
            let f = skip_semicolons(s, e);
            lemma_skip_semicolons(s, e);
            lemma_predicates(s, f, subject);
            local_semicolons(s, t, m, e);
            local_predicates(s, t, m, f, subject);
        }
        local_verb(s, t, m, c);
        local_objects(s, t, m, d, subject, predicate);
    }
}

proof fn local_statement_triples(s: Scope, t: Scope, m: int, c: Cursor)
    requires
        agree(s, t, m),
        placed(s, c),
        ends_before(statement_triples(s, c), m),
    ensures
        statement_triples(t, c) == statement_triples(s, c),
    decreases s.tokens.len() - c.pos, 6nat,
{
    lemma_term(s, c);
    let (subject, d) = term(s, c)->Ok_0;
    if s.peek(d) is Arrow || s.peek(d) is BackArrow {
        lemma_term(s, s.step(d));
        local_term(s, t, m, s.step(d));
    } else {
        lemma_predicates(s, d, subject.term);
        local_predicates(s, t, m, d, subject.term);
    }
    local_term(s, t, m, c);
}

proof fn local_formula_items(s: Scope, t: Scope, m: int, c: Cursor)
    requires
        agree(s, t, m),
        placed(s, c),
        ends_before(formula_items(s, c), m),
    ensures
        formula_items(t, c) == formula_items(s, c),
    decreases s.tokens.len() - c.pos, 7nat,
{
    lemma_formula_items(s, c);
    if s.peek(c) is RBrace || s.peek(c) is Eof {
    } else if s.peek(c) is Dot {
        local_formula_items(s, t, m, s.step(c));
    } else {
        lemma_statement_triples(s, c);
        let d = statement_triples(s, c)->Ok_0.1;
        let next = if s.peek(d) is Dot {
            s.step(d)
        } else {
            d
        };
        lemma_formula_items(s, next);
        local_formula_items(s, t, m, next);
        local_statement_triples(s, t, m, c);
    }
}

/// A formula that ends before the tokens differ is the same formula.
pub proof fn local_formula(s: Scope, t: Scope, m: int, c: Cursor)
    requires
        agree(s, t, m),
        placed(s, c),
        formula(s, c) is Ok,
        formula(s, c)->Ok_0.1.pos <= m,
    ensures
        formula(t, c) == formula(s, c),
    decreases s.tokens.len() - c.pos, 1nat,
{
    lemma_formula(s, c);
    lemma_formula_items(s, s.step(c));
    local_formula_items(s, t, m, s.step(c));
}

/// Whether a token can stand behind an object without being read with it.
pub open spec fn ends_object(kind: KindView) -> bool {
    !(kind is HatHat || kind is Lang || kind is Comma)
}

/// The same tokens behind which others stand that are not read with them.
proof fn quiet_literal(s: Scope, t: Scope, m: int, c: Cursor, value: Seq<char>)
    requires
        agree(s, t, m),
        ends_object(s.tokens[m].kind) && ends_object(t.tokens[m].kind),
        placed(s, c),
        literal(s, c, value) is Ok,
        literal(s, c, value)->Ok_0.1.pos == m,
    ensures
        literal(t, c, value) == literal(s, c, value),
    decreases s.tokens.len() - c.pos, 0nat,
{
    lemma_literal(s, c, value);
    if s.peek(c) is HatHat {
        quiet_term(s, t, m, s.step(c));
    }
}

proof fn quiet_term(s: Scope, t: Scope, m: int, c: Cursor)
    requires
        agree(s, t, m),
        ends_object(s.tokens[m].kind) && ends_object(t.tokens[m].kind),
        placed(s, c),
        c.pos < m,
        term(s, c) is Ok,
        term(s, c)->Ok_0.1.pos == m,
    ensures
        term(t, c) == term(s, c),
    decreases s.tokens.len() - c.pos, 2nat,
{
    let d = s.step(c);
    match s.peek(c) {
        KindView::String(value) => {
            quiet_literal(s, t, m, d, value);
        },
        KindView::LBrace => {
            local_formula(s, t, m, c);
        },
        KindView::LBracket => {
            let blank = TermView::Blank(fresh_label(d.blanks + 1));
            let e = Cursor { pos: d.pos, blanks: d.blanks + 1 };
            if !(s.peek(e) is RBracket) {
                lemma_predicates(s, e, blank);
                local_predicates(s, t, m, e, blank);
            }
        },
        KindView::LParen => {
            lemma_list_items(s, d);
            local_list_items(s, t, m, d);
        },
        _ => {},
    }
}

/// Objects are read to the same triples whatever stands behind them, as long as it is not read with
/// them.
pub proof fn quiet_objects(
    s: Scope,
    t: Scope,
    m: int,
    c: Cursor,
    subject: TermView,
    predicate: TermView,
)
    requires
        agree(s, t, m),
        ends_object(s.tokens[m].kind) && ends_object(t.tokens[m].kind),
        placed(s, c),
        c.pos < m,
        objects(s, c, subject, predicate) is Ok,
        objects(s, c, subject, predicate)->Ok_0.1.pos == m,
    ensures
        objects(t, c, subject, predicate) == objects(s, c, subject, predicate),
    decreases s.tokens.len() - c.pos,
{
    lemma_term(s, c);
    let d = term(s, c)->Ok_0.1;
    if s.peek(d) is Comma {
        lemma_objects(s, s.step(d), subject, predicate);
        local_term(s, t, m, c);
        let e = s.step(d);
        assert(s.tokens.last() == s.tokens[s.last()]);
        if e.pos == s.last() {
            assert(s.read(e).kind is Comma);
            assert(term(s, e) is Err);
        }
        quiet_objects(s, t, m, e, subject, predicate);
    } else {
        quiet_term(s, t, m, c);
    }
}

proof fn local_conclusions(s: Scope, t: Scope, m: int, c: Cursor)
    requires
        agree(s, t, m),
        placed(s, c),
    ensures
        ends_before(formula_or_true(s, c), m) ==> formula_or_true(t, c) == formula_or_true(s, c),
        ends_before(forward_conclusion(s, c), m) ==> forward_conclusion(t, c)
            == forward_conclusion(s, c),
{
    lemma_formula(s, c);
    lemma_term(s, c);
    if ends_before(formula(s, c), m) {
        local_formula(s, t, m, c);
    }
    if ends_before(term(s, c), m) {
        local_term(s, t, m, c);
    }
}

proof fn local_formula_content(s: Scope, t: Scope, m: int, doc: DocumentView, c: Cursor)
    requires
        agree(s, t, m),
        placed(s, c),
        ends_before(formula_content(s, doc, c), m),
    ensures
        formula_content(t, doc, c) == formula_content(s, doc, c),
{
    lemma_formula(s, c);
    let (left, d) = formula(s, c)->Ok_0;
    if s.peek(d) is Arrow || s.peek(d) is BackArrow {
        let e = s.step(d);
        lemma_conclusion(s, e);
        local_conclusions(s, t, m, e);
    } else {
        lemma_verb(s, d);
        let e = verb(s, d)->Ok_0.1;
        lemma_conclusion(s, e);
        local_conclusions(s, t, m, e);
        local_verb(s, t, m, d);
    }
    local_formula(s, t, m, c);
}

proof fn local_true_content(s: Scope, t: Scope, m: int, doc: DocumentView, c: Cursor)
    requires
        agree(s, t, m),
        placed(s, c),
        ends_before(true_content(s, doc, c), m),
    ensures
        true_content(t, doc, c) == true_content(s, doc, c),
{
    let e = s.step(s.step(c));
    lemma_conclusion(s, e);
    local_conclusions(s, t, m, e);
}

proof fn local_content(s: Scope, t: Scope, m: int, doc: DocumentView, c: Cursor)
    requires
        agree(s, t, m),
        placed(s, c),
        c.pos < m,
        ends_before(content(s, doc, c), m),
    ensures
        content(t, doc, c) == content(s, doc, c),
{
    match s.peek(c) {
        KindView::LBrace => {
            local_formula_content(s, t, m, doc, c);
        },
        KindView::Boolean(true) => {
            local_true_content(s, t, m, doc, c);
        },
        KindView::AtPrefix => {},
        KindView::Prefix => {},
        KindView::AtBase => {},
        KindView::Base => {},
        KindView::Dot => {},
        _ => {
            local_statement_triples(s, t, m, c);
        },
    }
}

/// A statement that ends among the tokens that do not differ is the same statement.
proof fn local_statement(
    a: Seq<TokenView>,
    b: Seq<TokenView>,
    m: int,
    doc: DocumentView,
    c: Cursor,
)
    requires
        agree(scope(a, doc), scope(b, doc), m),
        placed(scope(a, doc), c),
        c.pos < m,
        statement(a, doc, c) is Ok,
        statement(a, doc, c)->Ok_0.1.pos <= m,
    ensures
        statement(b, doc, c) == statement(a, doc, c),
{
    let s = scope(a, doc);
    lemma_content(s, doc, c);
    local_content(s, scope(b, doc), m, doc, c);
}

/// Whether two sequences of tokens begin alike: the first one up to the end of the text, which is
/// its last token and no other.
pub open spec fn begins_with(b: Seq<TokenView>, a: Seq<TokenView>) -> bool {
    let n = a.len() - 1;
    &&& 0 <= n < b.len()
    &&& a.last().kind is Eof
    &&& b.last().kind is Eof
    &&& forall|i: int| 0 <= i < n ==> #[trigger] a[i] == b[i] && !(a[i].kind is Eof)
}

/// Reading goes on behind a document with as many labels as the document makes.
pub proof fn lemma_goes_on(
    a: Seq<TokenView>,
    b: Seq<TokenView>,
    doc: DocumentView,
    c: Cursor,
) -> (blanks: nat)
    requires
        begins_with(b, a),
        0 <= c.pos < a.len(),
        statements(a, doc, c) is Ok,
    ensures
        statements(b, doc, c) == statements(
            b,
            statements(a, doc, c)->Ok_0,
            Cursor { pos: a.len() - 1, blanks },
        ),
        unbracketed(a) ==> blanks == c.blanks,
    decreases a.len() - c.pos,
{
    let n = a.len() - 1;
    if c.pos == n {
        c.blanks
    } else {
        assert(a[c.pos] == b[c.pos]);
        lemma_statement(a, doc, c);
        if unbracketed(a) {
            lemma_unbracketed(a, doc, c);
        }
        let (next, d) = statement(a, doc, c)->Ok_0;
        assert(agree(scope(a, doc), scope(b, doc), n));
        local_statement(a, b, n, doc, c);
        lemma_goes_on(a, b, next, d)
    }
}

/// What stands behind a document does not change what the document says: reading goes on from
/// there.
pub proof fn law_reading_goes_on(a: Seq<TokenView>, b: Seq<TokenView>, base: Option<Seq<char>>)
    requires
        begins_with(b, a),
        document(a, base) is Ok,
    ensures
        exists|blanks: nat|
            document(b, base) == #[trigger] statements(
                b,
                document(a, base)->Ok_0,
                Cursor { pos: a.len() - 1, blanks },
            ),
{
    let start = DocumentView { base_iri: base, ..DocumentView::empty() };
    let blanks = lemma_goes_on(a, b, start, Cursor { pos: 0, blanks: 0 });
    assert(document(b, base) == statements(
        b,
        document(a, base)->Ok_0,
        Cursor { pos: a.len() - 1, blanks },
    ));
}

} // verus!
