//! What is read does not depend on where it stands.
use crate::ast::{DocumentView, TermView};
use crate::error::ErrorView;
use crate::grammar::{
    content, expect, formula, formula_content, formula_items, formula_or_true, forward_conclusion,
    fresh_label, list_items, literal, objects, predicates, property_list, scope, skip_semicolons,
    statement, statement_triples, statements, term, verb, Cursor, Reading, Scope,
};
use crate::headway::{
    complete, lemma_content, lemma_formula, lemma_formula_items, lemma_list_items, lemma_objects,
    lemma_predicates, lemma_skip_semicolons, lemma_statement, lemma_statement_triples, lemma_term,
    lemma_verb, placed,
};
use crate::token::{KindView, TokenView};
use vstd::prelude::*;

verus! {

/// An error `k` characters further on in a text.
pub open spec fn moved_error(e: ErrorView, k: int) -> ErrorView {
    ErrorView {
        message: e.message,
        offset: match e.offset {
            Some(offset) => Some(offset + k),
            None => None,
        },
    }
}

/// A token `k` characters further on in a text.
pub open spec fn moved_token(token: TokenView, k: int) -> TokenView {
    TokenView { kind: token.kind, offset: token.offset + k }
}

/// The place `n` tokens behind another.
pub open spec fn moved_cursor(c: Cursor, n: int) -> Cursor {
    Cursor { pos: c.pos + n, blanks: c.blanks }
}

/// A reading that ends `n` tokens further on, or fails `k` characters further on.
pub open spec fn moved<T>(r: Reading<T>, n: int, k: int) -> Reading<T> {
    match r {
        Ok((value, d)) => Ok((value, moved_cursor(d, n))),
        Err(e) => Err(moved_error(e, k)),
    }
}

/// The tokens of `s` from index `from` on stand at the end of those of `t`, `n` tokens and `k`
/// characters further on; what they are read against is the same.
pub open spec fn carried(s: Scope, t: Scope, from: int, n: int, k: int) -> bool {
    &&& complete(s.tokens)
    &&& 0 <= from < s.last()
    &&& 0 <= from + n
    &&& t.tokens.len() == s.tokens.len() + n
    &&& s.prefixes == t.prefixes
    &&& s.base == t.base
    &&& forall|i: int|
        from <= i < s.tokens.len() ==> moved_token(#[trigger] s.tokens[i], k) == t.tokens[i + n]
}

/// What a place in carried tokens holds is what its counterpart holds.
proof fn lemma_carried(s: Scope, t: Scope, from: int, n: int, k: int, c: Cursor)
    requires
        carried(s, t, from, n, k),
        placed(s, c),
        from <= c.pos,
    ensures
        t.peek(moved_cursor(c, n)) == s.peek(c),
        t.offset(moved_cursor(c, n)) == s.offset(c) + k,
        t.read(moved_cursor(c, n)) == moved_token(s.read(c), k),
        t.step(moved_cursor(c, n)) == moved_cursor(s.step(c), n),
        placed(s, s.step(c)),
        c.pos <= s.step(c).pos,
{
    assert(moved_token(s.tokens[c.pos], k) == t.tokens[c.pos + n]);
    if c.pos == s.last() {
        assert(moved_token(s.tokens[c.pos - 1], k) == t.tokens[c.pos - 1 + n]);
    }
}

/// A token that is expected further on is read or missed there.
pub proof fn move_expect(s: Scope, t: Scope, from: int, n: int, k: int, c: Cursor, kind: KindView)
    requires
        carried(s, t, from, n, k),
        placed(s, c),
        from <= c.pos,
    ensures
        expect(t, moved_cursor(c, n), kind) == moved(expect(s, c, kind), n, k),
{
    lemma_carried(s, t, from, n, k, c);
}

proof fn move_literal(
    s: Scope,
    t: Scope,
    from: int,
    n: int,
    k: int,
    c: Cursor,
    value: Seq<char>,
)
    requires
        carried(s, t, from, n, k),
        placed(s, c),
        from <= c.pos,
    ensures
        literal(t, moved_cursor(c, n), value) == moved(literal(s, c, value), n, k),
    decreases s.tokens.len() - c.pos, 0nat,
{
    lemma_carried(s, t, from, n, k, c);
    if s.peek(c) is HatHat {
        move_term(s, t, from, n, k, s.step(c));
    }
}

/// Reading a term that stands further on gives the same term.
pub proof fn move_term(s: Scope, t: Scope, from: int, n: int, k: int, c: Cursor)
    requires
        carried(s, t, from, n, k),
        placed(s, c),
        from <= c.pos,
    ensures
        term(t, moved_cursor(c, n)) == moved(term(s, c), n, k),
    decreases s.tokens.len() - c.pos, 2nat,
{
    lemma_carried(s, t, from, n, k, c);
    if c.pos < s.last() {
        let d = s.step(c);
        match s.peek(c) {
            KindView::String(value) => {
                move_literal(s, t, from, n, k, d, value);
            },
            KindView::LBrace => {
                move_formula(s, t, from, n, k, c);
            },
            KindView::LBracket => {
                move_property_list(s, t, from, n, k, d);
            },
            KindView::LParen => {
                lemma_list_items(s, d);
                move_list_items(s, t, from, n, k, d);
                if let Ok((list, e)) = list_items(s, d) {
                    move_expect(s, t, from, n, k, e, KindView::RParen);
                }
            },
            _ => {},
        }
    }
}

proof fn move_list_items(s: Scope, t: Scope, from: int, n: int, k: int, c: Cursor)
    requires
        carried(s, t, from, n, k),
        placed(s, c),
        from <= c.pos,
    ensures
        list_items(t, moved_cursor(c, n)) == moved(list_items(s, c), n, k),
    decreases s.tokens.len() - c.pos, 7nat,
{
    lemma_carried(s, t, from, n, k, c);
    if !(s.peek(c) is RParen || s.peek(c) is Eof) {
        lemma_term(s, c);
        move_term(s, t, from, n, k, c);
        if let Ok((first, d)) = term(s, c) {
            move_list_items(s, t, from, n, k, d);
        }
    }
}

proof fn move_property_list(s: Scope, t: Scope, from: int, n: int, k: int, c: Cursor)
    requires
        carried(s, t, from, n, k),
        placed(s, c),
        from <= c.pos,
    ensures
        property_list(t, moved_cursor(c, n)) == moved(property_list(s, c), n, k),
    decreases s.tokens.len() - c.pos, 7nat,
{
    let blank = TermView::Blank(fresh_label(c.blanks + 1));
    let c = Cursor { pos: c.pos, blanks: c.blanks + 1 };
    lemma_carried(s, t, from, n, k, c);
    if !(s.peek(c) is RBracket) {
        lemma_predicates(s, c, blank);
        move_predicates(s, t, from, n, k, c, blank);
        if let Ok((items, d)) = predicates(s, c, blank) {
            move_expect(s, t, from, n, k, d, KindView::RBracket);
        }
    }
}

proof fn move_verb(s: Scope, t: Scope, from: int, n: int, k: int, c: Cursor)
    requires
        carried(s, t, from, n, k),
        placed(s, c),
        from <= c.pos,
    ensures
        verb(t, moved_cursor(c, n)) == moved(verb(s, c), n, k),
    decreases s.tokens.len() - c.pos, 4nat,
{
    lemma_carried(s, t, from, n, k, c);
    move_term(s, t, from, n, k, c);
}

proof fn move_objects(
    s: Scope,
    t: Scope,
    from: int,
    n: int,
    k: int,
    c: Cursor,
    subject: TermView,
    predicate: TermView,
)
    requires
        carried(s, t, from, n, k),
        placed(s, c),
        from <= c.pos,
    ensures
        objects(t, moved_cursor(c, n), subject, predicate) == moved(
            objects(s, c, subject, predicate),
            n,
            k,
        ),
    decreases s.tokens.len() - c.pos, 3nat,
{
    lemma_term(s, c);
    move_term(s, t, from, n, k, c);
    if let Ok((object, d)) = term(s, c) {
        lemma_carried(s, t, from, n, k, d);
        if s.peek(d) is Comma {
            move_objects(s, t, from, n, k, s.step(d), subject, predicate);
        }
    }
}

proof fn move_semicolons(s: Scope, t: Scope, from: int, n: int, k: int, c: Cursor)
    requires
        carried(s, t, from, n, k),
        placed(s, c),
        from <= c.pos,
    ensures
        skip_semicolons(t, moved_cursor(c, n)) == moved_cursor(skip_semicolons(s, c), n),
    decreases s.tokens.len() - c.pos,
{
    lemma_carried(s, t, from, n, k, c);
    if s.peek(c) is Semicolon && s.gains(c, s.step(c)) {
        move_semicolons(s, t, from, n, k, s.step(c));
    }
}

proof fn move_predicates(
    s: Scope,
    t: Scope,
    from: int,
    n: int,
    k: int,
    c: Cursor,
    subject: TermView,
)
    requires
        carried(s, t, from, n, k),
        placed(s, c),
        from <= c.pos,
    ensures
        predicates(t, moved_cursor(c, n), subject) == moved(predicates(s, c, subject), n, k),
    decreases s.tokens.len() - c.pos, 5nat,
{
    lemma_carried(s, t, from, n, k, c);
    if !s.ends_predicates(c) {
        lemma_verb(s, c);
        move_verb(s, t, from, n, k, c);
        if let Ok((predicate, d)) = verb(s, c) {
            lemma_objects(s, d, subject, predicate);
            move_objects(s, t, from, n, k, d, subject, predicate);
            if let Ok((first, e)) = objects(s, d, subject, predicate) {
                lemma_carried(s, t, from, n, k, e);
                if s.peek(e) is Semicolon {
                    lemma_skip_semicolons(s, e);
                    move_semicolons(s, t, from, n, k, e);
                    move_predicates(s, t, from, n, k, skip_semicolons(s, e), subject);
                }
            }
        }
    }
}

proof fn move_statement_triples(s: Scope, t: Scope, from: int, n: int, k: int, c: Cursor)
    requires
        carried(s, t, from, n, k),
        placed(s, c),
        from <= c.pos,
    ensures
        statement_triples(t, moved_cursor(c, n)) == moved(statement_triples(s, c), n, k),
    decreases s.tokens.len() - c.pos, 6nat,
{
    lemma_term(s, c);
    move_term(s, t, from, n, k, c);
    if let Ok((subject, d)) = term(s, c) {
        lemma_carried(s, t, from, n, k, d);
        if s.peek(d) is Arrow || s.peek(d) is BackArrow {
            move_term(s, t, from, n, k, s.step(d));
        } else {
            move_predicates(s, t, from, n, k, d, subject.term);
        }
    }
}

proof fn move_formula_items(s: Scope, t: Scope, from: int, n: int, k: int, c: Cursor)
    requires
        carried(s, t, from, n, k),
        placed(s, c),
        from <= c.pos,
    ensures
        formula_items(t, moved_cursor(c, n)) == moved(formula_items(s, c), n, k),
    decreases s.tokens.len() - c.pos, 7nat,
{
    lemma_carried(s, t, from, n, k, c);
    if s.peek(c) is RBrace || s.peek(c) is Eof {
    } else if s.peek(c) is Dot {
        move_formula_items(s, t, from, n, k, s.step(c));
    } else {
        lemma_statement_triples(s, c);
        move_statement_triples(s, t, from, n, k, c);
        if let Ok((first, d)) = statement_triples(s, c) {
            lemma_carried(s, t, from, n, k, d);
            if s.peek(d) is Dot {
                move_formula_items(s, t, from, n, k, s.step(d));
            } else if s.peek(d) is RBrace {
                move_formula_items(s, t, from, n, k, d);
            }
        }
    }
}

/// Reading a formula that stands further on gives the same formula.
pub proof fn move_formula(s: Scope, t: Scope, from: int, n: int, k: int, c: Cursor)
    requires
        carried(s, t, from, n, k),
        placed(s, c),
        from <= c.pos,
    ensures
        formula(t, moved_cursor(c, n)) == moved(formula(s, c), n, k),
    decreases s.tokens.len() - c.pos, 1nat,
{
    lemma_carried(s, t, from, n, k, c);
    move_expect(s, t, from, n, k, c, KindView::LBrace);
    if s.peek(c) is LBrace {
        let d = s.step(c);
        lemma_formula_items(s, d);
        move_formula_items(s, t, from, n, k, d);
        if let Ok((items, e)) = formula_items(s, d) {
            move_expect(s, t, from, n, k, e, KindView::RBrace);
        }
    }
}

/// Reading the right side of a rule that stands further on gives the same triples.
pub proof fn move_conclusions(s: Scope, t: Scope, from: int, n: int, k: int, c: Cursor)
    requires
        carried(s, t, from, n, k),
        placed(s, c),
        from <= c.pos,
    ensures
        formula_or_true(t, moved_cursor(c, n)) == moved(formula_or_true(s, c), n, k),
        forward_conclusion(t, moved_cursor(c, n)) == moved(forward_conclusion(s, c), n, k),
{
    lemma_carried(s, t, from, n, k, c);
    move_formula(s, t, from, n, k, c);
    move_term(s, t, from, n, k, c);
}

proof fn move_formula_content(
    s: Scope,
    t: Scope,
    from: int,
    n: int,
    k: int,
    doc: DocumentView,
    c: Cursor,
)
    requires
        carried(s, t, from, n, k),
        placed(s, c),
        from <= c.pos,
    ensures
        formula_content(t, doc, moved_cursor(c, n)) == moved(formula_content(s, doc, c), n, k),
{
    lemma_formula(s, c);
    move_formula(s, t, from, n, k, c);
    if let Ok((left, d)) = formula(s, c) {
        lemma_carried(s, t, from, n, k, d);
        if s.peek(d) is Arrow || s.peek(d) is BackArrow {
            move_conclusions(s, t, from, n, k, s.step(d));
        } else {
            lemma_verb(s, d);
            move_verb(s, t, from, n, k, d);
            if let Ok((predicate, e)) = verb(s, d) {
                lemma_carried(s, t, from, n, k, e);
                move_conclusions(s, t, from, n, k, e);
            }
        }
    }
}

proof fn move_content(
    s: Scope,
    t: Scope,
    from: int,
    n: int,
    k: int,
    doc: DocumentView,
    c: Cursor,
)
    requires
        carried(s, t, from, n, k),
        placed(s, c),
        from <= c.pos,
    ensures
        content(t, doc, moved_cursor(c, n)) == moved(content(s, doc, c), n, k),
{
    let d = s.step(c);
    let e = s.step(d);
    lemma_carried(s, t, from, n, k, c);
    lemma_carried(s, t, from, n, k, d);
    lemma_carried(s, t, from, n, k, e);
    match s.peek(c) {
        KindView::LBrace => {
            move_formula_content(s, t, from, n, k, doc, c);
        },
        KindView::Boolean(true) => {
            move_conclusions(s, t, from, n, k, e);
        },
        KindView::AtPrefix => {},
        KindView::Prefix => {},
        KindView::AtBase => {},
        KindView::Base => {},
        KindView::Dot => {},
        _ => {
            move_statement_triples(s, t, from, n, k, c);
        },
    }
}

/// The tokens of a text from index `from` on stand at the end of other tokens, `n` tokens and `k`
/// characters further on.
pub open spec fn ends_with(
    b: Seq<TokenView>,
    a: Seq<TokenView>,
    from: int,
    n: int,
    k: int,
) -> bool {
    &&& 0 <= from < a.len()
    &&& a.last().kind is Eof
    &&& 0 <= from + n
    &&& b.len() == a.len() + n
    &&& forall|i: int| from <= i < a.len() ==> moved_token(#[trigger] a[i], k) == b[i + n]
}

/// What a text says, or its error `k` characters further on.
pub open spec fn moved_document(r: Result<DocumentView, ErrorView>, k: int) -> Result<
    DocumentView,
    ErrorView,
> {
    match r {
        Ok(doc) => Ok(doc),
        Err(e) => Err(moved_error(e, k)),
    }
}

proof fn move_statement(
    a: Seq<TokenView>,
    b: Seq<TokenView>,
    from: int,
    n: int,
    k: int,
    doc: DocumentView,
    c: Cursor,
)
    requires
        ends_with(b, a, from, n, k),
        from <= c.pos < a.len(),
        !(a[c.pos].kind is Eof),
    ensures
        statement(b, doc, moved_cursor(c, n)) == moved(statement(a, doc, c), n, k),
{
    let s = scope(a, doc);
    let t = scope(b, doc);
    assert(carried(s, t, from, n, k));
    lemma_content(s, doc, c);
    move_content(s, t, from, n, k, doc, c);
    if let Ok((said, d)) = content(s, doc, c) {
        move_expect(s, t, from, n, k, d, KindView::Dot);
    }
}

/// Statements say the same where they stand behind other tokens; an error is reported as much
/// further on as they stand.
pub proof fn law_statements_move(
    a: Seq<TokenView>,
    b: Seq<TokenView>,
    from: int,
    n: int,
    k: int,
    doc: DocumentView,
    c: Cursor,
)
    requires
        ends_with(b, a, from, n, k),
        from <= c.pos < a.len(),
    ensures
        statements(b, doc, moved_cursor(c, n)) == moved_document(statements(a, doc, c), k),
    decreases a.len() - c.pos,
{
    assert(moved_token(a[c.pos], k) == b[c.pos + n]);
    if !(a[c.pos].kind is Eof) {
        lemma_statement(a, doc, c);
        move_statement(a, b, from, n, k, doc, c);
        if let Ok((next, d)) = statement(a, doc, c) {
            law_statements_move(a, b, from, n, k, next, d);
        }
    }
}

} // verus!
