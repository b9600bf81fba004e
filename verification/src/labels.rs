//! Where no labels are made for blank nodes.
use crate::ast::{DocumentView, TermView};
use crate::grammar::{
    content, formula, formula_items, formula_or_true, forward_conclusion, list_items, objects,
    predicates, scope, skip_semicolons, statement, statement_triples, statements, term, verb,
    Cursor, Reading, Scope,
};
use crate::headway::{
    lemma_formula, lemma_objects, lemma_skip_semicolons, lemma_statement_triples, lemma_term,
    lemma_verb, placed,
};
use crate::token::{KindView, TokenView};
use vstd::prelude::*;

verus! {

/// Tokens without brackets.
pub open spec fn unbracketed(tokens: Seq<TokenView>) -> bool {
    forall|i: int| 0 <= i < tokens.len() ==> !((#[trigger] tokens[i]).kind is LBracket)
}

/// Reading made no label.
pub open spec fn makes_none<T>(c: Cursor, r: Reading<T>) -> bool {
    r is Ok ==> r->Ok_0.1.blanks == c.blanks
}

proof fn lemma_term_labels(s: Scope, c: Cursor)
    requires
        unbracketed(s.tokens),
        placed(s, c),
    ensures
        makes_none(c, term(s, c)),
    decreases s.tokens.len() - c.pos, 2nat,
{
    let d = s.step(c);
    if c.pos < s.last() {
        assert(!(s.tokens[c.pos].kind is LBracket));
        match s.peek(c) {
            KindView::String(value) => {
                if s.peek(d) is HatHat {
                    lemma_term_labels(s, s.step(d));
                }
            },
            KindView::LBrace => {
                lemma_formula_labels(s, c);
            },
            KindView::LParen => {
                lemma_list_labels(s, d);
            },
            _ => {},
        }
    }
}

proof fn lemma_list_labels(s: Scope, c: Cursor)
    requires
        unbracketed(s.tokens),
        placed(s, c),
    ensures
        makes_none(c, list_items(s, c)),
    decreases s.tokens.len() - c.pos, 7nat,
{
    if !(s.peek(c) is RParen || s.peek(c) is Eof) {
        lemma_term(s, c);
        lemma_term_labels(s, c);
        if let Ok((first, d)) = term(s, c) {
            lemma_list_labels(s, d);
        }
    }
}

proof fn lemma_objects_labels(s: Scope, c: Cursor, subject: TermView, predicate: TermView)
    requires
        unbracketed(s.tokens),
        placed(s, c),
    ensures
        makes_none(c, objects(s, c, subject, predicate)),
    decreases s.tokens.len() - c.pos, 3nat,
{
    lemma_term(s, c);
    lemma_term_labels(s, c);
    if let Ok((object, d)) = term(s, c) {
        if s.peek(d) is Comma {
            lemma_objects_labels(s, s.step(d), subject, predicate);
        }
    }
}

proof fn lemma_predicates_labels(s: Scope, c: Cursor, subject: TermView)
    requires
        unbracketed(s.tokens),
        placed(s, c),
    ensures
        makes_none(c, predicates(s, c, subject)),
    decreases s.tokens.len() - c.pos, 5nat,
{
    if !s.ends_predicates(c) {
        lemma_verb(s, c);
        lemma_term_labels(s, c);
        if let Ok((predicate, d)) = verb(s, c) {
            lemma_objects(s, d, subject, predicate);
            lemma_objects_labels(s, d, subject, predicate);
            if let Ok((first, e)) = objects(s, d, subject, predicate) {
                if s.peek(e) is Semicolon {
                    lemma_skip_semicolons(s, e);
                    lemma_predicates_labels(s, skip_semicolons(s, e), subject);
                }
            }
        }
    }
}

proof fn lemma_statement_labels(s: Scope, c: Cursor)
    requires
        unbracketed(s.tokens),
        placed(s, c),
    ensures
        makes_none(c, statement_triples(s, c)),
    decreases s.tokens.len() - c.pos, 6nat,
{
    lemma_term(s, c);
    lemma_term_labels(s, c);
    if let Ok((subject, d)) = term(s, c) {
        if s.peek(d) is Arrow || s.peek(d) is BackArrow {
            lemma_term_labels(s, s.step(d));
        } else {
            lemma_predicates_labels(s, d, subject.term);
        }
    }
}

proof fn lemma_items_labels(s: Scope, c: Cursor)
    requires
        unbracketed(s.tokens),
        placed(s, c),
    ensures
        makes_none(c, formula_items(s, c)),
    decreases s.tokens.len() - c.pos, 7nat,
{
    if s.peek(c) is RBrace || s.peek(c) is Eof {
    } else if s.peek(c) is Dot {
        lemma_items_labels(s, s.step(c));
    } else {
        lemma_statement_triples(s, c);
        lemma_statement_labels(s, c);
        if let Ok((first, d)) = statement_triples(s, c) {
            if s.peek(d) is Dot {
                lemma_items_labels(s, s.step(d));
            } else if s.peek(d) is RBrace {
                lemma_items_labels(s, d);
            }
        }
    }
}

proof fn lemma_formula_labels(s: Scope, c: Cursor)
    requires
        unbracketed(s.tokens),
        placed(s, c),
    ensures
        makes_none(c, formula(s, c)),
    decreases s.tokens.len() - c.pos, 1nat,
{
    if s.peek(c) is LBrace {
        lemma_items_labels(s, s.step(c));
    }
}

proof fn lemma_conclusion_labels(s: Scope, c: Cursor)
    requires
        unbracketed(s.tokens),
        placed(s, c),
    ensures
        makes_none(c, formula_or_true(s, c)),
        makes_none(c, forward_conclusion(s, c)),
{
    lemma_formula_labels(s, c);
    lemma_term_labels(s, c);
}

proof fn lemma_content_labels(s: Scope, doc: DocumentView, c: Cursor)
    requires
        unbracketed(s.tokens),
        placed(s, c),
    ensures
        makes_none(c, content(s, doc, c)),
{
    let d = s.step(c);
    match s.peek(c) {
        KindView::LBrace => {
            lemma_formula(s, c);
            lemma_formula_labels(s, c);
            if let Ok((left, d)) = formula(s, c) {
                lemma_conclusion_labels(s, s.step(d));
                lemma_verb(s, d);
                lemma_term_labels(s, d);
                if let Ok((predicate, e)) = verb(s, d) {
                    lemma_conclusion_labels(s, e);
                }
            }
        },
        KindView::Boolean(true) => {
            lemma_conclusion_labels(s, s.step(d));
        },
        KindView::AtPrefix => {},
        KindView::Prefix => {},
        KindView::AtBase => {},
        KindView::Base => {},
        KindView::Dot => {},
        _ => {
            lemma_statement_labels(s, c);
        },
    }
}

/// Statements without brackets make no labels.
pub proof fn lemma_unbracketed(tokens: Seq<TokenView>, doc: DocumentView, c: Cursor)
    requires
        unbracketed(tokens),
        placed(scope(tokens, doc), c),
        !(tokens[c.pos].kind is Eof),
    ensures
        makes_none(c, statement(tokens, doc, c)),
{
    lemma_content_labels(scope(tokens, doc), doc, c);
}

/// Tokens that declare neither a prefix nor a base.
pub open spec fn undeclaring(tokens: Seq<TokenView>) -> bool {
    forall|i: int|
        0 <= i < tokens.len() ==> {
            let kind = (#[trigger] tokens[i]).kind;
            !(kind is AtPrefix || kind is Prefix || kind is AtBase || kind is Base)
        }
}

/// Statements that declare nothing keep prefixes and base.
pub proof fn lemma_undeclaring(tokens: Seq<TokenView>, doc: DocumentView, c: Cursor)
    requires
        undeclaring(tokens),
        0 <= c.pos < tokens.len(),
        statements(tokens, doc, c) is Ok,
    ensures
        statements(tokens, doc, c)->Ok_0.prefixes == doc.prefixes,
        statements(tokens, doc, c)->Ok_0.base_iri == doc.base_iri,
    decreases tokens.len() - c.pos,
{
    if !(tokens[c.pos].kind is Eof) {
        let (next, d) = statement(tokens, doc, c)->Ok_0;
        assert(next.prefixes == doc.prefixes && next.base_iri == doc.base_iri);
        lemma_undeclaring(tokens, next, d);
    }
}

} // verus!
