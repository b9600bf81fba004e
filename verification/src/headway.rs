//! How reading moves along the tokens, and where its errors point.
use crate::ast::{DocumentView, TermView};
use crate::error::ErrorView;
use crate::grammar::{
    content, expect, formula, formula_items, formula_or_true, formula_content, forward_conclusion,
    list_items, literal, no_headway, objects, predicates, property_list, scope, skip_semicolons,
    statement, statement_triples, statements, term, term_at_end, true_content, verb, Cursor,
    Reading, Scope,
};
use crate::token::{KindView, TokenView};
use vstd::prelude::*;

verus! {

/// Tokens that hold something and end with the end of the text.
pub open spec fn complete(tokens: Seq<TokenView>) -> bool {
    tokens.len() >= 2 && tokens.last().kind is Eof
}

/// A place among such tokens.
pub open spec fn placed(s: Scope, c: Cursor) -> bool {
    complete(s.tokens) && 0 <= c.pos <= s.last()
}

/// An error that, where it has a position, has that of a token.
pub open spec fn at_token(tokens: Seq<TokenView>, e: ErrorView) -> bool {
    match e.offset {
        Some(offset) => exists|k: int|
            0 <= k < tokens.len() && (#[trigger] tokens[k]).offset == offset,
        None => true,
    }
}

/// An error that reading reports: not the want of headway, and at a token.
pub open spec fn reported(tokens: Seq<TokenView>, e: ErrorView) -> bool {
    e != no_headway() && at_token(tokens, e)
}

/// Reading from `c` on did not go back nor past the last token, and gave no more labels than it
/// read tokens.
pub open spec fn goes_on<T>(s: Scope, c: Cursor, r: Reading<T>) -> bool {
    match r {
        Ok((_, d)) => s.reaches(c, d) && c.blanks <= d.blanks <= c.blanks + (d.pos - c.pos),
        Err(e) => reported(s.tokens, e),
    }
}

/// Reading went on, and read something unless it began at the end of the text.
pub open spec fn gets_on<T>(s: Scope, c: Cursor, r: Reading<T>) -> bool {
    &&& goes_on(s, c, r)
    &&& r is Ok && c.pos < s.last() ==> s.gains(c, r->Ok_0.1)
}

proof fn lemma_plain_errors()
    ensures
        ErrorView::plain("datatype cannot generate triples"@) != no_headway(),
        ErrorView::plain("datatype must be an IRI"@) != no_headway(),
        ErrorView::plain("generated blank/list triples cannot be used as predicates"@)
            != no_headway(),
        ErrorView::plain("generated triples cannot appear around an unquoted RHS term"@)
            != no_headway(),
{
    reveal_strlit("datatype cannot generate triples");
    reveal_strlit("datatype must be an IRI");
    reveal_strlit("generated blank/list triples cannot be used as predicates");
    reveal_strlit("generated triples cannot appear around an unquoted RHS term");
    reveal_strlit("no headway");
    assert("no headway"@.len() == 10);
    assert("datatype cannot generate triples"@.len() == 32);
    assert("datatype must be an IRI"@.len() == 23);
    assert("generated blank/list triples cannot be used as predicates"@.len() > 10);
    assert("generated triples cannot appear around an unquoted RHS term"@.len() > 10);
}

/// An error at the token that comes next, or at the one that is read, is reported.
proof fn lemma_located(s: Scope, c: Cursor)
    requires
        placed(s, c),
    ensures
        forall|message: Seq<char>|
            reported(s.tokens, #[trigger] ErrorView::located(message, s.offset(c))),
        forall|message: Seq<char>|
            reported(s.tokens, #[trigger] ErrorView::located(message, s.read(c).offset)),
{
    assert(s.tokens[c.pos].offset == s.offset(c));
    let k = if c.pos < s.last() {
        c.pos
    } else {
        c.pos - 1
    };
    assert(s.tokens[k].offset == s.read(c).offset);
}

proof fn lemma_expect(s: Scope, c: Cursor, expected: KindView)
    requires
        placed(s, c),
        !(expected is Eof),
    ensures
        gets_on(s, c, expect(s, c, expected)),
        expect(s, c, expected) is Ok ==> s.gains(c, s.step(c)),
{
    lemma_located(s, c);
}

/// Reading the rest of a literal goes on.
pub proof fn lemma_literal(s: Scope, c: Cursor, value: Seq<char>)
    requires
        placed(s, c),
    ensures
        goes_on(s, c, literal(s, c, value)),
    decreases s.tokens.len() - c.pos, 0nat,
{
    lemma_plain_errors();
    if s.peek(c) is HatHat {
        lemma_term(s, s.step(c));
    }
}

proof fn lemma_term_at_end(s: Scope, c: Cursor)
    requires
        placed(s, c),
        c.pos == s.last(),
    ensures
        gets_on(s, c, term_at_end(s, c)),
{
    lemma_located(s, c);
}

/// Reading a term gets on.
pub proof fn lemma_term(s: Scope, c: Cursor)
    requires
        placed(s, c),
    ensures
        gets_on(s, c, term(s, c)),
    decreases s.tokens.len() - c.pos, 2nat,
{
    lemma_located(s, c);
    if c.pos >= s.last() {
        lemma_term_at_end(s, c);
    } else {
        match s.peek(c) {
            KindView::String(value) => {
                lemma_literal(s, s.step(c), value);
            },
            KindView::LBrace => {
                lemma_formula(s, c);
            },
            KindView::LBracket => {
                lemma_property_list(s, s.step(c));
            },
            KindView::LParen => {
                lemma_list_items(s, s.step(c));
                if let Ok((list, d)) = list_items(s, s.step(c)) {
                    lemma_expect(s, d, KindView::RParen);
                }
            },
            _ => {},
        }
    }
}

/// Reading the items of a list goes on.
pub proof fn lemma_list_items(s: Scope, c: Cursor)
    requires
        placed(s, c),
    ensures
        goes_on(s, c, list_items(s, c)),
    decreases s.tokens.len() - c.pos, 7nat,
{
    if !(s.peek(c) is RParen || s.peek(c) is Eof) {
        lemma_term(s, c);
        if let Ok((first, d)) = term(s, c) {
            lemma_list_items(s, d);
        }
    }
}

/// Reading what stands between brackets goes on. The label of the blank node itself comes on top of
/// one for each token.
pub proof fn lemma_property_list(s: Scope, c: Cursor)
    requires
        placed(s, c),
    ensures
        goes_on(s, Cursor { pos: c.pos, blanks: c.blanks + 1 }, property_list(s, c)),
    decreases s.tokens.len() - c.pos, 7nat,
{
    let blank = TermView::Blank(crate::grammar::fresh_label(c.blanks + 1));
    let c = Cursor { pos: c.pos, blanks: c.blanks + 1 };
    if !(s.peek(c) is RBracket) {
        lemma_predicates(s, c, blank);
        if let Ok((items, d)) = predicates(s, c, blank) {
            lemma_expect(s, d, KindView::RBracket);
        }
    }
}

/// Reading a predicate gets on.
pub proof fn lemma_verb(s: Scope, c: Cursor)
    requires
        placed(s, c),
    ensures
        gets_on(s, c, verb(s, c)),
    decreases s.tokens.len() - c.pos, 4nat,
{
    lemma_plain_errors();
    lemma_term(s, c);
}

/// Reading objects gets on.
pub proof fn lemma_objects(s: Scope, c: Cursor, subject: TermView, predicate: TermView)
    requires
        placed(s, c),
    ensures
        gets_on(s, c, objects(s, c, subject, predicate)),
    decreases s.tokens.len() - c.pos, 3nat,
{
    lemma_term(s, c);
    if let Ok((object, d)) = term(s, c) {
        if s.peek(d) is Comma {
            lemma_objects(s, s.step(d), subject, predicate);
        }
    }
}

/// Skipping semicolons goes on, and skips the first one.
pub proof fn lemma_skip_semicolons(s: Scope, c: Cursor)
    requires
        placed(s, c),
    ensures
        s.reaches(c, skip_semicolons(s, c)),
        skip_semicolons(s, c).blanks == c.blanks,
        s.peek(c) is Semicolon ==> s.gains(c, skip_semicolons(s, c)),
    decreases s.tokens.len() - c.pos,
{
    if s.peek(c) is Semicolon && s.gains(c, s.step(c)) {
        lemma_skip_semicolons(s, s.step(c));
    }
}

/// Reading predicates with their objects goes on.
pub proof fn lemma_predicates(s: Scope, c: Cursor, subject: TermView)
    requires
        placed(s, c),
    ensures
        goes_on(s, c, predicates(s, c, subject)),
    decreases s.tokens.len() - c.pos, 5nat,
{
    if !s.ends_predicates(c) {
        lemma_verb(s, c);
        if let Ok((predicate, d)) = verb(s, c) {
            lemma_objects(s, d, subject, predicate);
            if let Ok((first, e)) = objects(s, d, subject, predicate) {
                if s.peek(e) is Semicolon {
                    lemma_skip_semicolons(s, e);
                    lemma_predicates(s, skip_semicolons(s, e), subject);
                }
            }
        }
    }
}

/// Reading a subject with its predicates gets on.
pub proof fn lemma_statement_triples(s: Scope, c: Cursor)
    requires
        placed(s, c),
    ensures
        gets_on(s, c, statement_triples(s, c)),
    decreases s.tokens.len() - c.pos, 6nat,
{
    lemma_term(s, c);
    if let Ok((subject, d)) = term(s, c) {
        if s.peek(d) is Arrow || s.peek(d) is BackArrow {
            lemma_term(s, s.step(d));
        } else {
            lemma_predicates(s, d, subject.term);
        }
    }
}

/// Reading the statements of a formula goes on.
pub proof fn lemma_formula_items(s: Scope, c: Cursor)
    requires
        placed(s, c),
    ensures
        goes_on(s, c, formula_items(s, c)),
    decreases s.tokens.len() - c.pos, 7nat,
{
    if s.peek(c) is RBrace || s.peek(c) is Eof {
    } else if s.peek(c) is Dot {
        lemma_formula_items(s, s.step(c));
    } else {
        lemma_statement_triples(s, c);
        if let Ok((first, d)) = statement_triples(s, c) {
            lemma_located(s, d);
            if s.peek(d) is Dot {
                lemma_formula_items(s, s.step(d));
            } else if s.peek(d) is RBrace {
                lemma_formula_items(s, d);
            }
        }
    }
}

/// Reading a formula gets on.
pub proof fn lemma_formula(s: Scope, c: Cursor)
    requires
        placed(s, c),
    ensures
        gets_on(s, c, formula(s, c)),
    decreases s.tokens.len() - c.pos, 1nat,
{
    lemma_expect(s, c, KindView::LBrace);
    if let Ok((_, d)) = expect(s, c, KindView::LBrace) {
        lemma_formula_items(s, d);
        if let Ok((items, e)) = formula_items(s, d) {
            lemma_expect(s, e, KindView::RBrace);
        }
    }
}

/// Reading the right side of a rule gets on.
pub proof fn lemma_conclusion(s: Scope, c: Cursor)
    requires
        placed(s, c),
    ensures
        gets_on(s, c, formula_or_true(s, c)),
        gets_on(s, c, forward_conclusion(s, c)),
{
    lemma_plain_errors();
    lemma_formula(s, c);
    lemma_term(s, c);
}

proof fn lemma_rule_contents(s: Scope, doc: DocumentView, c: Cursor)
    requires
        placed(s, c),
    ensures
        gets_on(s, c, formula_content(s, doc, c)),
        s.peek(c) is Boolean ==> gets_on(s, c, true_content(s, doc, c)),
{
    lemma_formula(s, c);
    if let Ok((left, d)) = formula(s, c) {
        lemma_conclusion(s, s.step(d));
        lemma_verb(s, d);
        if let Ok((predicate, e)) = verb(s, d) {
            lemma_conclusion(s, e);
            lemma_located(s, e);
        }
    }
    let d = s.step(c);
    lemma_located(s, d);
    lemma_conclusion(s, s.step(d));
}

/// Reading what stands before the dot of a statement goes on.
pub proof fn lemma_content(s: Scope, doc: DocumentView, c: Cursor)
    requires
        placed(s, c),
        !(s.peek(c) is Eof),
    ensures
        goes_on(s, c, content(s, doc, c)),
{
    lemma_located(s, s.step(c));
    lemma_located(s, s.step(s.step(c)));
    lemma_rule_contents(s, doc, c);
    lemma_statement_triples(s, c);
}

/// Reading a statement gets on.
pub proof fn lemma_statement(tokens: Seq<TokenView>, doc: DocumentView, c: Cursor)
    requires
        placed(scope(tokens, doc), c),
        !(tokens[c.pos].kind is Eof),
    ensures
        gets_on(scope(tokens, doc), c, statement(tokens, doc, c)),
{
    let s = scope(tokens, doc);
    lemma_content(s, doc, c);
    if let Ok((said, d)) = content(s, doc, c) {
        lemma_expect(s, d, KindView::Dot);
    }
}

/// Reading statements reports an error at a token, if it reports one.
pub proof fn lemma_statements(tokens: Seq<TokenView>, doc: DocumentView, c: Cursor)
    requires
        tokens.len() > 0,
        tokens.last().kind is Eof,
        0 <= c.pos < tokens.len(),
    ensures
        statements(tokens, doc, c) matches Err(e) ==> reported(tokens, e),
    decreases tokens.len() - c.pos,
{
    if !(tokens[c.pos].kind is Eof) {
        lemma_statement(tokens, doc, c);
        if let Ok((doc, d)) = statement(tokens, doc, c) {
            lemma_statements(tokens, doc, d);
        }
    }
}

} // verus!
