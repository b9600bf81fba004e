//! Braces come in pairs in what is read.
use crate::ast::TermView;
use crate::grammar::{
    formula, formula_items, fresh_label, list_items, literal, objects, predicates, property_list,
    skip_semicolons, statement_triples, term, verb, Cursor, Reading, Scope,
};
use crate::headway::{
    lemma_formula_items, lemma_list_items, lemma_objects, lemma_predicates, lemma_skip_semicolons,
    lemma_statement_triples, lemma_term, lemma_verb, placed,
};
use crate::token::{KindView, TokenView};
use vstd::prelude::*;

verus! {

/// How many more braces are opened than closed before a token.
pub open spec fn level(tokens: Seq<TokenView>, i: int) -> int
    decreases i,
{
    if i <= 0 {
        0
    } else {
        level(tokens, i - 1) + match tokens[i - 1].kind {
            KindView::LBrace => 1int,
            KindView::RBrace => -1int,
            _ => 0int,
        }
    }
}

/// From one token to another each brace that is closed was opened there, and the other way round.
pub open spec fn paired(tokens: Seq<TokenView>, i: int, j: int) -> bool {
    &&& level(tokens, j) == level(tokens, i)
    &&& forall|k: int| i <= k <= j ==> #[trigger] level(tokens, k) >= level(tokens, i)
}

/// A pair of braces stands around all from one token up to another.
pub open spec fn encloses(tokens: Seq<TokenView>, i: int, j: int) -> bool {
    &&& 0 <= i < j <= tokens.len()
    &&& tokens[i].kind is LBrace
    &&& level(tokens, j) == level(tokens, i)
    &&& forall|k: int| i < k < j ==> #[trigger] level(tokens, k) > level(tokens, i)
}

/// The braces of what was read come in pairs.
spec fn reads_paired<T>(s: Scope, c: Cursor, r: Reading<T>) -> bool {
    r matches Ok((_, d)) ==> paired(s.tokens, c.pos, d.pos)
}

/// A token that is no brace is a step within a pair.
proof fn paired_step(s: Scope, c: Cursor)
    requires
        placed(s, c),
        !(s.peek(c) is LBrace || s.peek(c) is RBrace),
    ensures
        paired(s.tokens, c.pos, s.step(c).pos),
{
    assert(level(s.tokens, c.pos + 1) == level(s.tokens, c.pos));
}

proof fn paired_literal(s: Scope, c: Cursor, value: Seq<char>)
    requires
        placed(s, c),
    ensures
        reads_paired(s, c, literal(s, c, value)),
    decreases s.tokens.len() - c.pos, 0nat,
{
    if s.peek(c) is HatHat {
        paired_step(s, c);
        if s.gains(c, s.step(c)) {
            lemma_term(s, s.step(c));
            paired_term(s, s.step(c));
        }
    } else if s.peek(c) is Lang {
        paired_step(s, c);
    }
}

proof fn paired_term(s: Scope, c: Cursor)
    requires
        placed(s, c),
    ensures
        reads_paired(s, c, term(s, c)),
    decreases s.tokens.len() - c.pos, 2nat,
{
    if c.pos < s.last() {
        let d = s.step(c);
        match s.peek(c) {
            KindView::String(value) => {
                paired_step(s, c);
                paired_literal(s, d, value);
            },
            KindView::LBrace => {
                paired_formula(s, c);
            },
            KindView::LBracket => {
                paired_step(s, c);
                paired_property_list(s, d);
            },
            KindView::LParen => {
                paired_step(s, c);
                lemma_list_items(s, d);
                paired_list_items(s, d);
                if let Ok((list, e)) = list_items(s, d) {
                    if s.peek(e) is RParen {
                        paired_step(s, e);
                    }
                }
            },
            KindView::RBrace => {},
            _ => {
                paired_step(s, c);
            },
        }
    }
}

proof fn paired_list_items(s: Scope, c: Cursor)
    requires
        placed(s, c),
    ensures
        reads_paired(s, c, list_items(s, c)),
    decreases s.tokens.len() - c.pos, 7nat,
{
    if !(s.peek(c) is RParen || s.peek(c) is Eof) {
        lemma_term(s, c);
        paired_term(s, c);
        if let Ok((first, d)) = term(s, c) {
            lemma_list_items(s, d);
            paired_list_items(s, d);
        }
    }
}

proof fn paired_property_list(s: Scope, c: Cursor)
    requires
        placed(s, c),
    ensures
        reads_paired(s, c, property_list(s, c)),
    decreases s.tokens.len() - c.pos, 7nat,
{
    let blank = TermView::Blank(fresh_label(c.blanks + 1));
    let c = Cursor { pos: c.pos, blanks: c.blanks + 1 };
    if s.peek(c) is RBracket {
        paired_step(s, c);
    } else {
        lemma_predicates(s, c, blank);
        paired_predicates(s, c, blank);
        if let Ok((items, d)) = predicates(s, c, blank) {
            if s.peek(d) is RBracket {
                paired_step(s, d);
            }
        }
    }
}

proof fn paired_verb(s: Scope, c: Cursor)
    requires
        placed(s, c),
    ensures
        reads_paired(s, c, verb(s, c)),
    decreases s.tokens.len() - c.pos, 4nat,
{
    if s.peek(c) is A || s.peek(c) is Equals || s.peek(c) is Arrow || s.peek(c) is BackArrow {
        paired_step(s, c);
    } else {
        paired_term(s, c);
    }
}

proof fn paired_objects(s: Scope, c: Cursor, subject: TermView, predicate: TermView)
    requires
        placed(s, c),
    ensures
        reads_paired(s, c, objects(s, c, subject, predicate)),
    decreases s.tokens.len() - c.pos, 3nat,
{
    lemma_term(s, c);
    paired_term(s, c);
    if let Ok((object, d)) = term(s, c) {
        if s.peek(d) is Comma && s.gains(c, s.step(d)) {
            paired_step(s, d);
            lemma_objects(s, s.step(d), subject, predicate);
            paired_objects(s, s.step(d), subject, predicate);
        }
    }
}

proof fn paired_semicolons(s: Scope, c: Cursor)
    requires
        placed(s, c),
    ensures
        paired(s.tokens, c.pos, skip_semicolons(s, c).pos),
    decreases s.tokens.len() - c.pos,
{
    if s.peek(c) is Semicolon && s.gains(c, s.step(c)) {
        paired_step(s, c);
        lemma_skip_semicolons(s, s.step(c));
        paired_semicolons(s, s.step(c));
    }
}

proof fn paired_predicates(s: Scope, c: Cursor, subject: TermView)
    requires
        placed(s, c),
    ensures
        reads_paired(s, c, predicates(s, c, subject)),
    decreases s.tokens.len() - c.pos, 5nat,
{
    if !s.ends_predicates(c) {
        lemma_verb(s, c);
        paired_verb(s, c);
        if let Ok((predicate, d)) = verb(s, c) {
            lemma_objects(s, d, subject, predicate);
            paired_objects(s, d, subject, predicate);
            if let Ok((first, e)) = objects(s, d, subject, predicate) {
                if s.peek(e) is Semicolon {
                    let f = skip_semicolons(s, e);
                    lemma_skip_semicolons(s, e);
                    paired_semicolons(s, e);
                    lemma_predicates(s, f, subject);
                    paired_predicates(s, f, subject);
                }
            }
        }
    }
}

proof fn paired_statement_triples(s: Scope, c: Cursor)
    requires
        placed(s, c),
    ensures
        reads_paired(s, c, statement_triples(s, c)),
    decreases s.tokens.len() - c.pos, 6nat,
{
    lemma_term(s, c);
    paired_term(s, c);
    if let Ok((subject, d)) = term(s, c) {
        if s.peek(d) is Arrow || s.peek(d) is BackArrow {
            if s.gains(c, s.step(d)) {
                paired_step(s, d);
                lemma_term(s, s.step(d));
                paired_term(s, s.step(d));
            }
        } else {
            lemma_predicates(s, d, subject.term);
            paired_predicates(s, d, subject.term);
        }
    }
}

proof fn paired_formula_items(s: Scope, c: Cursor)
    requires
        placed(s, c),
    ensures
        reads_paired(s, c, formula_items(s, c)),
    decreases s.tokens.len() - c.pos, 7nat,
{
    if s.peek(c) is RBrace || s.peek(c) is Eof {
    } else if s.peek(c) is Dot {
        if s.gains(c, s.step(c)) {
            paired_step(s, c);
            lemma_formula_items(s, s.step(c));
            paired_formula_items(s, s.step(c));
        }
    } else {
        lemma_statement_triples(s, c);
        paired_statement_triples(s, c);
        if let Ok((first, d)) = statement_triples(s, c) {
            if s.peek(d) is Dot {
                paired_step(s, d);
                lemma_formula_items(s, s.step(d));
                paired_formula_items(s, s.step(d));
            } else if s.peek(d) is RBrace {
                lemma_formula_items(s, d);
                paired_formula_items(s, d);
            }
        }
    }
}

proof fn paired_formula(s: Scope, c: Cursor)
    requires
        placed(s, c),
    ensures
        reads_paired(s, c, formula(s, c)),
        formula(s, c) matches Ok((_, d)) ==> encloses(s.tokens, c.pos, d.pos),
    decreases s.tokens.len() - c.pos, 1nat,
{
    if s.peek(c) is LBrace && s.gains(c, s.step(c)) {
        let d = s.step(c);
        lemma_formula_items(s, d);
        paired_formula_items(s, d);
        assert(level(s.tokens, d.pos) == level(s.tokens, c.pos) + 1);
        if let Ok((items, e)) = formula_items(s, d) {
            if s.peek(e) is RBrace {
                assert(level(s.tokens, e.pos + 1) == level(s.tokens, e.pos) - 1);
            }
        }
    }
}

/// A formula that is read ends with the brace that belongs to the one it begins with.
pub proof fn law_formula_is_enclosed(s: Scope, c: Cursor)
    requires
        placed(s, c),
        formula(s, c) is Ok,
    ensures
        encloses(s.tokens, c.pos, formula(s, c)->Ok_0.1.pos),
{
    paired_formula(s, c);
}

/// Where the braces of a pair stand does not depend on what follows them.
pub proof fn law_pairs_are_local(a: Seq<TokenView>, b: Seq<TokenView>, i: int, j: int)
    requires
        encloses(a, i, j),
        j <= b.len(),
        forall|k: int| 0 <= k < j ==> #[trigger] a[k] == b[k],
    ensures
        encloses(b, i, j),
{
    assert forall|k: int| 0 <= k <= j implies #[trigger] level(b, k) == level(a, k) by {
        lemma_level(a, b, k);
    }
    assert(a[i] == b[i]);
}

proof fn lemma_level(a: Seq<TokenView>, b: Seq<TokenView>, i: int)
    requires
        forall|k: int| 0 <= k < i ==> #[trigger] a[k] == b[k],
    ensures
        level(a, i) == level(b, i),
    decreases i,
{
    if i > 0 {
        lemma_level(a, b, i - 1);
        assert(a[i - 1] == b[i - 1]);
    }
}

/// The brace that belongs to another is one and the same.
pub proof fn law_brace_belongs_to_one(tokens: Seq<TokenView>, i: int, j: int, k: int)
    requires
        encloses(tokens, i, j),
        encloses(tokens, i, k),
    ensures
        j == k,
{
    assert(level(tokens, j) == level(tokens, k));
}

} // verus!
