//! Where reading stops when it fails.
//!
//! Each function here belongs to the one of [`crate::grammar`] that it is named after, and gives
//! the place at which that one stops on what it cannot read.
use crate::ast::{TermView, LOG_QUERY};
use crate::grammar::{
    formula, fresh_label, objects, predicates, skip_semicolons, statement_triples, term, verb,
    Cursor, Reading, Scope,
};
use crate::token::KindView;
use vstd::prelude::*;

verus! {

/// The place behind what was read, or else the given one.
pub open spec fn end_or<T>(r: Reading<T>, halt: Cursor) -> Cursor {
    match r {
        Ok((_, d)) => d,
        Err(_) => halt,
    }
}

/// Where the datatype of a literal stops: behind it, if it is a term that is no datatype.
pub open spec fn literal_halt(s: Scope, c: Cursor) -> Cursor
    decreases s.tokens.len() - c.pos, 0nat,
{
    if s.gains(c, s.step(c)) {
        end_or(term(s, s.step(c)), term_halt(s, s.step(c)))
    } else {
        c
    }
}

/// Where a term stops.
pub open spec fn term_halt(s: Scope, c: Cursor) -> Cursor
    decreases s.tokens.len() - c.pos, 2nat,
{
    if c.pos >= s.last() {
        c
    } else {
        match s.peek(c) {
            KindView::String(_) => literal_halt(s, s.step(c)),
            KindView::LBrace => formula_halt(s, c),
            KindView::LBracket => property_list_halt(s, s.step(c)),
            KindView::LParen => list_halt(s, s.step(c)),
            _ => s.step(c),
        }
    }
}

/// Where a list stops: at an item, or where it is not closed.
pub open spec fn list_halt(s: Scope, c: Cursor) -> Cursor
    decreases s.tokens.len() - c.pos, 7nat,
{
    if s.peek(c) is RParen || s.peek(c) is Eof {
        c
    } else {
        match term(s, c) {
            Ok((_, d)) => if s.gains(c, d) {
                list_halt(s, d)
            } else {
                c
            },
            Err(_) => term_halt(s, c),
        }
    }
}

/// Where a blank node in brackets stops: at what stands in them, or where they are not closed.
pub open spec fn property_list_halt(s: Scope, c: Cursor) -> Cursor
    decreases s.tokens.len() - c.pos, 7nat,
{
    let blank = TermView::Blank(fresh_label(c.blanks + 1));
    let c = Cursor { pos: c.pos, blanks: c.blanks + 1 };
    end_or(predicates(s, c, blank), predicates_halt(s, c, blank))
}

/// Where a predicate stops: behind it, if it is a term that is no predicate.
pub open spec fn verb_halt(s: Scope, c: Cursor) -> Cursor
    decreases s.tokens.len() - c.pos, 4nat,
{
    end_or(term(s, c), term_halt(s, c))
}

/// Where objects stop.
pub open spec fn objects_halt(s: Scope, c: Cursor) -> Cursor
    decreases s.tokens.len() - c.pos, 3nat,
{
    match term(s, c) {
        Ok((_, d)) => if s.gains(c, s.step(d)) {
            objects_halt(s, s.step(d))
        } else {
            c
        },
        Err(_) => term_halt(s, c),
    }
}

/// Where predicates with their objects stop.
pub open spec fn predicates_halt(s: Scope, c: Cursor, subject: TermView) -> Cursor
    decreases s.tokens.len() - c.pos, 5nat,
{
    match verb(s, c) {
        Ok((predicate, d)) => if !s.reaches(c, d) {
            c
        } else {
            match objects(s, d, subject, predicate) {
                Ok((_, e)) => if s.gains(c, skip_semicolons(s, e)) {
                    predicates_halt(s, skip_semicolons(s, e), subject)
                } else {
                    c
                },
                Err(_) => objects_halt(s, d),
            }
        },
        Err(_) => verb_halt(s, c),
    }
}

/// Where a statement of a formula stops.
pub open spec fn statement_triples_halt(s: Scope, c: Cursor) -> Cursor
    decreases s.tokens.len() - c.pos, 6nat,
{
    match term(s, c) {
        Ok((subject, d)) => if !s.reaches(c, d) {
            c
        } else if s.peek(d) is Arrow || s.peek(d) is BackArrow {
            if s.gains(c, s.step(d)) {
                term_halt(s, s.step(d))
            } else {
                c
            }
        } else {
            predicates_halt(s, d, subject.term)
        },
        Err(_) => term_halt(s, c),
    }
}

/// Where the statements of a formula stop: at one of them, behind one that does not end, or where
/// the formula is not closed.
pub open spec fn formula_items_halt(s: Scope, c: Cursor) -> Cursor
    decreases s.tokens.len() - c.pos, 7nat,
{
    if s.peek(c) is RBrace || s.peek(c) is Eof {
        c
    } else if s.peek(c) is Dot {
        if s.gains(c, s.step(c)) {
            formula_items_halt(s, s.step(c))
        } else {
            c
        }
    } else {
        match statement_triples(s, c) {
            Ok((_, d)) => if s.peek(d) is Dot && s.gains(c, s.step(d)) {
                formula_items_halt(s, s.step(d))
            } else if s.peek(d) is RBrace && s.gains(c, d) {
                formula_items_halt(s, d)
            } else {
                d
            },
            Err(_) => statement_triples_halt(s, c),
        }
    }
}

/// Where a formula stops.
pub open spec fn formula_halt(s: Scope, c: Cursor) -> Cursor
    decreases s.tokens.len() - c.pos, 1nat,
{
    if s.peek(c) is LBrace && s.gains(c, s.step(c)) {
        formula_items_halt(s, s.step(c))
    } else {
        c
    }
}

/// Where the conclusion of a forward rule stops: behind it, if it is a term that is no conclusion.
pub open spec fn forward_conclusion_halt(s: Scope, c: Cursor) -> Cursor {
    if s.peek(c) is LBrace {
        formula_halt(s, c)
    } else {
        end_or(term(s, c), term_halt(s, c))
    }
}

/// Where the declaration of a prefix stops: behind what is not its name, or not its IRI.
pub open spec fn prefix_halt(s: Scope, c: Cursor) -> Cursor {
    let e = s.step(s.step(c));
    if s.read(s.step(c)).kind is PName {
        s.step(e)
    } else {
        e
    }
}

/// Where the declaration of a base stops: behind what is not its IRI.
pub open spec fn base_halt(s: Scope, c: Cursor) -> Cursor {
    s.step(s.step(c))
}

/// Where a rule stops whose left side is `true`: at its right side, or where no arrow stands.
pub open spec fn true_halt(s: Scope, c: Cursor) -> Cursor {
    let d = s.step(c);
    match s.peek(d) {
        KindView::Arrow => forward_conclusion_halt(s, s.step(d)),
        KindView::BackArrow => formula_halt(s, s.step(d)),
        _ => d,
    }
}

/// Where a rule stops whose left side is a formula: in one of its sides, in a predicate between
/// them, or behind one that is not `log:query`.
pub open spec fn formula_content_halt(s: Scope, c: Cursor) -> Cursor {
    match formula(s, c) {
        Ok((_, d)) => match s.peek(d) {
            KindView::Arrow => forward_conclusion_halt(s, s.step(d)),
            KindView::BackArrow => formula_halt(s, s.step(d)),
            _ => match verb(s, d) {
                Ok((predicate, e)) => if predicate == TermView::Iri(LOG_QUERY@) {
                    formula_halt(s, e)
                } else {
                    e
                },
                Err(_) => verb_halt(s, d),
            },
        },
        Err(_) => formula_halt(s, c),
    }
}

/// Where what stands before the dot of a statement stops.
pub open spec fn content_halt(s: Scope, c: Cursor) -> Cursor {
    match s.peek(c) {
        KindView::AtPrefix => prefix_halt(s, c),
        KindView::Prefix => prefix_halt(s, c),
        KindView::AtBase => base_halt(s, c),
        KindView::Base => base_halt(s, c),
        KindView::LBrace => formula_content_halt(s, c),
        KindView::Boolean(true) => true_halt(s, c),
        _ => statement_triples_halt(s, c),
    }
}

} // verus!
