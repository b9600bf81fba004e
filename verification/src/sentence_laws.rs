//! What predicates, objects and the statements of a formula are read to, and that nothing is lost
//! between them.
use crate::ast::{TermView, TripleView};
use crate::error::ErrorView;
use crate::grammar::{
    formula, formula_items, objects, predicates, skip_semicolons, statement_triples, term, verb,
    Cursor, Nested, Scope,
};
use crate::headway::{
    complete, lemma_formula_items, lemma_objects, lemma_predicates, lemma_skip_semicolons,
    lemma_statement_triples, lemma_term, lemma_verb, placed,
};
use crate::locality::{
    agree, ends_object, local_objects, local_semicolons, local_verb, quiet_objects,
};
use crate::show::kind_text;
use crate::spelling::ahead;
use crate::term_laws::comes_next;
use crate::token::KindView;
use vstd::prelude::*;

verus! {

/// Triples that are read, and the place behind them.
pub open spec fn said(items: Seq<TripleView>, c: Cursor) -> Result<
    (Seq<TripleView>, Cursor),
    ErrorView,
> {
    Ok((items, c))
}

/// An object as a triple, with the triples that stand inside it behind that.
pub open spec fn object_triples(
    subject: TermView,
    predicate: TermView,
    object: Nested,
) -> Seq<TripleView> {
    seq![TripleView { subject, predicate, object: object.term }] + object.triples
}

/// The terms `items` stand one behind the other with a comma behind each of them: the first one at
/// the first of the places, and each next one behind the comma before it.
pub open spec fn comma_row(s: Scope, places: Seq<Cursor>, items: Seq<Nested>) -> bool {
    &&& complete(s.tokens)
    &&& places.len() == items.len() + 1
    &&& placed(s, places[0])
    &&& forall|i: int|
        0 <= i < items.len() ==> {
            &&& term(s, #[trigger] places[i]) matches Ok((item, d))
            &&& item == items[i]
            &&& comes_next(s, d, KindView::Comma)
            &&& places[i + 1] == ahead(d, 1)
        }
}

/// Objects with commas between them say one triple each, followed by the triples inside it, in
/// their order. They fail where one of them fails.
pub proof fn law_objects(
    s: Scope,
    places: Seq<Cursor>,
    items: Seq<Nested>,
    subject: TermView,
    predicate: TermView,
)
    requires
        comma_row(s, places, items),
    ensures
        ({
            let before = items.map_values(
                |item: Nested| object_triples(subject, predicate, item),
            ).flatten();
            match term(s, places.last()) {
                Ok((last, d)) => !(s.peek(d) is Comma) ==> objects(
                    s,
                    places[0],
                    subject,
                    predicate,
                ) == said(before + object_triples(subject, predicate, last), d),
                Err(e) => objects(s, places[0], subject, predicate) == Err::<
                    (Seq<TripleView>, Cursor),
                    ErrorView,
                >(e),
            }
        }),
    decreases items.len(),
{
    let of = |item: Nested| object_triples(subject, predicate, item);
    let each = items.map_values(of);
    if items.len() == 0 {
        assert(each =~= Seq::empty());
        if let Ok((last, d)) = term(s, places[0]) {
            assert(Seq::<TripleView>::empty() + of(last) =~= of(last));
        }
    } else {
        let more = items.subrange(1, items.len() as int);
        let further = places.subrange(1, places.len() as int);
        let (first, d) = term(s, places[0])->Ok_0;
        lemma_term(s, places[0]);
        assert forall|i: int| 0 <= i < more.len() implies {
            &&& term(s, #[trigger] further[i]) matches Ok((item, d))
            &&& item == more[i]
            &&& comes_next(s, d, KindView::Comma)
            &&& further[i + 1] == ahead(d, 1)
        } by {
            assert(further[i] == places[i + 1]);
        }
        law_objects(s, further, more, subject, predicate);
        let rest = more.map_values(of).flatten();
        assert(each.drop_first() =~= more.map_values(of));
        assert(each.flatten() == of(items[0]) + rest);
        if let Ok((last, e)) = term(s, places.last()) {
            assert(of(items[0]) + (rest + of(last)) =~= of(items[0]) + rest + of(last));
        }
    }
}

/// All tokens from one place up to another are of one kind, and there is at least one.
pub open spec fn all_between(s: Scope, c: Cursor, d: Cursor, kind: KindView) -> bool {
    &&& c.blanks == d.blanks
    &&& 0 <= c.pos < d.pos < s.tokens.len()
    &&& forall|i: int| c.pos <= i < d.pos ==> (#[trigger] s.tokens[i]).kind == kind
}

/// Whether a kind closes a list of predicates.
pub open spec fn closes_predicates(kind: KindView) -> bool {
    kind is Dot || kind is RBrace || kind is RBracket
}

/// Predicates with their objects stand one behind the other, each with one or more semicolons
/// behind its objects: the first one at the first of the places, and each next one behind the
/// semicolons before it. What the objects say is given for each.
pub open spec fn semicolon_row(
    s: Scope,
    places: Seq<Cursor>,
    subject: TermView,
    groups: Seq<Seq<TripleView>>,
) -> bool {
    &&& complete(s.tokens)
    &&& places.len() == groups.len() + 1
    &&& placed(s, places[0])
    &&& forall|i: int|
        0 <= i < groups.len() ==> {
            &&& !closes_predicates(s.peek(#[trigger] places[i]))
            &&& verb(s, places[i]) matches Ok((predicate, d))
            &&& objects(s, d, subject, predicate) matches Ok((items, e))
            &&& items == groups[i]
            &&& all_between(s, e, places[i + 1], KindView::Semicolon)
            &&& !(s.peek(places[i + 1]) is Semicolon)
        }
}

proof fn lemma_all_semicolons(s: Scope, c: Cursor, d: Cursor)
    requires
        complete(s.tokens),
        c == d || all_between(s, c, d, KindView::Semicolon),
        0 <= c.pos < s.tokens.len(),
        !(s.peek(d) is Semicolon),
    ensures
        skip_semicolons(s, c) == d,
    decreases d.pos - c.pos,
{
    if c != d {
        assert(s.tokens[c.pos].kind is Semicolon);
        lemma_all_semicolons(s, ahead(c, 1), d);
    }
}

/// Predicates with semicolons between them say what the objects of each of them say, in their
/// order. Semicolons before a dot, a brace or a bracket that closes the list add nothing. The list
/// fails where a predicate or an object fails.
pub proof fn law_predicates(
    s: Scope,
    places: Seq<Cursor>,
    subject: TermView,
    groups: Seq<Seq<TripleView>>,
)
    requires
        semicolon_row(s, places, subject, groups),
    ensures
        ({
            let d = places.last();
            let whole = predicates(s, places[0], subject);
            if closes_predicates(s.peek(d)) {
                whole == said(groups.flatten(), d)
            } else {
                match verb(s, d) {
                    Ok((predicate, e)) => match objects(s, e, subject, predicate) {
                        Ok((items, f)) => !(s.peek(f) is Semicolon) ==> whole == said(
                            groups.flatten() + items,
                            f,
                        ),
                        Err(err) => whole == Err::<(Seq<TripleView>, Cursor), ErrorView>(err),
                    },
                    Err(err) => whole == Err::<(Seq<TripleView>, Cursor), ErrorView>(err),
                }
            }
        }),
    decreases groups.len(),
{
    let c = places[0];
    lemma_verb(s, c);
    if groups.len() == 0 {
        if let Ok((predicate, e)) = verb(s, c) {
            lemma_objects(s, e, subject, predicate);
            if let Ok((items, f)) = objects(s, e, subject, predicate) {
                assert(Seq::<TripleView>::empty() + items =~= items);
            }
        }
    } else {
        let more = groups.subrange(1, groups.len() as int);
        let further = places.subrange(1, places.len() as int);
        let (predicate, d) = verb(s, c)->Ok_0;
        lemma_objects(s, d, subject, predicate);
        let (items, e) = objects(s, d, subject, predicate)->Ok_0;
        assert(s.tokens[e.pos].kind is Semicolon);
        lemma_all_semicolons(s, e, places[1]);
        assert forall|i: int| 0 <= i < more.len() implies {
            &&& !closes_predicates(s.peek(#[trigger] further[i]))
            &&& verb(s, further[i]) matches Ok((predicate, d))
            &&& objects(s, d, subject, predicate) matches Ok((items, e))
            &&& items == more[i]
            &&& all_between(s, e, further[i + 1], KindView::Semicolon)
            &&& !(s.peek(further[i + 1]) is Semicolon)
        } by {
            assert(further[i] == places[i + 1]);
        }
        law_predicates(s, further, subject, more);
        assert(groups.drop_first() =~= more);
        assert(groups.flatten() == items + more.flatten());
        let last = places.last();
        if !closes_predicates(s.peek(last)) {
            if let Ok((p, f)) = verb(s, last) {
                if let Ok((ts, g)) = objects(s, f, subject, p) {
                    assert(items + (more.flatten() + ts) =~= items + more.flatten() + ts);
                }
            }
        }
    }
}

/// One predicate with its objects says the same before a dot, a brace or a bracket as with any
/// number of semicolons before that.
pub proof fn law_semicolons_before_the_end(s: Scope, c: Cursor, subject: TermView, d: Cursor)
    requires
        placed(s, c),
        !closes_predicates(s.peek(c)),
        verb(s, c) is Ok,
        ({
            let (predicate, v) = verb(s, c)->Ok_0;
            &&& objects(s, v, subject, predicate) matches Ok((_, e))
            &&& e == d || all_between(s, e, d, KindView::Semicolon)
        }),
        s.peek(d) is Dot || s.peek(d) is RBrace || s.peek(d) is RBracket,
    ensures
        ({
            let (predicate, v) = verb(s, c)->Ok_0;
            predicates(s, c, subject) == said(objects(s, v, subject, predicate)->Ok_0.0, d)
        }),
{
    let (predicate, v) = verb(s, c)->Ok_0;
    let (items, e) = objects(s, v, subject, predicate)->Ok_0;
    if e == d {
        law_predicates(s, seq![c], subject, Seq::empty());
        assert(Seq::<Seq<TripleView>>::empty().flatten() + items =~= items);
    } else {
        let groups = seq![items];
        law_predicates(s, seq![c, d], subject, groups);
        groups.lemma_flatten_one_element();
    }
}

/// The tokens of `t` are those of `s` with `n` semicolons put in before the token with index `at`.
pub open spec fn semicolons_put_in(s: Scope, t: Scope, at: int, n: nat) -> bool {
    &&& complete(s.tokens)
    &&& 0 <= at < s.tokens.len()
    &&& t.prefixes == s.prefixes
    &&& t.base == s.base
    &&& t.tokens.len() == s.tokens.len() + n
    &&& forall|i: int| 0 <= i < at ==> #[trigger] s.tokens[i] == t.tokens[i]
    &&& forall|i: int| at <= i < at + n ==> (#[trigger] t.tokens[i]).kind is Semicolon
    &&& forall|i: int|
        at <= i < s.tokens.len() ==> (#[trigger] s.tokens[i]).kind == t.tokens[i + n].kind
}

/// Predicates that are read up to a dot, a brace or a bracket are read to the same triples with any
/// number of semicolons put in before that.
pub proof fn law_semicolons_change_nothing(
    s: Scope,
    t: Scope,
    c: Cursor,
    subject: TermView,
    n: nat,
)
    requires
        placed(s, c),
        !closes_predicates(s.peek(c)),
        predicates(s, c, subject) is Ok,
        ({
            let d = predicates(s, c, subject)->Ok_0.1;
            &&& s.peek(d) is Dot || s.peek(d) is RBrace || s.peek(d) is RBracket
            &&& n > 0
            &&& semicolons_put_in(s, t, d.pos, n)
        }),
    ensures
        ({
            let (items, d) = predicates(s, c, subject)->Ok_0;
            predicates(t, c, subject) == said(items, ahead(d, n))
        }),
    decreases s.tokens.len() - c.pos,
{
    let (items, end) = predicates(s, c, subject)->Ok_0;
    let m = end.pos;
    lemma_put_in(s, t, m, n);
    lemma_predicates(s, c, subject);
    lemma_verb(s, c);
    let (predicate, d) = verb(s, c)->Ok_0;
    lemma_objects(s, d, subject, predicate);
    let (first, e) = objects(s, d, subject, predicate)->Ok_0;
    assert(s.tokens.last() == s.tokens[s.last()]);
    if s.peek(e) is Semicolon {
        let f = skip_semicolons(s, e);
        lemma_skip_semicolons(s, e);
        lemma_predicates(s, f, subject);
        local_verb(s, t, m, c);
        local_objects(s, t, m, d, subject, predicate);
        assert(t.peek(e) is Semicolon);
        if f.pos == m {
            assert(f == end);
            lemma_semicolons_up_to(s, t, e, m, n);
            assert(predicates(t, ahead(end, n), subject) == said(Seq::empty(), ahead(end, n)));
            assert(predicates(s, f, subject) == said(Seq::empty(), f));
        } else {
            local_semicolons(s, t, m, e);
            law_semicolons_change_nothing(s, t, f, subject, n);
        }
    } else {
        assert(e == end);
        local_verb(s, t, m, c);
        quiet_objects(s, t, m, d, subject, predicate);
        lemma_all_semicolons(t, end, ahead(end, n));
        assert(predicates(t, ahead(end, n), subject) == said(Seq::empty(), ahead(end, n)));
        assert(first + Seq::<TripleView>::empty() =~= first);
    }
}

proof fn lemma_put_in(s: Scope, t: Scope, at: int, n: nat)
    requires
        semicolons_put_in(s, t, at, n),
        n > 0,
        closes_predicates(s.tokens[at].kind),
    ensures
        agree(s, t, at),
        ends_object(s.tokens[at].kind) && ends_object(t.tokens[at].kind),
        at + n < t.tokens.len(),
        closes_predicates(t.tokens[at + n].kind),
        t.tokens[at].kind is Semicolon,
        forall|i: int| at <= i < at + n ==> (#[trigger] t.tokens[i]).kind == KindView::Semicolon,
{
    assert(s.tokens.last() == s.tokens[s.tokens.len() - 1]);
    assert(t.tokens.last() == t.tokens[s.tokens.len() - 1 + n]);
    assert(s.tokens[at].kind == t.tokens[at + n].kind);
    assert(t.tokens[at].kind is Semicolon);
}

proof fn lemma_semicolons_up_to(s: Scope, t: Scope, c: Cursor, at: int, n: nat)
    requires
        semicolons_put_in(s, t, at, n),
        n > 0,
        closes_predicates(s.tokens[at].kind),
        placed(s, c),
        c.pos <= at,
        skip_semicolons(s, c).pos == at,
    ensures
        skip_semicolons(t, c) == ahead(skip_semicolons(s, c), n),
    decreases at - c.pos,
{
    lemma_put_in(s, t, at, n);
    lemma_skip_semicolons(s, c);
    if c.pos == at {
        assert(skip_semicolons(s, c) == c);
        lemma_all_semicolons(t, c, ahead(c, n));
    } else {
        assert(s.tokens[c.pos] == t.tokens[c.pos]);
        lemma_skip_semicolons(s, ahead(c, 1));
        lemma_semicolons_up_to(s, t, ahead(c, 1), at, n);
    }
}

/// A statement is an implication between two terms, if an arrow stands behind the first one: one
/// triple, behind those inside the two terms, in which `true` on the right side is the empty
/// formula. Else it is a subject with its predicates, behind the triples inside the subject.
pub proof fn law_statement_triples(s: Scope, c: Cursor)
    requires
        placed(s, c),
    ensures
        match term(s, c) {
            Err(e) => statement_triples(s, c) == Err::<(Seq<TripleView>, Cursor), ErrorView>(e),
            Ok((left, d)) => if s.peek(d) is Arrow || s.peek(d) is BackArrow {
                match term(s, ahead(d, 1)) {
                    Ok((right, e)) => statement_triples(s, c) == said(
                        left.triples + right.triples + seq![
                            TripleView {
                                subject: left.term,
                                predicate: TermView::Iri(
                                    if s.peek(d) is Arrow {
                                        "http://www.w3.org/2000/10/swap/log#implies"@
                                    } else {
                                        "http://www.w3.org/2000/10/swap/log#impliedBy"@
                                    },
                                ),
                                object: match right.term {
                                    TermView::Literal(l) if l.value == "true"@ && l.datatype
                                        == Some("http://www.w3.org/2001/XMLSchema#boolean"@)
                                        && l.language is None => TermView::Formula(Seq::empty()),
                                    other => other,
                                },
                            },
                        ],
                        e,
                    ),
                    Err(e) => statement_triples(s, c) == Err::<
                        (Seq<TripleView>, Cursor),
                        ErrorView,
                    >(e),
                }
            } else {
                match predicates(s, d, left.term) {
                    Ok((items, e)) => statement_triples(s, c) == said(left.triples + items, e),
                    Err(e) => statement_triples(s, c) == Err::<
                        (Seq<TripleView>, Cursor),
                        ErrorView,
                    >(e),
                }
            },
        },
{
    lemma_term(s, c);
    if let Ok((left, d)) = term(s, c) {
        assert(s.tokens.last() == s.tokens[s.last()]);
        if s.peek(d) is Arrow || s.peek(d) is BackArrow {
            assert(d.pos < s.last());
            assert(s.step(d) == ahead(d, 1));
        }
    }
}

/// Statements of a formula stand one behind the other, each with one or more dots behind it: the
/// first one at the first of the places, and each next one behind the dots before it.
pub open spec fn dot_row(s: Scope, places: Seq<Cursor>, groups: Seq<Seq<TripleView>>) -> bool {
    &&& complete(s.tokens)
    &&& places.len() == groups.len() + 1
    &&& placed(s, places[0])
    &&& forall|i: int|
        0 <= i < groups.len() ==> {
            &&& !(s.peek(#[trigger] places[i]) is RBrace || s.peek(places[i]) is Eof || s.peek(
                places[i],
            ) is Dot)
            &&& statement_triples(s, places[i]) matches Ok((items, d))
            &&& items == groups[i]
            &&& all_between(s, d, places[i + 1], KindView::Dot)
            &&& !(s.peek(places[i + 1]) is Dot)
        }
}

proof fn lemma_all_dots(s: Scope, c: Cursor, d: Cursor)
    requires
        complete(s.tokens),
        c == d || all_between(s, c, d, KindView::Dot),
        placed(s, c),
    ensures
        formula_items(s, c) == formula_items(s, d),
    decreases d.pos - c.pos,
{
    if c != d {
        assert(s.tokens[c.pos].kind is Dot);
        lemma_all_dots(s, ahead(c, 1), d);
    }
}

proof fn lemma_dot_row(s: Scope, places: Seq<Cursor>, groups: Seq<Seq<TripleView>>)
    requires
        dot_row(s, places, groups),
        !(s.peek(places.last()) is Dot),
    ensures
        ({
            let d = places.last();
            let whole = formula_items(s, places[0]);
            if s.peek(d) is RBrace || s.peek(d) is Eof {
                whole == said(groups.flatten(), d)
            } else {
                match statement_triples(s, d) {
                    Ok((items, e)) => if s.peek(e) is RBrace {
                        whole == said(groups.flatten() + items, e)
                    } else {
                        !(s.peek(e) is Dot) ==> whole == Err::<
                            (Seq<TripleView>, Cursor),
                            ErrorView,
                        >(
                            ErrorView {
                                message: "expected '.' or '}' in formula"@,
                                offset: Some(s.offset(e)),
                            },
                        )
                    },
                    Err(err) => whole == Err::<(Seq<TripleView>, Cursor), ErrorView>(err),
                }
            }
        }),
    decreases groups.len(),
{
    let c = places[0];
    lemma_statement_triples(s, c);
    if groups.len() == 0 {
        if let Ok((items, e)) = statement_triples(s, c) {
            assert(Seq::<TripleView>::empty() + items =~= items);
            assert(items + Seq::<TripleView>::empty() =~= items);
            assert(s.peek(e) is RBrace ==> formula_items(s, e) == said(Seq::empty(), e));
        }
    } else {
        let more = groups.subrange(1, groups.len() as int);
        let further = places.subrange(1, places.len() as int);
        let (items, e) = statement_triples(s, c)->Ok_0;
        assert(s.tokens[e.pos].kind is Dot);
        lemma_all_dots(s, e, places[1]);
        assert(formula_items(s, e) == formula_items(s, ahead(e, 1)));
        assert forall|i: int| 0 <= i < more.len() implies {
            &&& !(s.peek(#[trigger] further[i]) is RBrace || s.peek(further[i]) is Eof || s.peek(
                further[i],
            ) is Dot)
            &&& statement_triples(s, further[i]) matches Ok((items, d))
            &&& items == more[i]
            &&& all_between(s, d, further[i + 1], KindView::Dot)
            &&& !(s.peek(further[i + 1]) is Dot)
        } by {
            assert(further[i] == places[i + 1]);
        }
        lemma_dot_row(s, further, more);
        assert(groups.drop_first() =~= more);
        assert(groups.flatten() == items + more.flatten());
        let last = places.last();
        if let Ok((ts, g)) = statement_triples(s, last) {
            assert(items + (more.flatten() + ts) =~= items + more.flatten() + ts);
        }
    }
}

/// A formula holds what the statements between its braces say, in their order. Each has dots behind
/// it, the last one may have none, and dots may also stand before the first one. The formula fails
/// where a statement fails or does not end, and where it is not closed.
pub proof fn law_formulas(
    s: Scope,
    c: Cursor,
    places: Seq<Cursor>,
    groups: Seq<Seq<TripleView>>,
)
    requires
        comes_next(s, c, KindView::LBrace),
        dot_row(s, places, groups),
        places[0] == ahead(c, 1) || all_between(s, ahead(c, 1), places[0], KindView::Dot),
        !(s.peek(places.last()) is Dot),
    ensures
        ({
            let d = places.last();
            let whole = formula(s, c);
            if s.peek(d) is RBrace {
                whole == said(groups.flatten(), ahead(d, 1))
            } else if s.peek(d) is Eof {
                whole == Err::<(Seq<TripleView>, Cursor), ErrorView>(
                    ErrorView {
                        message: "expected "@ + kind_text(KindView::RBrace) + ", got "@ + kind_text(
                            KindView::Eof,
                        ),
                        offset: Some(s.offset(d)),
                    },
                )
            } else {
                match statement_triples(s, d) {
                    Ok((items, e)) => if s.peek(e) is RBrace {
                        whole == said(groups.flatten() + items, ahead(e, 1))
                    } else {
                        !(s.peek(e) is Dot) ==> whole == Err::<
                            (Seq<TripleView>, Cursor),
                            ErrorView,
                        >(
                            ErrorView {
                                message: "expected '.' or '}' in formula"@,
                                offset: Some(s.offset(e)),
                            },
                        )
                    },
                    Err(err) => whole == Err::<(Seq<TripleView>, Cursor), ErrorView>(err),
                }
            }
        }),
{
    lemma_all_dots(s, ahead(c, 1), places[0]);
    lemma_dot_row(s, places, groups);
    lemma_formula_items(s, ahead(c, 1));
    assert(s.tokens.last() == s.tokens[s.last()]);
    assert(s.step(c) == ahead(c, 1));
    if let Ok((items, e)) = formula_items(s, ahead(c, 1)) {
        assert(s.peek(e) is RBrace ==> s.step(e) == ahead(e, 1));
    }
}

} // verus!
