//! What terms are read to, and that nothing is lost inside them.
use crate::ast::{LiteralView, TermView, TripleView};
use crate::error::ErrorView;
use crate::grammar::{
    expect, formula, list_items, literal, predicates, property_list, term, verb, Cursor, Nested,
    NestedItems, Reading, Scope,
};
use crate::headway::{lemma_predicates, lemma_term, placed};
use crate::iri_laws::{law_names_are_split_at_the_first_colon, law_numbers, law_truth_values};
use crate::show::kind_text;
use crate::spelling::ahead;
use crate::text::decimal;
use crate::token::{like, KindView};
use vstd::prelude::*;

verus! {

/// A term with nothing inside it, and the place behind it.
pub open spec fn read_alone(t: TermView, c: Cursor) -> Reading<Nested> {
    Ok((Nested { term: t, triples: Seq::empty() }, c))
}

/// A place at which a token of the given kind comes next that is not the end of the text.
pub open spec fn comes_next(s: Scope, c: Cursor, kind: KindView) -> bool {
    0 <= c.pos < s.tokens.len() - 1 && s.tokens[c.pos].kind == kind
}

/// A variable and a blank node keep their names. A number keeps its spelling, with the datatype
/// that it shows. Truth values and `a` have their fixed meanings. Nothing stands inside any of
/// them, and each is one token long.
pub proof fn law_tokens_that_are_terms(s: Scope, c: Cursor, name: Seq<char>)
    ensures
        comes_next(s, c, KindView::Var(name)) ==> term(s, c) == read_alone(
            TermView::Var(name),
            ahead(c, 1),
        ),
        comes_next(s, c, KindView::Blank(name)) ==> term(s, c) == read_alone(
            TermView::Blank(name),
            ahead(c, 1),
        ),
        comes_next(s, c, KindView::A) ==> term(s, c) == read_alone(
            TermView::Iri("http://www.w3.org/1999/02/22-rdf-syntax-ns#type"@),
            ahead(c, 1),
        ),
        comes_next(s, c, KindView::Boolean(true)) ==> term(s, c) == read_alone(
            TermView::Literal(
                LiteralView {
                    value: "true"@,
                    datatype: Some("http://www.w3.org/2001/XMLSchema#boolean"@),
                    language: None,
                },
            ),
            ahead(c, 1),
        ),
        comes_next(s, c, KindView::Boolean(false)) ==> term(s, c) == read_alone(
            TermView::Literal(
                LiteralView {
                    value: "false"@,
                    datatype: Some("http://www.w3.org/2001/XMLSchema#boolean"@),
                    language: None,
                },
            ),
            ahead(c, 1),
        ),
        comes_next(s, c, KindView::Number(name)) ==> term(s, c) == read_alone(
            TermView::Literal(
                LiteralView {
                    value: name,
                    datatype: Some(
                        if exists|i: int|
                            0 <= i < name.len() && ((#[trigger] name[i]) == '.' || name[i] == 'e'
                                || name[i] == 'E') {
                            "http://www.w3.org/2001/XMLSchema#decimal"@
                        } else {
                            "http://www.w3.org/2001/XMLSchema#integer"@
                        },
                    ),
                    language: None,
                },
            ),
            ahead(c, 1),
        ),
{
    law_numbers(name);
    law_truth_values();
}

/// An IRI is meant under the base that holds.
pub proof fn law_iri_is_resolved(s: Scope, c: Cursor, iri: Seq<char>)
    requires
        comes_next(s, c, KindView::Iri(iri)),
    ensures
        term(s, c) == read_alone(
            TermView::Iri(crate::grammar::resolve(s.base, iri)),
            ahead(c, 1),
        ),
{
}

/// A prefixed name is the IRI of its prefix with what follows the first colon behind it; it is
/// refused where that prefix is not declared, and so is a name without a colon. The base plays no
/// part in it.
pub proof fn law_prefixed_name_is_expanded(
    s: Scope,
    c: Cursor,
    prefix: Seq<char>,
    local: Seq<char>,
)
    requires
        !prefix.contains(':'),
    ensures
        comes_next(s, c, KindView::PName(prefix.push(':') + local)) ==> {
            if s.prefixes.contains_key(prefix) {
                term(s, c) == read_alone(
                    TermView::Iri(s.prefixes[prefix] + local),
                    ahead(c, 1),
                )
            } else {
                term(s, c) == Err::<(Nested, Cursor), ErrorView>(
                    ErrorView {
                        message: "unknown prefix '"@ + prefix + ":'"@,
                        offset: Some(s.tokens[c.pos].offset),
                    },
                )
            }
        },
        comes_next(s, c, KindView::PName(prefix)) ==> term(s, c) == Err::<
            (Nested, Cursor),
            ErrorView,
        >(
            ErrorView {
                message: "unknown bare name '"@ + prefix + "'; use a prefix or <IRI>"@,
                offset: Some(s.tokens[c.pos].offset),
            },
        ),
{
    law_names_are_split_at_the_first_colon(s.prefixes, prefix, local, s.tokens[c.pos].offset);
}

/// A mark that neither is a term nor opens one is refused where it stands.
pub proof fn law_marks_are_no_terms(s: Scope, c: Cursor)
    requires
        0 <= c.pos < s.tokens.len() - 1,
        ({
            let kind = s.tokens[c.pos].kind;
            ||| kind is RBrace || kind is RBracket || kind is RParen
            ||| kind is Dot || kind is Comma || kind is Semicolon
            ||| kind is Arrow || kind is BackArrow || kind is Equals || kind is HatHat
            ||| kind is Lang || kind is AtPrefix || kind is Prefix || kind is AtBase
            ||| kind is Base || kind is Eof
        }),
    ensures
        term(s, c) == Err::<(Nested, Cursor), ErrorView>(
            ErrorView {
                message: "expected term, got "@ + kind_text(s.tokens[c.pos].kind),
                offset: Some(s.tokens[c.pos].offset),
            },
        ),
{
}

/// The value of a literal with a language tag behind it has that language and no datatype. With
/// `^^` and a term behind it, it has that term as its datatype, if the term is an IRI and nothing
/// stands inside it, and else it is refused. With neither behind it, it has neither.
pub proof fn law_literals(s: Scope, c: Cursor, value: Seq<char>)
    requires
        placed(s, c),
    ensures
        s.peek(c) matches KindView::Lang(tag) ==> literal(s, c, value) == read_alone(
            TermView::Literal(LiteralView { value, datatype: None, language: Some(tag) }),
            ahead(c, 1),
        ),
        s.peek(c) is HatHat ==> literal(s, c, value) == (match term(s, ahead(c, 1)) {
            Ok((datatype, d)) => if datatype.triples.len() > 0 {
                Err(ErrorView { message: "datatype cannot generate triples"@, offset: None })
            } else if let TermView::Iri(iri) = datatype.term {
                read_alone(
                    TermView::Literal(LiteralView { value, datatype: Some(iri), language: None }),
                    d,
                )
            } else {
                Err(ErrorView { message: "datatype must be an IRI"@, offset: None })
            },
            Err(e) => Err(e),
        }),
        !(s.peek(c) is Lang) && !(s.peek(c) is HatHat) ==> literal(s, c, value) == read_alone(
            TermView::Literal(LiteralView { value, datatype: None, language: None }),
            c,
        ),
{
    assert(s.tokens.last() == s.tokens[s.last()]);
    if s.peek(c) is HatHat || s.peek(c) is Lang {
        assert(c.pos < s.last());
        assert(s.step(c) == ahead(c, 1));
    }
}

/// A string is a literal with its value and what stands behind it.
pub proof fn law_strings(s: Scope, c: Cursor, value: Seq<char>)
    requires
        comes_next(s, c, KindView::String(value)),
    ensures
        term(s, c) == literal(s, ahead(c, 1), value),
{
}

/// The terms `items` stand one behind the other: the first one at the first of the places, and each
/// next one where the one before it ends. The last of the places is behind all of them.
pub open spec fn in_a_row(s: Scope, places: Seq<Cursor>, items: Seq<Nested>) -> bool {
    &&& places.len() == items.len() + 1
    &&& forall|i: int| 0 <= i < places.len() ==> placed(s, #[trigger] places[i])
    &&& forall|i: int|
        0 <= i < items.len() ==> !(s.peek(#[trigger] places[i]) is RParen) && !(s.peek(places[i])
            is Eof) && term(s, places[i]) == Ok::<(Nested, Cursor), ErrorView>(
            (items[i], places[i + 1]),
        )
}

/// The triples that stand inside terms, those of each term behind those of the one before it.
pub open spec fn inside(items: Seq<Nested>) -> Seq<TripleView> {
    items.map_values(|item: Nested| item.triples).flatten()
}

/// A list has the terms between its parentheses as its items, in their order; the triples inside it
/// are those inside all its items, in their order. It fails where an item fails, and where it is
/// not closed.
pub proof fn law_lists(s: Scope, c: Cursor, places: Seq<Cursor>, items: Seq<Nested>)
    requires
        comes_next(s, c, KindView::LParen),
        in_a_row(s, places, items),
        places[0] == ahead(c, 1),
    ensures
        ({
            let d = places.last();
            &&& s.peek(d) is RParen && d.pos < s.last() ==> term(s, c) == Ok::<
                (Nested, Cursor),
                ErrorView,
            >(
                (
                    Nested {
                        term: TermView::List(items.map_values(|item: Nested| item.term)),
                        triples: inside(items),
                    },
                    ahead(d, 1),
                ),
            )
            &&& s.peek(d) is Eof ==> term(s, c) == Err::<(Nested, Cursor), ErrorView>(
                ErrorView {
                    message: "expected "@ + kind_text(KindView::RParen) + ", got "@ + kind_text(
                        KindView::Eof,
                    ),
                    offset: Some(s.offset(d)),
                },
            )
            &&& !(s.peek(d) is RParen || s.peek(d) is Eof) ==> (term(s, d) matches Err(e)
                ==> term(s, c) == Err::<(Nested, Cursor), ErrorView>(e))
        }),
{
    law_list_items(s, places, items);
}

/// The items of a list up to what closes it, with the triples inside all of them in their order.
pub proof fn law_list_items(s: Scope, places: Seq<Cursor>, items: Seq<Nested>)
    requires
        in_a_row(s, places, items),
    ensures
        ({
            let d = places.last();
            &&& s.peek(d) is RParen || s.peek(d) is Eof ==> list_items(s, places[0]) == Ok::<
                (NestedItems, Cursor),
                ErrorView,
            >(
                (
                    NestedItems {
                        items: items.map_values(|item: Nested| item.term),
                        triples: inside(items),
                    },
                    d,
                ),
            )
            &&& !(s.peek(d) is RParen || s.peek(d) is Eof) ==> (term(s, d) matches Err(e)
                ==> list_items(s, places[0]) == Err::<(NestedItems, Cursor), ErrorView>(e))
        }),
    decreases items.len(),
{
    let terms = items.map_values(|item: Nested| item.term);
    let within = items.map_values(|item: Nested| item.triples);
    assert(placed(s, places[0]));
    if items.len() == 0 {
        assert(terms =~= Seq::empty());
        assert(within =~= Seq::empty());
    } else {
        let more = items.subrange(1, items.len() as int);
        let further = places.subrange(1, places.len() as int);
        let c = places[0];
        lemma_row_goes_on(s, places, items);
        law_list_items(s, further, more);
        assert(term(s, c) == Ok::<(Nested, Cursor), ErrorView>((items[0], further[0])));
        assert(list_items(s, c) == (match list_items(s, further[0]) {
            Ok((rest, e)) => Ok::<(NestedItems, Cursor), ErrorView>(
                (
                    NestedItems {
                        items: seq![items[0].term] + rest.items,
                        triples: items[0].triples + rest.triples,
                    },
                    e,
                ),
            ),
            Err(e) => Err(e),
        }));
        assert(terms =~= seq![items[0].term] + more.map_values(|item: Nested| item.term));
        assert(within.drop_first() =~= more.map_values(|item: Nested| item.triples));
        assert(within.first() == items[0].triples);
    }
}

proof fn lemma_row_goes_on(s: Scope, places: Seq<Cursor>, items: Seq<Nested>)
    requires
        in_a_row(s, places, items),
        items.len() > 0,
    ensures
        in_a_row(
            s,
            places.subrange(1, places.len() as int),
            items.subrange(1, items.len() as int),
        ),
        s.gains(places[0], places[1]),
{
    let more = items.subrange(1, items.len() as int);
    let further = places.subrange(1, places.len() as int);
    assert forall|i: int| 0 <= i < further.len() implies placed(s, #[trigger] further[i]) by {
        assert(further[i] == places[i + 1]);
    }
    assert forall|i: int| 0 <= i < more.len() implies !(s.peek(#[trigger] further[i]) is RParen)
        && !(s.peek(further[i]) is Eof) && term(s, further[i]) == Ok::<(Nested, Cursor), ErrorView>(
        (more[i], further[i + 1]),
    ) by {
        assert(further[i] == places[i + 1]);
    }
    assert(placed(s, places[0]));
    lemma_term(s, places[0]);
    assert(places[0].pos < s.last());
}

/// Two items in a list keep the triples of both.
pub proof fn law_two_items(s: Scope, c: Cursor, first: Nested, d: Cursor, second: Nested, e: Cursor)
    requires
        comes_next(s, c, KindView::LParen),
        placed(s, d),
        placed(s, e),
        term(s, ahead(c, 1)) == Ok::<(Nested, Cursor), ErrorView>((first, d)),
        term(s, d) == Ok::<(Nested, Cursor), ErrorView>((second, e)),
        !(s.peek(ahead(c, 1)) is RParen || s.peek(ahead(c, 1)) is Eof),
        !(s.peek(d) is RParen || s.peek(d) is Eof),
        s.peek(e) is RParen && e.pos < s.last(),
    ensures
        term(s, c) == Ok::<(Nested, Cursor), ErrorView>(
            (
                Nested {
                    term: TermView::List(seq![first.term, second.term]),
                    triples: first.triples + second.triples,
                },
                ahead(e, 1),
            ),
        ),
{
    let items = seq![first, second];
    law_lists(s, c, seq![ahead(c, 1), d, e], items);
    let within = items.map_values(|item: Nested| item.triples);
    assert(items.map_values(|item: Nested| item.term) =~= seq![first.term, second.term]);
    reveal_with_fuel(Seq::<_>::flatten, 3);
    assert(within.drop_first().drop_first() =~= Seq::empty());
    assert(within.flatten() =~= first.triples + second.triples);
}

/// A formula is a term with the triples between its braces quoted; nothing stands inside it.
pub proof fn law_formula_terms(s: Scope, c: Cursor)
    requires
        comes_next(s, c, KindView::LBrace),
    ensures
        term(s, c) == (match formula(s, c) {
            Ok((items, d)) => read_alone(TermView::Formula(items), d),
            Err(e) => Err(e),
        }),
{
}

/// Brackets are a blank node of their own, with the next number in its label. The triples inside
/// them are those that the predicates and objects between them say of that node. The opening
/// bracket was read already.
pub proof fn law_property_lists(s: Scope, c: Cursor)
    requires
        placed(s, c),
    ensures
        ({
            let blank = TermView::Blank("b"@ + decimal(c.blanks + 1));
            let d = Cursor { pos: c.pos, blanks: c.blanks + 1 };
            property_list(s, c) == (if s.peek(d) is RBracket {
                read_alone(blank, ahead(d, 1))
            } else {
                match predicates(s, d, blank) {
                    Ok((items, e)) => if s.peek(e) is RBracket {
                        Ok((Nested { term: blank, triples: items }, ahead(e, 1)))
                    } else {
                        Err(
                            ErrorView {
                                message: "expected "@ + kind_text(KindView::RBracket) + ", got "@
                                    + kind_text(s.peek(e)),
                                offset: Some(s.offset(e)),
                            },
                        )
                    },
                    Err(e) => Err(e),
                }
            })
        }),
{
    let blank = TermView::Blank("b"@ + decimal(c.blanks + 1));
    let d = Cursor { pos: c.pos, blanks: c.blanks + 1 };
    assert(s.tokens.last() == s.tokens[s.last()]);
    lemma_predicates(s, d, blank);
}

/// A bracket opens a blank node.
pub proof fn law_brackets(s: Scope, c: Cursor)
    requires
        comes_next(s, c, KindView::LBracket),
    ensures
        term(s, c) == property_list(s, ahead(c, 1)),
{
}

/// The words and marks that are predicates, and that a term is a predicate where nothing stands
/// inside it.
pub proof fn law_verbs(s: Scope, c: Cursor)
    requires
        placed(s, c),
    ensures
        s.tokens[c.pos].kind is A ==> verb(s, c) == Ok::<(TermView, Cursor), ErrorView>(
            (TermView::Iri("http://www.w3.org/1999/02/22-rdf-syntax-ns#type"@), ahead(c, 1)),
        ),
        s.tokens[c.pos].kind is Equals ==> verb(s, c) == Ok::<(TermView, Cursor), ErrorView>(
            (TermView::Iri("http://www.w3.org/2002/07/owl#sameAs"@), ahead(c, 1)),
        ),
        s.tokens[c.pos].kind is Arrow ==> verb(s, c) == Ok::<(TermView, Cursor), ErrorView>(
            (TermView::Iri("http://www.w3.org/2000/10/swap/log#implies"@), ahead(c, 1)),
        ),
        s.tokens[c.pos].kind is BackArrow ==> verb(s, c) == Ok::<(TermView, Cursor), ErrorView>(
            (TermView::Iri("http://www.w3.org/2000/10/swap/log#impliedBy"@), ahead(c, 1)),
        ),
        !(s.tokens[c.pos].kind is A || s.tokens[c.pos].kind is Equals || s.tokens[c.pos].kind
            is Arrow || s.tokens[c.pos].kind is BackArrow) ==> match term(s, c) {
            Ok((t, d)) => if t.triples.len() == 0 {
                verb(s, c) == Ok::<(TermView, Cursor), ErrorView>((t.term, d))
            } else {
                verb(s, c) == Err::<(TermView, Cursor), ErrorView>(
                    ErrorView {
                        message: "generated blank/list triples cannot be used as predicates"@,
                        offset: None,
                    },
                )
            },
            Err(e) => verb(s, c) == Err::<(TermView, Cursor), ErrorView>(e),
        },
{
    assert(s.tokens.last() == s.tokens[s.last()]);
}

/// At the end of the text the token before it is read once more: it is the term that it is where it
/// stands, or refused as it is there. What opens a term there is not closed.
pub proof fn law_terms_at_the_end(s: Scope, c: Cursor)
    requires
        placed(s, c),
        c.pos == s.tokens.len() - 1,
    ensures
        ({
            let token = s.tokens[c.pos - 1];
            let again = Cursor { pos: c.pos - 1, blanks: c.blanks };
            &&& !(token.kind is LBrace || token.kind is LParen || token.kind is LBracket) ==> term(
                s,
                c,
            ) == (match term(s, again) {
                Ok((t, _)) => Ok::<(Nested, Cursor), ErrorView>((t, c)),
                Err(e) => Err(e),
            })
            &&& token.kind is LBrace ==> term(s, c) == Err::<(Nested, Cursor), ErrorView>(
                ErrorView {
                    message: "expected "@ + kind_text(KindView::RBrace) + ", got "@ + kind_text(
                        KindView::Eof,
                    ),
                    offset: Some(s.tokens[c.pos].offset),
                },
            )
            &&& token.kind is LParen ==> term(s, c) == Err::<(Nested, Cursor), ErrorView>(
                ErrorView {
                    message: "expected "@ + kind_text(KindView::RParen) + ", got "@ + kind_text(
                        KindView::Eof,
                    ),
                    offset: Some(s.tokens[c.pos].offset),
                },
            )
            &&& token.kind is LBracket ==> term(s, c) == Err::<(Nested, Cursor), ErrorView>(
                ErrorView {
                    message: "unterminated blank node property list"@,
                    offset: Some(token.offset),
                },
            )
        }),
{
    let again = Cursor { pos: c.pos - 1, blanks: c.blanks };
    assert(s.tokens.last() == s.tokens[s.last()]);
    assert(s.read(c) == s.tokens[c.pos - 1] && s.read(again) == s.tokens[c.pos - 1]);
    assert(s.step(again) == c);
    if let KindView::String(value) = s.peek(again) {
        law_literals(s, c, value);
    }
}

/// The token that is read at a place is the one that stands there, and reading goes on behind it.
/// At the end of the text the token before it is read, and reading stays there.
pub proof fn law_tokens_in_turn(s: Scope, c: Cursor)
    requires
        placed(s, c),
    ensures
        s.peek(c) == s.tokens[c.pos].kind,
        c.pos < s.tokens.len() - 1 ==> s.read(c) == s.tokens[c.pos] && s.step(c) == ahead(c, 1),
        c.pos == s.tokens.len() - 1 ==> s.read(c) == s.tokens[c.pos - 1] && s.step(c) == c,
{
}

/// A kind of token without what the token holds.
pub open spec fn sort_of(kind: KindView) -> KindView {
    let none = Seq::<char>::empty();
    match kind {
        KindView::Iri(_) => KindView::Iri(none),
        KindView::PName(_) => KindView::PName(none),
        KindView::Var(_) => KindView::Var(none),
        KindView::Blank(_) => KindView::Blank(none),
        KindView::String(_) => KindView::String(none),
        KindView::Number(_) => KindView::Number(none),
        KindView::Lang(_) => KindView::Lang(none),
        KindView::Boolean(_) => KindView::Boolean(true),
        other => other,
    }
}

/// An expected token is read if a token of its sort comes next, whatever it holds. Else both are
/// named in the error.
pub proof fn law_expected_tokens(s: Scope, c: Cursor, expected: KindView)
    requires
        placed(s, c),
    ensures
        like(s.peek(c), expected) <==> sort_of(s.peek(c)) == sort_of(expected),
        sort_of(s.peek(c)) == sort_of(expected) ==> expect(s, c, expected) == Ok::<
            ((), Cursor),
            ErrorView,
        >(((), s.step(c))),
        sort_of(s.peek(c)) != sort_of(expected) ==> expect(s, c, expected) == Err::<
            ((), Cursor),
            ErrorView,
        >(
            ErrorView {
                message: "expected "@ + kind_text(expected) + ", got "@ + kind_text(s.peek(c)),
                offset: Some(s.tokens[c.pos].offset),
            },
        ),
{
}

} // verus!
