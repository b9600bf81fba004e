//! What a sequence of tokens says.
//!
//! A reading function maps the place where reading begins to what stands there and the place
//! behind it, or to the error that is reported. The tokens end with [`KindView::Eof`]; reading
//! does not go past it, and at it the token before it is read once more.
use crate::ast::{
    triple, DocumentView, LiteralView, RuleView, TermView, TripleView, EYERON_UNQUOTE,
    LOG_IMPLIED_BY, LOG_IMPLIES, LOG_QUERY, OWL_SAME_AS, RDF_TYPE,
};
use crate::error::ErrorView;
use crate::lexer::lex_text;
use crate::show::{kind_text, term_text};
use crate::text::{contains_text, decimal, other_than, scan};
use crate::token::{like, KindView, TokenView};
use vstd::prelude::*;

verus! {

/// The datatype of decimal numbers.
pub open spec fn xsd_decimal() -> Seq<char> {
    "http://www.w3.org/2001/XMLSchema#decimal"@
}

/// The datatype of integers.
pub open spec fn xsd_integer() -> Seq<char> {
    "http://www.w3.org/2001/XMLSchema#integer"@
}

/// The datatype of truth values.
pub open spec fn xsd_boolean() -> Seq<char> {
    "http://www.w3.org/2001/XMLSchema#boolean"@
}

/// The literal for a number as it is written: a decimal if it has a dot or an exponent, else an
/// integer.
pub open spec fn number(value: Seq<char>) -> TermView {
    TermView::Literal(
        LiteralView {
            value,
            datatype: Some(
                if value.contains('.') || value.contains('e') || value.contains('E') {
                    xsd_decimal()
                } else {
                    xsd_integer()
                },
            ),
            language: None,
        },
    )
}

/// The literal for `true` or `false`.
pub open spec fn boolean(value: bool) -> TermView {
    TermView::Literal(
        LiteralView {
            value: if value {
                "true"@
            } else {
                "false"@
            },
            datatype: Some(xsd_boolean()),
            language: None,
        },
    )
}

/// An IRI that no base changes.
pub open spec fn is_absolute(iri: Seq<char>) -> bool {
    contains_text(iri, "://"@) || "urn:"@.is_prefix_of(iri) || "mailto:"@.is_prefix_of(iri)
}

/// The base up to its last slash, or all of it where it has none.
pub open spec fn directory(base: Seq<char>) -> Seq<char> {
    match base.index_of_last('/') {
        Some(i) => base.subrange(0, i + 1),
        None => base,
    }
}

/// An IRI as it is meant under a base.
pub open spec fn resolve(base: Option<Seq<char>>, iri: Seq<char>) -> Seq<char> {
    match base {
        Some(base) if !is_absolute(iri) => {
            let fragment = iri.len() > 0 && iri[0] == '#';
            let open = base.len() > 0 && (base.last() == '/' || base.last() == '#');
            if fragment || open {
                base + iri
            } else {
                directory(base) + iri
            }
        },
        _ => iri,
    }
}

/// The IRI that a prefixed name stands for. The prefix ends at the first colon.
pub open spec fn expand(
    prefixes: Map<Seq<char>, Seq<char>>,
    name: Seq<char>,
    offset: int,
) -> Result<Seq<char>, ErrorView> {
    let colon = scan(name, 0, other_than(':'));
    let prefix = name.subrange(0, colon);
    if colon >= name.len() {
        Err(
            ErrorView::located(
                "unknown bare name '"@ + name + "'; use a prefix or <IRI>"@,
                offset,
            ),
        )
    } else if prefixes.contains_key(prefix) {
        Ok(prefixes[prefix] + name.subrange(colon + 1, name.len() as int))
    } else {
        Err(ErrorView::located("unknown prefix '"@ + prefix + ":'"@, offset))
    }
}

/// The label of the `n`-th blank node that has none of its own.
pub open spec fn fresh_label(n: nat) -> Seq<char> {
    "b"@ + decimal(n)
}

/// What terms are read against: the tokens, and the prefixes and the base that hold.
pub struct Scope {
    pub tokens: Seq<TokenView>,
    pub prefixes: Map<Seq<char>, Seq<char>>,
    pub base: Option<Seq<char>>,
}

/// A place among the tokens, with the number of blank nodes that got a label so far.
pub struct Cursor {
    pub pos: int,
    pub blanks: nat,
}

/// What reading something gives: its value and the place behind it.
pub type Reading<T> = Result<(T, Cursor), ErrorView>;

/// A term, with the triples that stand inside it.
pub struct Nested {
    pub term: TermView,
    pub triples: Seq<TripleView>,
}

/// The items of a list, with the triples that stand inside them.
pub struct NestedItems {
    pub items: Seq<TermView>,
    pub triples: Seq<TripleView>,
}

impl Scope {
    /// The index of the last token.
    pub open spec fn last(self) -> int {
        self.tokens.len() - 1
    }

    /// The kind of the token that comes next.
    pub open spec fn peek(self, c: Cursor) -> KindView {
        self.tokens[c.pos].kind
    }

    /// The position of the token that comes next.
    pub open spec fn offset(self, c: Cursor) -> int {
        self.tokens[c.pos].offset
    }

    /// The token that is read at a place.
    pub open spec fn read(self, c: Cursor) -> TokenView {
        if c.pos < self.last() {
            self.tokens[c.pos]
        } else {
            self.tokens[c.pos - 1]
        }
    }

    /// The place after the token that is read at a place.
    pub open spec fn step(self, c: Cursor) -> Cursor {
        if c.pos < self.last() {
            Cursor { pos: c.pos + 1, blanks: c.blanks }
        } else {
            c
        }
    }

    /// Whether `d` is `c` or a later place.
    pub open spec fn reaches(self, c: Cursor, d: Cursor) -> bool {
        c.pos <= d.pos <= self.last()
    }

    /// Whether `d` is a later place than `c`.
    pub open spec fn gains(self, c: Cursor, d: Cursor) -> bool {
        c.pos < d.pos <= self.last()
    }

    /// Whether a predicate list ends here.
    pub open spec fn ends_predicates(self, c: Cursor) -> bool {
        self.peek(c) is Dot || self.peek(c) is RBrace || self.peek(c) is RBracket
    }
}

/// The error that something else than expected comes next.
pub open spec fn unexpected(s: Scope, c: Cursor, expected: KindView) -> ErrorView {
    ErrorView::located(
        "expected "@ + kind_text(expected) + ", got "@ + kind_text(s.peek(c)),
        s.offset(c),
    )
}

/// The error that no term stands at a place.
pub open spec fn not_a_term(token: TokenView) -> ErrorView {
    ErrorView::located("expected term, got "@ + kind_text(token.kind), token.offset)
}

/// The error of a `[` at which the text ends.
pub open spec fn unclosed_bracket(offset: int) -> ErrorView {
    ErrorView::located("unterminated blank node property list"@, offset)
}

/// The error of a reading that makes no headway. No tokens that end with [`KindView::Eof`] give
/// it.
pub open spec fn no_headway() -> ErrorView {
    ErrorView::plain("no headway"@)
}

/// Reads a token of the expected sort.
pub open spec fn expect(s: Scope, c: Cursor, expected: KindView) -> Reading<()> {
    if like(s.peek(c), expected) {
        Ok(((), s.step(c)))
    } else {
        Err(unexpected(s, c, expected))
    }
}

/// A term without triples inside it.
pub open spec fn simple(term: TermView, c: Cursor) -> Reading<Nested> {
    Ok((Nested { term, triples: Seq::empty() }, c))
}

/// The term that a token is on its own; the place behind the token is `c`.
pub open spec fn token_term(s: Scope, token: TokenView, c: Cursor) -> Reading<Nested> {
    match token.kind {
        KindView::Iri(iri) => simple(TermView::Iri(resolve(s.base, iri)), c),
        KindView::PName(name) => match expand(s.prefixes, name, token.offset) {
            Ok(iri) => simple(TermView::Iri(iri), c),
            Err(e) => Err(e),
        },
        KindView::Var(name) => simple(TermView::Var(name), c),
        KindView::Blank(label) => simple(TermView::Blank(label), c),
        KindView::Number(value) => simple(number(value), c),
        KindView::Boolean(value) => simple(boolean(value), c),
        KindView::A => simple(TermView::Iri(RDF_TYPE@), c),
        _ => Err(not_a_term(token)),
    }
}

/// A literal whose value was read already, with the datatype or the language that follows.
pub open spec fn literal(s: Scope, c: Cursor, value: Seq<char>) -> Reading<Nested>
    decreases s.tokens.len() - c.pos, 0nat,
{
    match s.peek(c) {
        KindView::HatHat => if !s.gains(c, s.step(c)) {
            Err(no_headway())
        } else {
            match term(s, s.step(c)) {
                Ok((datatype, d)) => if datatype.triples.len() > 0 {
                    Err(ErrorView::plain("datatype cannot generate triples"@))
                } else {
                    match datatype.term {
                        TermView::Iri(iri) => simple(
                            TermView::Literal(
                                LiteralView { value, datatype: Some(iri), language: None },
                            ),
                            d,
                        ),
                        _ => Err(ErrorView::plain("datatype must be an IRI"@)),
                    }
                },
                Err(e) => Err(e),
            }
        },
        KindView::Lang(tag) => simple(
            TermView::Literal(LiteralView { value, datatype: None, language: Some(tag) }),
            s.step(c),
        ),
        _ => simple(
            TermView::Literal(LiteralView { value, datatype: None, language: None }),
            c,
        ),
    }
}

/// A term that begins at the end of the text, where the last token before it is read once more.
pub open spec fn term_at_end(s: Scope, c: Cursor) -> Reading<Nested> {
    let token = s.read(c);
    match token.kind {
        KindView::String(value) => simple(
            TermView::Literal(LiteralView { value, datatype: None, language: None }),
            c,
        ),
        KindView::LBrace => Err(unexpected(s, c, KindView::RBrace)),
        KindView::LParen => Err(unexpected(s, c, KindView::RParen)),
        KindView::LBracket => Err(unclosed_bracket(token.offset)),
        _ => token_term(s, token, c),
    }
}

/// A term.
pub open spec fn term(s: Scope, c: Cursor) -> Reading<Nested>
    decreases s.tokens.len() - c.pos, 2nat,
{
    if c.pos >= s.last() {
        term_at_end(s, c)
    } else {
        match s.peek(c) {
            KindView::String(value) => literal(s, s.step(c), value),
            KindView::LBrace => match formula(s, c) {
                Ok((items, d)) => simple(TermView::Formula(items), d),
                Err(e) => Err(e),
            },
            KindView::LBracket => property_list(s, s.step(c)),
            KindView::LParen => match list_items(s, s.step(c)) {
                Ok((list, d)) => match expect(s, d, KindView::RParen) {
                    Ok((_, d)) => Ok(
                        (Nested { term: TermView::List(list.items), triples: list.triples }, d),
                    ),
                    Err(e) => Err(e),
                },
                Err(e) => Err(e),
            },
            _ => token_term(s, s.read(c), s.step(c)),
        }
    }
}

/// The items of a list, up to what closes it.
pub open spec fn list_items(s: Scope, c: Cursor) -> Reading<NestedItems>
    decreases s.tokens.len() - c.pos, 7nat,
{
    if s.peek(c) is RParen || s.peek(c) is Eof {
        Ok((NestedItems { items: Seq::empty(), triples: Seq::empty() }, c))
    } else {
        match term(s, c) {
            Ok((first, d)) => if !s.gains(c, d) {
                Err(no_headway())
            } else {
                match list_items(s, d) {
                    Ok((rest, e)) => Ok(
                        (
                            NestedItems {
                                items: seq![first.term] + rest.items,
                                triples: first.triples + rest.triples,
                            },
                            e,
                        ),
                    ),
                    Err(e) => Err(e),
                }
            },
            Err(e) => Err(e),
        }
    }
}

/// A blank node with the predicates and objects between its brackets, of which the opening one
/// was read already.
pub open spec fn property_list(s: Scope, c: Cursor) -> Reading<Nested>
    decreases s.tokens.len() - c.pos, 7nat,
{
    let blank = TermView::Blank(fresh_label(c.blanks + 1));
    let c = Cursor { pos: c.pos, blanks: c.blanks + 1 };
    if s.peek(c) is RBracket {
        simple(blank, s.step(c))
    } else {
        match predicates(s, c, blank) {
            Ok((items, d)) => match expect(s, d, KindView::RBracket) {
                Ok((_, d)) => Ok((Nested { term: blank, triples: items }, d)),
                Err(e) => Err(e),
            },
            Err(e) => Err(e),
        }
    }
}

/// A predicate.
pub open spec fn verb(s: Scope, c: Cursor) -> Reading<TermView>
    decreases s.tokens.len() - c.pos, 4nat,
{
    match s.peek(c) {
        KindView::A => Ok((TermView::Iri(RDF_TYPE@), s.step(c))),
        KindView::Equals => Ok((TermView::Iri(OWL_SAME_AS@), s.step(c))),
        KindView::Arrow => Ok((TermView::Iri(LOG_IMPLIES@), s.step(c))),
        KindView::BackArrow => Ok((TermView::Iri(LOG_IMPLIED_BY@), s.step(c))),
        _ => match term(s, c) {
            Ok((predicate, d)) => if predicate.triples.len() > 0 {
                Err(
                    ErrorView::plain("generated blank/list triples cannot be used as predicates"@),
                )
            } else {
                Ok((predicate.term, d))
            },
            Err(e) => Err(e),
        },
    }
}

/// The objects of a subject and a predicate, with commas between them.
pub open spec fn objects(s: Scope, c: Cursor, subject: TermView, predicate: TermView) -> Reading<
    Seq<TripleView>,
>
    decreases s.tokens.len() - c.pos, 3nat,
{
    match term(s, c) {
        Ok((object, d)) => {
            let first = seq![triple(subject, predicate, object.term)] + object.triples;
            if !(s.peek(d) is Comma) {
                Ok((first, d))
            } else if !s.gains(c, s.step(d)) {
                Err(no_headway())
            } else {
                match objects(s, s.step(d), subject, predicate) {
                    Ok((rest, e)) => Ok((first + rest, e)),
                    Err(e) => Err(e),
                }
            }
        },
        Err(e) => Err(e),
    }
}

/// The place behind any semicolons.
pub open spec fn skip_semicolons(s: Scope, c: Cursor) -> Cursor
    decreases s.tokens.len() - c.pos,
{
    if s.peek(c) is Semicolon && s.gains(c, s.step(c)) {
        skip_semicolons(s, s.step(c))
    } else {
        c
    }
}

/// The predicates of a subject with their objects, with semicolons between them.
pub open spec fn predicates(s: Scope, c: Cursor, subject: TermView) -> Reading<Seq<TripleView>>
    decreases s.tokens.len() - c.pos, 5nat,
{
    if s.ends_predicates(c) {
        Ok((Seq::empty(), c))
    } else {
        match verb(s, c) {
            Ok((predicate, d)) => if !s.reaches(c, d) {
                Err(no_headway())
            } else {
                match objects(s, d, subject, predicate) {
                    Ok((first, e)) => if !(s.peek(e) is Semicolon) {
                        Ok((first, e))
                    } else if !s.gains(c, skip_semicolons(s, e)) {
                        Err(no_headway())
                    } else {
                        match predicates(s, skip_semicolons(s, e), subject) {
                            Ok((rest, f)) => Ok((first + rest, f)),
                            Err(e) => Err(e),
                        }
                    },
                    Err(e) => Err(e),
                }
            },
            Err(e) => Err(e),
        }
    }
}

/// The object of an implication: `true` stands for the empty formula.
pub open spec fn implied(term: TermView) -> TermView {
    if term == boolean(true) {
        TermView::Formula(Seq::empty())
    } else {
        term
    }
}

/// A subject with its predicates and objects, or an implication between two terms.
pub open spec fn statement_triples(s: Scope, c: Cursor) -> Reading<Seq<TripleView>>
    decreases s.tokens.len() - c.pos, 6nat,
{
    match term(s, c) {
        Ok((subject, d)) => if !s.reaches(c, d) {
            Err(no_headway())
        } else if s.peek(d) is Arrow || s.peek(d) is BackArrow {
            if !s.gains(c, s.step(d)) {
                Err(no_headway())
            } else {
                match term(s, s.step(d)) {
                    Ok((object, e)) => {
                        let predicate = if s.peek(d) is BackArrow {
                            LOG_IMPLIED_BY@
                        } else {
                            LOG_IMPLIES@
                        };
                        Ok(
                            (
                                subject.triples + object.triples + seq![
                                    triple(
                                        subject.term,
                                        TermView::Iri(predicate),
                                        implied(object.term),
                                    ),
                                ],
                                e,
                            ),
                        )
                    },
                    Err(e) => Err(e),
                }
            }
        } else {
            match predicates(s, d, subject.term) {
                Ok((items, e)) => Ok((subject.triples + items, e)),
                Err(e) => Err(e),
            }
        },
        Err(e) => Err(e),
    }
}

/// The statements of a formula, up to what closes it.
pub open spec fn formula_items(s: Scope, c: Cursor) -> Reading<Seq<TripleView>>
    decreases s.tokens.len() - c.pos, 7nat,
{
    if s.peek(c) is RBrace || s.peek(c) is Eof {
        Ok((Seq::empty(), c))
    } else if s.peek(c) is Dot {
        if !s.gains(c, s.step(c)) {
            Err(no_headway())
        } else {
            formula_items(s, s.step(c))
        }
    } else {
        match statement_triples(s, c) {
            Ok((first, d)) => if !(s.peek(d) is Dot) && !(s.peek(d) is RBrace) {
                Err(ErrorView::located("expected '.' or '}' in formula"@, s.offset(d)))
            } else {
                let next = if s.peek(d) is Dot {
                    s.step(d)
                } else {
                    d
                };
                if !s.gains(c, next) {
                    Err(no_headway())
                } else {
                    match formula_items(s, next) {
                        Ok((rest, e)) => Ok((first + rest, e)),
                        Err(e) => Err(e),
                    }
                }
            },
            Err(e) => Err(e),
        }
    }
}

/// A formula in braces.
pub open spec fn formula(s: Scope, c: Cursor) -> Reading<Seq<TripleView>>
    decreases s.tokens.len() - c.pos, 1nat,
{
    match expect(s, c, KindView::LBrace) {
        Ok((_, d)) => if !s.gains(c, d) {
            Err(no_headway())
        } else {
            match formula_items(s, d) {
                Ok((items, e)) => match expect(s, e, KindView::RBrace) {
                    Ok((_, e)) => Ok((items, e)),
                    Err(e) => Err(e),
                },
                Err(e) => Err(e),
            }
        },
        Err(e) => Err(e),
    }
}

/// A formula in braces, or `true` for the empty one.
pub open spec fn formula_or_true(s: Scope, c: Cursor) -> Reading<Seq<TripleView>> {
    if s.peek(c) == KindView::Boolean(true) {
        Ok((Seq::empty(), s.step(c)))
    } else {
        formula(s, c)
    }
}

/// The triples that stand for "the contents of the formula that this term is".
pub open spec fn unquoted(term: TermView) -> Seq<TripleView> {
    seq![triple(TermView::Iri(EYERON_UNQUOTE@), TermView::Iri(EYERON_UNQUOTE@), term)]
}

/// The conclusion of a forward rule: a formula, `true`, or a term that is to be unquoted.
pub open spec fn forward_conclusion(s: Scope, c: Cursor) -> Reading<Seq<TripleView>> {
    if s.peek(c) == KindView::Boolean(true) {
        Ok((Seq::empty(), s.step(c)))
    } else if s.peek(c) is LBrace {
        formula(s, c)
    } else {
        match term(s, c) {
            Ok((conclusion, d)) => if conclusion.triples.len() > 0 {
                Err(
                    ErrorView::plain(
                        "generated triples cannot appear around an unquoted RHS term"@,
                    ),
                )
            } else {
                Ok((unquoted(conclusion.term), d))
            },
            Err(e) => Err(e),
        }
    }
}

/// The scope in which the statements of a document are read.
pub open spec fn scope(tokens: Seq<TokenView>, doc: DocumentView) -> Scope {
    Scope { tokens, prefixes: doc.prefixes, base: doc.base_iri }
}

/// A document with the dot that ends a statement.
pub open spec fn closed(s: Scope, doc: DocumentView, c: Cursor) -> Reading<DocumentView> {
    match expect(s, c, KindView::Dot) {
        Ok((_, d)) => Ok((doc, d)),
        Err(e) => Err(e),
    }
}

/// A statement, given what stands before the dot that ends it.
pub open spec fn ended(s: Scope, content: Reading<DocumentView>) -> Reading<DocumentView> {
    match content {
        Ok((doc, d)) => closed(s, doc, d),
        Err(e) => Err(e),
    }
}

/// A document with one more rule.
pub open spec fn with_rule(doc: DocumentView, rule: RuleView, c: Cursor) -> Reading<DocumentView> {
    Ok((DocumentView { rules: doc.rules.push(rule), ..doc }, c))
}

/// A name without the colon at its end.
pub open spec fn without_colon(name: Seq<char>) -> Seq<char> {
    if name.len() > 0 && name.last() == ':' {
        name.drop_last()
    } else {
        name
    }
}

/// The declaration of a prefix, up to its dot.
pub open spec fn prefix_content(s: Scope, doc: DocumentView, c: Cursor) -> Reading<DocumentView> {
    let d = s.step(c);
    let e = s.step(d);
    match s.read(d).kind {
        KindView::PName(name) => match s.read(e).kind {
            KindView::Iri(iri) => Ok(
                (
                    DocumentView { prefixes: doc.prefixes.insert(without_colon(name), iri), ..doc },
                    s.step(e),
                ),
            ),
            _ => Err(ErrorView::located("expected prefix IRI"@, s.read(e).offset)),
        },
        _ => Err(ErrorView::located("expected prefix name"@, s.read(d).offset)),
    }
}

/// The declaration of a base, up to its dot.
pub open spec fn base_content(s: Scope, doc: DocumentView, c: Cursor) -> Reading<DocumentView> {
    let d = s.step(c);
    match s.read(d).kind {
        KindView::Iri(iri) => Ok((DocumentView { base_iri: Some(iri), ..doc }, s.step(d))),
        _ => Err(ErrorView::located("expected base IRI"@, s.read(d).offset)),
    }
}

/// A rule whose left side is `true`, up to its dot.
pub open spec fn true_content(s: Scope, doc: DocumentView, c: Cursor) -> Reading<DocumentView> {
    let d = s.step(c);
    match s.peek(d) {
        KindView::Arrow => match forward_conclusion(s, s.step(d)) {
            Ok((conclusion, e)) => with_rule(
                doc,
                RuleView { premise: Seq::empty(), conclusion, is_forward: true },
                e,
            ),
            Err(e) => Err(e),
        },
        KindView::BackArrow => match formula_or_true(s, s.step(d)) {
            Ok((premise, e)) => with_rule(
                doc,
                RuleView { premise, conclusion: Seq::empty(), is_forward: false },
                e,
            ),
            Err(e) => Err(e),
        },
        _ => Err(ErrorView::located("expected => or <= after true"@, s.offset(d))),
    }
}

/// A rule whose left side is a formula, up to its dot: `=>` and `log:query` make a forward rule,
/// `<=` makes a backward rule with the left side as its conclusion.
pub open spec fn formula_content(s: Scope, doc: DocumentView, c: Cursor) -> Reading<
    DocumentView,
> {
    match formula(s, c) {
        Ok((left, d)) => match s.peek(d) {
            KindView::Arrow => match forward_conclusion(s, s.step(d)) {
                Ok((conclusion, e)) => with_rule(
                    doc,
                    RuleView { premise: left, conclusion, is_forward: true },
                    e,
                ),
                Err(e) => Err(e),
            },
            KindView::BackArrow => match formula_or_true(s, s.step(d)) {
                Ok((premise, e)) => with_rule(
                    doc,
                    RuleView { premise, conclusion: left, is_forward: false },
                    e,
                ),
                Err(e) => Err(e),
            },
            _ => match verb(s, d) {
                Ok((predicate, e)) => if predicate == TermView::Iri(LOG_QUERY@) {
                    match formula_or_true(s, e) {
                        Ok((conclusion, f)) => with_rule(
                            doc,
                            RuleView { premise: left, conclusion, is_forward: true },
                            f,
                        ),
                        Err(e) => Err(e),
                    }
                } else {
                    Err(
                        ErrorView::located(
                            "expected =>, <=, or log:query after formula, got "@ + term_text(
                                predicate,
                            ),
                            s.offset(e),
                        ),
                    )
                },
                Err(e) => Err(e),
            },
        },
        Err(e) => Err(e),
    }
}

/// Triples, up to the dot that ends them.
pub open spec fn fact_content(s: Scope, doc: DocumentView, c: Cursor) -> Reading<DocumentView> {
    match statement_triples(s, c) {
        Ok((items, d)) => Ok((DocumentView { facts: doc.facts + items, ..doc }, d)),
        Err(e) => Err(e),
    }
}

/// What stands before the dot of a statement, added to what the document says so far.
pub open spec fn content(s: Scope, doc: DocumentView, c: Cursor) -> Reading<DocumentView> {
    match s.peek(c) {
        KindView::AtPrefix => prefix_content(s, doc, c),
        KindView::Prefix => prefix_content(s, doc, c),
        KindView::AtBase => base_content(s, doc, c),
        KindView::Base => base_content(s, doc, c),
        KindView::LBrace => formula_content(s, doc, c),
        KindView::Boolean(true) => true_content(s, doc, c),
        KindView::Dot => Ok((doc, c)),
        _ => fact_content(s, doc, c),
    }
}

/// A statement of a document, added to what the document says so far.
pub open spec fn statement(tokens: Seq<TokenView>, doc: DocumentView, c: Cursor) -> Reading<
    DocumentView,
> {
    let s = scope(tokens, doc);
    ended(s, content(s, doc, c))
}

/// The statements from a place on, added to what the document says so far.
pub open spec fn statements(tokens: Seq<TokenView>, doc: DocumentView, c: Cursor) -> Result<
    DocumentView,
    ErrorView,
>
    decreases tokens.len() - c.pos,
{
    if tokens[c.pos].kind is Eof {
        Ok(doc)
    } else {
        match statement(tokens, doc, c) {
            Ok((doc, d)) => if c.pos < d.pos < tokens.len() {
                statements(tokens, doc, d)
            } else {
                Err(no_headway())
            },
            Err(e) => Err(e),
        }
    }
}

/// What a document says whose tokens are given.
pub open spec fn document(tokens: Seq<TokenView>, base: Option<Seq<char>>) -> Result<
    DocumentView,
    ErrorView,
> {
    statements(
        tokens,
        DocumentView { base_iri: base, ..DocumentView::empty() },
        Cursor { pos: 0, blanks: 0 },
    )
}

/// What a Notation3 text says.
pub open spec fn n3(text: Seq<char>, base: Option<Seq<char>>) -> Result<DocumentView, ErrorView> {
    match lex_text(text) {
        Ok(tokens) => document(tokens, base),
        Err(e) => Err(e),
    }
}

} // verus!
