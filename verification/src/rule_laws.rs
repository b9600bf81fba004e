//! What each statement of a document adds to it.
use crate::ast::{DocumentView, RuleView, TermView, TripleView};
use crate::error::ErrorView;
use crate::grammar::{
    content, ended, formula, formula_content, formula_or_true, forward_conclusion, n3, scope,
    statement, statement_triples, statements, term, true_content, verb, Cursor, Reading, Scope,
};
use crate::headway::{
    complete, lemma_conclusion, lemma_formula, lemma_statement, lemma_verb, placed,
};
use crate::lexer::lex_text;
use crate::sentence_laws::said;
use crate::show::{kind_text, term_text};
use crate::spelling::ahead;
use crate::term_laws::comes_next;
use crate::token::{KindView, TokenView};
use vstd::prelude::*;

verus! {

/// The error that no dot stands at a place.
pub open spec fn no_dot(s: Scope, c: Cursor) -> ErrorView {
    ErrorView {
        message: "expected "@ + kind_text(KindView::Dot) + ", got "@ + kind_text(s.peek(c)),
        offset: Some(s.offset(c)),
    }
}

/// What a statement leaves that says `doc` up to the place `c`: that document behind the dot, or
/// the error that there is none.
pub open spec fn with_dot(s: Scope, doc: DocumentView, c: Cursor) -> Reading<DocumentView> {
    if s.peek(c) is Dot {
        Ok((doc, ahead(c, 1)))
    } else {
        Err(no_dot(s, c))
    }
}

/// A document with one rule more, behind those that it has.
pub open spec fn plus_rule(
    doc: DocumentView,
    premise: Seq<TripleView>,
    conclusion: Seq<TripleView>,
    is_forward: bool,
) -> DocumentView {
    DocumentView {
        prefixes: doc.prefixes,
        base_iri: doc.base_iri,
        facts: doc.facts,
        rules: doc.rules + seq![RuleView { premise, conclusion, is_forward }],
    }
}

/// A statement is read against the prefixes and the base of the document that is read so far.
pub proof fn law_scope_of_statements(tokens: Seq<TokenView>, doc: DocumentView)
    ensures
        scope(tokens, doc).tokens == tokens,
        scope(tokens, doc).prefixes == doc.prefixes,
        scope(tokens, doc).base == doc.base_iri,
{
}

/// On the right side of a rule `true` is the empty formula, and braces are a formula. Behind `=>`
/// any other term without triples inside it is one whose contents are meant; behind `<=` and
/// `log:query` it is refused.
pub proof fn law_right_sides(s: Scope, c: Cursor)
    requires
        placed(s, c),
    ensures
        s.peek(c) == KindView::Boolean(true) ==> {
            &&& formula_or_true(s, c) == said(Seq::empty(), ahead(c, 1))
            &&& forward_conclusion(s, c) == said(Seq::empty(), ahead(c, 1))
        },
        s.peek(c) is LBrace ==> {
            &&& formula_or_true(s, c) == formula(s, c)
            &&& forward_conclusion(s, c) == formula(s, c)
        },
        s.peek(c) != KindView::Boolean(true) && !(s.peek(c) is LBrace) ==> {
            &&& formula_or_true(s, c) == Err::<(Seq<TripleView>, Cursor), ErrorView>(
                ErrorView {
                    message: "expected "@ + kind_text(KindView::LBrace) + ", got "@ + kind_text(
                        s.peek(c),
                    ),
                    offset: Some(s.offset(c)),
                },
            )
            &&& forward_conclusion(s, c) == (match term(s, c) {
                Ok((t, d)) => if t.triples.len() == 0 {
                    said(
                        seq![
                            TripleView {
                                subject: TermView::Iri("urn:eyeron:unquote"@),
                                predicate: TermView::Iri("urn:eyeron:unquote"@),
                                object: t.term,
                            },
                        ],
                        d,
                    )
                } else {
                    Err(
                        ErrorView {
                            message:
                                "generated triples cannot appear around an unquoted RHS term"@,
                            offset: None,
                        },
                    )
                },
                Err(e) => Err(e),
            })
        },
{
    assert(s.tokens.last() == s.tokens[s.last()]);
}

proof fn lemma_ended(s: Scope, r: Reading<DocumentView>)
    requires
        complete(s.tokens),
        r matches Ok((_, d)) ==> 0 <= d.pos <= s.last(),
    ensures
        ended(s, r) == (match r {
            Ok((doc, d)) => with_dot(s, doc, d),
            Err(e) => Err(e),
        }),
{
    assert(s.tokens.last() == s.tokens[s.last()]);
}

/// `{ A } => B .` adds a forward rule from `A` to `B`, and nothing else.
pub proof fn law_forward_rules(tokens: Seq<TokenView>, doc: DocumentView, c: Cursor)
    requires
        complete(tokens),
        comes_next(scope(tokens, doc), c, KindView::LBrace),
        ({
            let s = scope(tokens, doc);
            formula(s, c) matches Ok((_, d)) && s.peek(d) is Arrow
        }),
    ensures
        ({
            let s = scope(tokens, doc);
            let (left, d) = formula(s, c)->Ok_0;
            statement(tokens, doc, c) == (match forward_conclusion(s, ahead(d, 1)) {
                Ok((right, e)) => with_dot(s, plus_rule(doc, left, right, true), e),
                Err(e) => Err(e),
            })
        }),
{
    let s = scope(tokens, doc);
    let (left, d) = formula(s, c)->Ok_0;
    lemma_side(s, doc, c);
    lemma_braced(tokens, doc, c);
    assert(s.step(d) == ahead(d, 1));
    if let Ok((right, e)) = forward_conclusion(s, s.step(d)) {
        assert(plus_rule(doc, left, right, true) =~= DocumentView {
            rules: doc.rules.push(
                RuleView { premise: left, conclusion: right, is_forward: true },
            ),
            ..doc
        });
    }
}

/// `{ A } <= B .` adds a backward rule from `B` to `A`, and nothing else.
pub proof fn law_backward_rules(tokens: Seq<TokenView>, doc: DocumentView, c: Cursor)
    requires
        complete(tokens),
        comes_next(scope(tokens, doc), c, KindView::LBrace),
        ({
            let s = scope(tokens, doc);
            formula(s, c) matches Ok((_, d)) && s.peek(d) is BackArrow
        }),
    ensures
        ({
            let s = scope(tokens, doc);
            let (left, d) = formula(s, c)->Ok_0;
            statement(tokens, doc, c) == (match formula_or_true(s, ahead(d, 1)) {
                Ok((right, e)) => with_dot(s, plus_rule(doc, right, left, false), e),
                Err(e) => Err(e),
            })
        }),
{
    let s = scope(tokens, doc);
    let (left, d) = formula(s, c)->Ok_0;
    lemma_side(s, doc, c);
    lemma_braced(tokens, doc, c);
    assert(s.step(d) == ahead(d, 1));
    if let Ok((right, e)) = formula_or_true(s, s.step(d)) {
        assert(plus_rule(doc, right, left, false) =~= DocumentView {
            rules: doc.rules.push(
                RuleView { premise: right, conclusion: left, is_forward: false },
            ),
            ..doc
        });
    }
}

/// However the predicate between two formulas is written, if it is the IRI of `log:query` then the
/// statement adds the forward rule from the left one to the right one, and nothing else. Any other
/// predicate is refused.
pub proof fn law_queries(tokens: Seq<TokenView>, doc: DocumentView, c: Cursor)
    requires
        complete(tokens),
        comes_next(scope(tokens, doc), c, KindView::LBrace),
        ({
            let s = scope(tokens, doc);
            formula(s, c) matches Ok((_, d)) && !(s.peek(d) is Arrow) && !(s.peek(d) is BackArrow)
        }),
    ensures
        ({
            let s = scope(tokens, doc);
            let (left, d) = formula(s, c)->Ok_0;
            let query = TermView::Iri("http://www.w3.org/2000/10/swap/log#query"@);
            statement(tokens, doc, c) == (match verb(s, d) {
                Ok((predicate, e)) => if predicate == query {
                    match formula_or_true(s, e) {
                        Ok((right, f)) => with_dot(s, plus_rule(doc, left, right, true), f),
                        Err(err) => Err(err),
                    }
                } else {
                    Err(
                        ErrorView {
                            message: "expected =>, <=, or log:query after formula, got "@
                                + term_text(predicate),
                            offset: Some(s.offset(e)),
                        },
                    )
                },
                Err(err) => Err(err),
            })
        }),
{
    let s = scope(tokens, doc);
    let (left, d) = formula(s, c)->Ok_0;
    lemma_formula(s, c);
    lemma_verb(s, d);
    lemma_braced(tokens, doc, c);
    if let Ok((predicate, e)) = verb(s, d) {
        lemma_conclusion(s, e);
        lemma_ended(s, formula_content(s, doc, c));
        if let Ok((right, f)) = formula_or_true(s, e) {
            assert(plus_rule(doc, left, right, true) =~= DocumentView {
                rules: doc.rules.push(
                    RuleView { premise: left, conclusion: right, is_forward: true },
                ),
                ..doc
            });
        }
    }
}

/// A statement fails where it begins with a formula that cannot be read.
pub proof fn law_rule_needs_its_left_side(tokens: Seq<TokenView>, doc: DocumentView, c: Cursor)
    requires
        comes_next(scope(tokens, doc), c, KindView::LBrace),
        formula(scope(tokens, doc), c) is Err,
    ensures
        statement(tokens, doc, c) == Err::<(DocumentView, Cursor), ErrorView>(
            formula(scope(tokens, doc), c)->Err_0,
        ),
{
    lemma_braced(tokens, doc, c);
}

proof fn lemma_braced(tokens: Seq<TokenView>, doc: DocumentView, c: Cursor)
    requires
        comes_next(scope(tokens, doc), c, KindView::LBrace),
    ensures
        ({
            let s = scope(tokens, doc);
            statement(tokens, doc, c) == ended(s, formula_content(s, doc, c))
        }),
{
    let s = scope(tokens, doc);
    assert(content(s, doc, c) == formula_content(s, doc, c));
}

proof fn lemma_side(s: Scope, doc: DocumentView, c: Cursor)
    requires
        placed(s, c),
        formula(s, c) matches Ok((_, d)) && (s.peek(d) is Arrow || s.peek(d) is BackArrow),
    ensures
        formula(s, c)->Ok_0.1.pos < s.last(),
        ended(s, formula_content(s, doc, c)) == (match formula_content(s, doc, c) {
            Ok((doc, d)) => with_dot(s, doc, d),
            Err(e) => Err(e),
        }),
{
    lemma_formula(s, c);
    let d = formula(s, c)->Ok_0.1;
    assert(s.tokens.last() == s.tokens[s.last()]);
    assert(s.peek(d) != s.tokens.last().kind);
    lemma_conclusion(s, s.step(d));
    lemma_ended(s, formula_content(s, doc, c));
}

/// `true => B .` adds a forward rule from nothing to `B`, and `true <= B .` a backward rule from
/// `B` to nothing. Without an arrow `true` is refused.
pub proof fn law_rules_of_true(tokens: Seq<TokenView>, doc: DocumentView, c: Cursor)
    requires
        complete(tokens),
        comes_next(scope(tokens, doc), c, KindView::Boolean(true)),
    ensures
        ({
            let s = scope(tokens, doc);
            let d = ahead(c, 1);
            &&& s.peek(d) is Arrow ==> statement(tokens, doc, c) == (match forward_conclusion(
                s,
                ahead(c, 2),
            ) {
                Ok((right, e)) => with_dot(s, plus_rule(doc, Seq::empty(), right, true), e),
                Err(e) => Err(e),
            })
            &&& s.peek(d) is BackArrow ==> statement(tokens, doc, c) == (match formula_or_true(
                s,
                ahead(c, 2),
            ) {
                Ok((right, e)) => with_dot(s, plus_rule(doc, right, Seq::empty(), false), e),
                Err(e) => Err(e),
            })
            &&& !(s.peek(d) is Arrow || s.peek(d) is BackArrow) ==> statement(tokens, doc, c)
                == Err::<(DocumentView, Cursor), ErrorView>(
                ErrorView {
                    message: "expected => or <= after true"@,
                    offset: Some(s.offset(d)),
                },
            )
        }),
{
    let s = scope(tokens, doc);
    let d = ahead(c, 1);
    assert(content(s, doc, c) == true_content(s, doc, c));
    assert(s.step(c) == d);
    assert(s.tokens.last() == s.tokens[s.last()]);
    if s.peek(d) is Arrow || s.peek(d) is BackArrow {
        assert(d.pos < s.last());
        assert(s.step(d) == ahead(c, 2));
        lemma_conclusion(s, ahead(c, 2));
        lemma_ended(s, true_content(s, doc, c));
        if let Ok((right, e)) = forward_conclusion(s, ahead(c, 2)) {
            assert(plus_rule(doc, Seq::empty(), right, true) =~= DocumentView {
                rules: doc.rules.push(
                    RuleView { premise: Seq::empty(), conclusion: right, is_forward: true },
                ),
                ..doc
            });
        }
        if let Ok((right, e)) = formula_or_true(s, ahead(c, 2)) {
            assert(plus_rule(doc, right, Seq::empty(), false) =~= DocumentView {
                rules: doc.rules.push(
                    RuleView { premise: right, conclusion: Seq::empty(), is_forward: false },
                ),
                ..doc
            });
        }
    }
}

/// `@prefix p: <i> .` and `PREFIX p: <i> .` declare the prefix `p` with the IRI `i` as it is
/// written, in place of what it was declared with before, and nothing else.
pub proof fn law_prefix_declarations(
    tokens: Seq<TokenView>,
    doc: DocumentView,
    c: Cursor,
    prefix: Seq<char>,
    iri: Seq<char>,
)
    requires
        complete(tokens),
        comes_next(scope(tokens, doc), c, KindView::AtPrefix) || comes_next(
            scope(tokens, doc),
            c,
            KindView::Prefix,
        ),
        comes_next(scope(tokens, doc), ahead(c, 1), KindView::PName(prefix.push(':'))),
        comes_next(scope(tokens, doc), ahead(c, 2), KindView::Iri(iri)),
    ensures
        statement(tokens, doc, c) == with_dot(
            scope(tokens, doc),
            DocumentView {
                prefixes: doc.prefixes.insert(prefix, iri),
                base_iri: doc.base_iri,
                facts: doc.facts,
                rules: doc.rules,
            },
            ahead(c, 3),
        ),
{
    let s = scope(tokens, doc);
    let told = DocumentView { prefixes: doc.prefixes.insert(prefix, iri), ..doc };
    assert(prefix.push(':').drop_last() =~= prefix);
    assert(content(s, doc, c) == Ok::<(DocumentView, Cursor), ErrorView>((told, ahead(c, 3))));
    lemma_ended(s, content(s, doc, c));
}

/// The name in such a declaration may lack its colon; it is then the prefix as it is.
pub proof fn law_prefix_declarations_without_colon(
    tokens: Seq<TokenView>,
    doc: DocumentView,
    c: Cursor,
    name: Seq<char>,
    iri: Seq<char>,
)
    requires
        complete(tokens),
        comes_next(scope(tokens, doc), c, KindView::AtPrefix) || comes_next(
            scope(tokens, doc),
            c,
            KindView::Prefix,
        ),
        comes_next(scope(tokens, doc), ahead(c, 1), KindView::PName(name)),
        comes_next(scope(tokens, doc), ahead(c, 2), KindView::Iri(iri)),
        name.len() > 0 ==> name.last() != ':',
    ensures
        statement(tokens, doc, c) == with_dot(
            scope(tokens, doc),
            DocumentView {
                prefixes: doc.prefixes.insert(name, iri),
                base_iri: doc.base_iri,
                facts: doc.facts,
                rules: doc.rules,
            },
            ahead(c, 3),
        ),
{
    let s = scope(tokens, doc);
    let told = DocumentView { prefixes: doc.prefixes.insert(name, iri), ..doc };
    assert(content(s, doc, c) == Ok::<(DocumentView, Cursor), ErrorView>((told, ahead(c, 3))));
    lemma_ended(s, content(s, doc, c));
}

/// A declaration of a prefix is refused where no name or no IRI follows.
pub proof fn law_prefix_declarations_are_refused(
    tokens: Seq<TokenView>,
    doc: DocumentView,
    c: Cursor,
)
    requires
        complete(tokens),
        comes_next(scope(tokens, doc), c, KindView::AtPrefix) || comes_next(
            scope(tokens, doc),
            c,
            KindView::Prefix,
        ),
        c.pos + 2 < tokens.len() - 1,
    ensures
        !(tokens[c.pos + 1].kind is PName) ==> statement(tokens, doc, c) == Err::<
            (DocumentView, Cursor),
            ErrorView,
        >(
            ErrorView {
                message: "expected prefix name"@,
                offset: Some(tokens[c.pos + 1].offset),
            },
        ),
        tokens[c.pos + 1].kind is PName && !(tokens[c.pos + 2].kind is Iri) ==> statement(
            tokens,
            doc,
            c,
        ) == Err::<(DocumentView, Cursor), ErrorView>(
            ErrorView { message: "expected prefix IRI"@, offset: Some(tokens[c.pos + 2].offset) },
        ),
{
}

/// A declaration of a prefix at which the text ends is refused, where the last token before the end
/// stands.
pub proof fn law_unfinished_prefix_declarations(
    tokens: Seq<TokenView>,
    doc: DocumentView,
    c: Cursor,
)
    requires
        complete(tokens),
        comes_next(scope(tokens, doc), c, KindView::AtPrefix) || comes_next(
            scope(tokens, doc),
            c,
            KindView::Prefix,
        ),
    ensures
        c.pos + 1 == tokens.len() - 1 ==> statement(tokens, doc, c) == Err::<
            (DocumentView, Cursor),
            ErrorView,
        >(ErrorView { message: "expected prefix name"@, offset: Some(tokens[c.pos].offset) }),
        c.pos + 2 == tokens.len() - 1 ==> statement(tokens, doc, c) == Err::<
            (DocumentView, Cursor),
            ErrorView,
        >(
            ErrorView {
                message: if tokens[c.pos + 1].kind is PName {
                    "expected prefix IRI"@
                } else {
                    "expected prefix name"@
                },
                offset: Some(tokens[c.pos + 1].offset),
            },
        ),
{
}

/// A declaration of a base at which the text ends is refused where it stands.
pub proof fn law_unfinished_base_declarations(
    tokens: Seq<TokenView>,
    doc: DocumentView,
    c: Cursor,
)
    requires
        complete(tokens),
        comes_next(scope(tokens, doc), c, KindView::AtBase) || comes_next(
            scope(tokens, doc),
            c,
            KindView::Base,
        ),
        c.pos + 1 == tokens.len() - 1,
    ensures
        statement(tokens, doc, c) == Err::<(DocumentView, Cursor), ErrorView>(
            ErrorView { message: "expected base IRI"@, offset: Some(tokens[c.pos].offset) },
        ),
{
}

/// `@base <i> .` and `BASE <i> .` make the IRI `i` the base as it is written, in place of the one
/// before, and nothing else. Without an IRI they are refused.
pub proof fn law_base_declarations(tokens: Seq<TokenView>, doc: DocumentView, c: Cursor)
    requires
        complete(tokens),
        comes_next(scope(tokens, doc), c, KindView::AtBase) || comes_next(
            scope(tokens, doc),
            c,
            KindView::Base,
        ),
        c.pos + 1 < tokens.len() - 1,
    ensures
        tokens[c.pos + 1].kind matches KindView::Iri(iri) ==> statement(tokens, doc, c) == with_dot(
            scope(tokens, doc),
            DocumentView {
                prefixes: doc.prefixes,
                base_iri: Some(iri),
                facts: doc.facts,
                rules: doc.rules,
            },
            ahead(c, 2),
        ),
        !(tokens[c.pos + 1].kind is Iri) ==> statement(tokens, doc, c) == Err::<
            (DocumentView, Cursor),
            ErrorView,
        >(ErrorView { message: "expected base IRI"@, offset: Some(tokens[c.pos + 1].offset) }),
{
    let s = scope(tokens, doc);
    if let KindView::Iri(iri) = tokens[c.pos + 1].kind {
        let told = DocumentView { base_iri: Some(iri), ..doc };
        assert(content(s, doc, c) == Ok::<(DocumentView, Cursor), ErrorView>((told, ahead(c, 2))));
        lemma_ended(s, content(s, doc, c));
    }
}

/// A dot where a statement could begin says nothing.
pub proof fn law_lone_dots(tokens: Seq<TokenView>, doc: DocumentView, c: Cursor)
    requires
        complete(tokens),
        comes_next(scope(tokens, doc), c, KindView::Dot),
    ensures
        statement(tokens, doc, c) == Ok::<(DocumentView, Cursor), ErrorView>((doc, ahead(c, 1))),
{
}

/// Any other statement adds its triples to the facts, behind those that are there, and nothing
/// else.
pub proof fn law_facts(tokens: Seq<TokenView>, doc: DocumentView, c: Cursor)
    requires
        complete(tokens),
        0 <= c.pos < tokens.len() - 1,
        ({
            let kind = tokens[c.pos].kind;
            &&& !(kind is AtPrefix || kind is Prefix || kind is AtBase || kind is Base)
            &&& !(kind is LBrace || kind is Dot || kind == KindView::Boolean(true))
            &&& !(kind is Eof)
        }),
    ensures
        ({
            let s = scope(tokens, doc);
            statement(tokens, doc, c) == (match statement_triples(s, c) {
                Ok((items, d)) => with_dot(
                    s,
                    DocumentView {
                        prefixes: doc.prefixes,
                        base_iri: doc.base_iri,
                        facts: doc.facts + items,
                        rules: doc.rules,
                    },
                    d,
                ),
                Err(e) => Err(e),
            })
        }),
{
    let s = scope(tokens, doc);
    crate::headway::lemma_statement_triples(s, c);
    lemma_ended(s, content(s, doc, c));
}

/// The statements of a document are read one behind the other, each from what those before it
/// leave, up to the end of the text; the first one that fails makes the document fail.
pub proof fn law_statements_in_turn(tokens: Seq<TokenView>, doc: DocumentView, c: Cursor)
    requires
        complete(tokens),
        0 <= c.pos < tokens.len(),
    ensures
        tokens[c.pos].kind is Eof ==> statements(tokens, doc, c) == Ok::<DocumentView, ErrorView>(
            doc,
        ),
        !(tokens[c.pos].kind is Eof) ==> statements(tokens, doc, c) == (match statement(
            tokens,
            doc,
            c,
        ) {
            Ok((next, d)) => statements(tokens, next, d),
            Err(e) => Err(e),
        }),
{
    if !(tokens[c.pos].kind is Eof) {
        lemma_statement(tokens, doc, c);
    }
}

/// A text is read from a document that has the given base and nothing else; no label is taken.
pub proof fn law_texts_begin_with_the_base(text: Seq<char>, base: Option<Seq<char>>)
    ensures
        n3(text, base) == (match lex_text(text) {
            Ok(tokens) => statements(
                tokens,
                DocumentView {
                    prefixes: Map::empty(),
                    base_iri: base,
                    facts: Seq::empty(),
                    rules: Seq::empty(),
                },
                Cursor { pos: 0, blanks: 0 },
            ),
            Err(e) => Err(e),
        }),
{
}

} // verus!
