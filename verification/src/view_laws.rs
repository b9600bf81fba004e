//! The values of terms, triples, rules, documents, tokens and errors hold all that these hold.
use crate::ast::{
    lemma_terms, lemma_triples, str_of, text_of, Document, Literal, Rule, Term, TermView, Triple,
    TripleView,
};
use crate::error::EyeronError;
use crate::token::{tokens, KindView, Token, TokenKind};
use vstd::prelude::*;

verus! {

/// The value of a literal has its text, its datatype and its language.
pub proof fn law_literal_values(l: Literal)
    ensures
        l@.value == l.value@,
        l.datatype is None <==> l@.datatype is None,
        l.language is None <==> l@.language is None,
        l.datatype is Some ==> l@.datatype == Some(l.datatype->0@),
        l.language is Some ==> l@.language == Some(l.language->0@),
{
}

/// The value of a term is of the same sort and has the same text, or the values of what the term
/// holds in the same order.
pub proof fn law_term_values(t: Term)
    ensures
        match t {
            Term::Iri(s) => t@ == TermView::Iri(s@),
            Term::Var(s) => t@ == TermView::Var(s@),
            Term::Blank(s) => t@ == TermView::Blank(s@),
            Term::Literal(l) => t@ == TermView::Literal(l@),
            Term::List(items) => t@ matches TermView::List(values) && values.len() == items@.len()
                && forall|i: int|
                0 <= i < items@.len() ==> #[trigger] values[i] == items@[i]@,
            Term::Formula(items) => t@ matches TermView::Formula(values) && values.len()
                == items@.len() && forall|i: int|
                0 <= i < items@.len() ==> #[trigger] values[i] == items@[i]@,
        },
{
    match t {
        Term::List(items) => {
            lemma_terms(items@);
        },
        Term::Formula(items) => {
            lemma_triples(items@);
        },
        _ => {},
    }
}

/// The value of a triple has the values of its parts in their places.
pub proof fn law_triple_values(t: Triple)
    ensures
        t@ == (TripleView {
            subject: t.subject@,
            predicate: t.predicate@,
            object: t.object@,
        }),
{
}

/// The value of a rule has the values of its triples in their order, on the same sides, and the
/// same direction.
pub proof fn law_rule_values(r: Rule)
    ensures
        r@.is_forward == r.is_forward,
        r@.premise.len() == r.premise@.len(),
        r@.conclusion.len() == r.conclusion@.len(),
        forall|i: int| 0 <= i < r.premise@.len() ==> #[trigger] r@.premise[i] == r.premise@[i]@,
        forall|i: int|
            0 <= i < r.conclusion@.len() ==> #[trigger] r@.conclusion[i] == r.conclusion@[i]@,
{
    lemma_triples(r.premise@);
    lemma_triples(r.conclusion@);
}

/// The value of a document has the values of its facts and rules in their order, its prefixes and
/// its base.
pub proof fn law_document_values(d: Document)
    ensures
        d@.prefixes == d.prefixes@,
        d.base_iri is None <==> d@.base_iri is None,
        d.base_iri is Some ==> d@.base_iri == Some(d.base_iri->0@),
        d@.facts.len() == d.facts@.len(),
        d@.rules.len() == d.rules@.len(),
        forall|i: int| 0 <= i < d.facts@.len() ==> #[trigger] d@.facts[i] == d.facts@[i]@,
        forall|i: int| 0 <= i < d.rules@.len() ==> #[trigger] d@.rules[i] == d.rules@[i]@,
{
    lemma_triples(d.facts@);
}

/// An optional text has a value exactly if it is there.
pub proof fn law_optional_values(owned: Option<String>, borrowed: Option<&str>)
    ensures
        owned is None ==> text_of(owned) is None,
        owned is Some ==> text_of(owned) == Some(owned->0@),
        borrowed is None ==> str_of(borrowed) is None,
        borrowed is Some ==> str_of(borrowed) == Some(borrowed->0@),
{
}

/// The value of a token has its kind, with what it holds, and its position.
pub proof fn law_token_values(t: Token, items: Seq<Token>)
    ensures
        t@.offset == t.offset,
        t@.kind == t.kind@,
        match t.kind {
            TokenKind::Iri(s) => t@.kind == KindView::Iri(s@),
            TokenKind::PName(s) => t@.kind == KindView::PName(s@),
            TokenKind::Var(s) => t@.kind == KindView::Var(s@),
            TokenKind::Blank(s) => t@.kind == KindView::Blank(s@),
            TokenKind::String(s) => t@.kind == KindView::String(s@),
            TokenKind::Number(s) => t@.kind == KindView::Number(s@),
            TokenKind::Lang(s) => t@.kind == KindView::Lang(s@),
            TokenKind::Boolean(b) => t@.kind == KindView::Boolean(b),
            TokenKind::AtPrefix => t@.kind is AtPrefix,
            TokenKind::Prefix => t@.kind is Prefix,
            TokenKind::AtBase => t@.kind is AtBase,
            TokenKind::Base => t@.kind is Base,
            TokenKind::LBrace => t@.kind is LBrace,
            TokenKind::RBrace => t@.kind is RBrace,
            TokenKind::LBracket => t@.kind is LBracket,
            TokenKind::RBracket => t@.kind is RBracket,
            TokenKind::LParen => t@.kind is LParen,
            TokenKind::RParen => t@.kind is RParen,
            TokenKind::Dot => t@.kind is Dot,
            TokenKind::Comma => t@.kind is Comma,
            TokenKind::Semicolon => t@.kind is Semicolon,
            TokenKind::Arrow => t@.kind is Arrow,
            TokenKind::BackArrow => t@.kind is BackArrow,
            TokenKind::Equals => t@.kind is Equals,
            TokenKind::HatHat => t@.kind is HatHat,
            TokenKind::A => t@.kind is A,
            TokenKind::Eof => t@.kind is Eof,
        },
        tokens(items).len() == items.len(),
        forall|i: int| 0 <= i < items.len() ==> #[trigger] tokens(items)[i] == items[i]@,
{
}

/// The value of an error has its message, and its position if it has one.
pub proof fn law_error_values(e: EyeronError)
    ensures
        e@.message == e.message@,
        e.offset is None <==> e@.offset is None,
        e.offset is Some ==> e@.offset == Some(e.offset->0 as int),
{
}

} // verus!
