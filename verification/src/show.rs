//! How tokens and terms are shown in messages.
use crate::ast::{triples, terms, Literal, LiteralView, Term, TermView, Triple, TripleView};
use crate::token::{KindView, TokenKind};
use vstd::prelude::*;

verus! {

/// The text that the `Debug` format of a string slice gives: the text in double quotes, with
/// escapes where it needs them.
pub uninterp spec fn quoted_text(s: Seq<char>) -> Seq<char>;

/// Calls `format!` with the `Debug` format of `str`, and claims that what comes out depends on
/// nothing but the text. Which characters are shown as escapes is left unsaid.
#[verifier::external_body]
fn quoted(s: &str) -> (r: String)
    ensures
        r@ == quoted_text(s@),
{
    format!("{:?}", s)
}

/// A name with one argument in parentheses.
pub open spec fn with_argument(name: Seq<char>, argument: Seq<char>) -> Seq<char> {
    name + "("@ + argument + ")"@
}

/// How a kind of token is shown.
pub open spec fn kind_text(kind: KindView) -> Seq<char> {
    match kind {
        KindView::AtPrefix => "AtPrefix"@,
        KindView::Prefix => "Prefix"@,
        KindView::AtBase => "AtBase"@,
        KindView::Base => "Base"@,
        KindView::LBrace => "LBrace"@,
        KindView::RBrace => "RBrace"@,
        KindView::LBracket => "LBracket"@,
        KindView::RBracket => "RBracket"@,
        KindView::LParen => "LParen"@,
        KindView::RParen => "RParen"@,
        KindView::Dot => "Dot"@,
        KindView::Comma => "Comma"@,
        KindView::Semicolon => "Semicolon"@,
        KindView::Arrow => "Arrow"@,
        KindView::BackArrow => "BackArrow"@,
        KindView::Equals => "Equals"@,
        KindView::HatHat => "HatHat"@,
        KindView::A => "A"@,
        KindView::Eof => "Eof"@,
        KindView::Iri(s) => with_argument("Iri"@, quoted_text(s)),
        KindView::PName(s) => with_argument("PName"@, quoted_text(s)),
        KindView::Var(s) => with_argument("Var"@, quoted_text(s)),
        KindView::Blank(s) => with_argument("Blank"@, quoted_text(s)),
        KindView::String(s) => with_argument("String"@, quoted_text(s)),
        KindView::Number(s) => with_argument("Number"@, quoted_text(s)),
        KindView::Lang(s) => with_argument("Lang"@, quoted_text(s)),
        KindView::Boolean(b) => with_argument("Boolean"@, if b { "true"@ } else { "false"@ }),
    }
}

/// How an optional string is shown.
pub open spec fn option_text(s: Option<Seq<char>>) -> Seq<char> {
    match s {
        Some(s) => with_argument("Some"@, quoted_text(s)),
        None => "None"@,
    }
}

/// How a literal is shown.
pub open spec fn literal_text(l: LiteralView) -> Seq<char> {
    "Literal { value: "@ + quoted_text(l.value) + ", datatype: "@ + option_text(l.datatype)
        + ", language: "@ + option_text(l.language) + " }"@
}

/// How a term is shown.
pub open spec fn term_text(t: TermView) -> Seq<char>
    decreases t,
{
    match t {
        TermView::Iri(s) => with_argument("Iri"@, quoted_text(s)),
        TermView::Var(s) => with_argument("Var"@, quoted_text(s)),
        TermView::Blank(s) => with_argument("Blank"@, quoted_text(s)),
        TermView::Literal(l) => with_argument("Literal"@, literal_text(l)),
        TermView::List(items) => with_argument("List"@, "["@ + terms_text(items) + "]"@),
        TermView::Formula(items) => with_argument("Formula"@, "["@ + triples_text(items) + "]"@),
    }
}

/// How the items of a list are shown.
pub open spec fn terms_text(items: Seq<TermView>) -> Seq<char>
    decreases items,
{
    if items.len() == 0 {
        Seq::empty()
    } else if items.len() == 1 {
        term_text(items[0])
    } else {
        terms_text(items.subrange(0, items.len() - 1)) + ", "@ + term_text(items[items.len() - 1])
    }
}

/// How a triple is shown.
pub open spec fn triple_text(t: TripleView) -> Seq<char>
    decreases t,
{
    "Triple { subject: "@ + term_text(t.subject) + ", predicate: "@ + term_text(t.predicate)
        + ", object: "@ + term_text(t.object) + " }"@
}

/// How the triples of a formula are shown.
pub open spec fn triples_text(items: Seq<TripleView>) -> Seq<char>
    decreases items,
{
    if items.len() == 0 {
        Seq::empty()
    } else if items.len() == 1 {
        triple_text(items[0])
    } else {
        triples_text(items.subrange(0, items.len() - 1)) + ", "@ + triple_text(
            items[items.len() - 1],
        )
    }
}

fn push_argument(out: &mut String, name: &str, argument: &str)
    ensures
        final(out)@ == old(out)@ + with_argument(name@, argument@),
{
    out.append(name);
    out.append("(");
    out.append(argument);
    out.append(")");
    assert(out@ =~= old(out)@ + with_argument(name@, argument@));
}

/// Appends how a kind of token is shown.
pub fn push_kind(out: &mut String, kind: &TokenKind)
    ensures
        final(out)@ == old(out)@ + kind_text(kind@),
{
    match kind {
        TokenKind::AtPrefix => out.append("AtPrefix"),
        TokenKind::Prefix => out.append("Prefix"),
        TokenKind::AtBase => out.append("AtBase"),
        TokenKind::Base => out.append("Base"),
        TokenKind::LBrace => out.append("LBrace"),
        TokenKind::RBrace => out.append("RBrace"),
        TokenKind::LBracket => out.append("LBracket"),
        TokenKind::RBracket => out.append("RBracket"),
        TokenKind::LParen => out.append("LParen"),
        TokenKind::RParen => out.append("RParen"),
        TokenKind::Dot => out.append("Dot"),
        TokenKind::Comma => out.append("Comma"),
        TokenKind::Semicolon => out.append("Semicolon"),
        TokenKind::Arrow => out.append("Arrow"),
        TokenKind::BackArrow => out.append("BackArrow"),
        TokenKind::Equals => out.append("Equals"),
        TokenKind::HatHat => out.append("HatHat"),
        TokenKind::A => out.append("A"),
        TokenKind::Eof => out.append("Eof"),
        TokenKind::Iri(s) => push_argument(out, "Iri", quoted(s.as_str()).as_str()),
        TokenKind::PName(s) => push_argument(out, "PName", quoted(s.as_str()).as_str()),
        TokenKind::Var(s) => push_argument(out, "Var", quoted(s.as_str()).as_str()),
        TokenKind::Blank(s) => push_argument(out, "Blank", quoted(s.as_str()).as_str()),
        TokenKind::String(s) => push_argument(out, "String", quoted(s.as_str()).as_str()),
        TokenKind::Number(s) => push_argument(out, "Number", quoted(s.as_str()).as_str()),
        TokenKind::Lang(s) => push_argument(out, "Lang", quoted(s.as_str()).as_str()),
        TokenKind::Boolean(b) => push_argument(
            out,
            "Boolean",
            if *b {
                "true"
            } else {
                "false"
            },
        ),
    }
}

fn push_option(out: &mut String, s: &Option<String>)
    ensures
        final(out)@ == old(out)@ + option_text(crate::ast::text_of(*s)),
{
    match s {
        Some(s) => push_argument(out, "Some", quoted(s.as_str()).as_str()),
        None => out.append("None"),
    }
}

fn push_literal(out: &mut String, l: &Literal)
    ensures
        final(out)@ == old(out)@ + literal_text(l@),
{
    out.append("Literal { value: ");
    out.append(quoted(l.value.as_str()).as_str());
    out.append(", datatype: ");
    push_option(out, &l.datatype);
    out.append(", language: ");
    push_option(out, &l.language);
    out.append(" }");
    assert(out@ =~= old(out)@ + literal_text(l@));
}

/// Appends how a term is shown.
pub fn push_term(out: &mut String, t: &Term)
    ensures
        final(out)@ == old(out)@ + term_text(t@),
    decreases t, 0usize,
{
    match t {
        Term::Iri(s) => push_argument(out, "Iri", quoted(s.as_str()).as_str()),
        Term::Var(s) => push_argument(out, "Var", quoted(s.as_str()).as_str()),
        Term::Blank(s) => push_argument(out, "Blank", quoted(s.as_str()).as_str()),
        Term::Literal(l) => {
            out.append("Literal");
            out.append("(");
            push_literal(out, l);
            out.append(")");
        },
        Term::List(items) => {
            out.append("List");
            out.append("(");
            out.append("[");
            push_terms(out, items, items.len());
            out.append("]");
            out.append(")");
            assert(items@.subrange(0, items@.len() as int) =~= items@);
        },
        Term::Formula(items) => {
            out.append("Formula");
            out.append("(");
            out.append("[");
            push_triples(out, items, items.len());
            out.append("]");
            out.append(")");
            assert(items@.subrange(0, items@.len() as int) =~= items@);
        },
    }
    assert(out@ =~= old(out)@ + term_text(t@));
}

/// Appends how the first `n` items of a list are shown.
fn push_terms(out: &mut String, items: &Vec<Term>, n: usize)
    requires
        n <= items@.len(),
    ensures
        final(out)@ == old(out)@ + terms_text(terms(items@.subrange(0, n as int))),
    decreases items, n,
{
    broadcast use crate::ast::lemma_terms;
    let ghost shown = terms(items@.subrange(0, n as int));
    if n > 0 {
        if n > 1 {
            push_terms(out, items, n - 1);
            out.append(", ");
            assert(terms(items@.subrange(0, n - 1)) =~= shown.subrange(0, n - 1));
        }
        push_term(out, &items[n - 1]);
    }
    assert(out@ =~= old(out)@ + terms_text(shown));
}

fn push_triple(out: &mut String, t: &Triple)
    ensures
        final(out)@ == old(out)@ + triple_text(t@),
    decreases t, 0usize,
{
    out.append("Triple { subject: ");
    push_term(out, &t.subject);
    out.append(", predicate: ");
    push_term(out, &t.predicate);
    out.append(", object: ");
    push_term(out, &t.object);
    out.append(" }");
    assert(out@ =~= old(out)@ + triple_text(t@));
}

/// Appends how the first `n` triples of a formula are shown.
fn push_triples(out: &mut String, items: &Vec<Triple>, n: usize)
    requires
        n <= items@.len(),
    ensures
        final(out)@ == old(out)@ + triples_text(triples(items@.subrange(0, n as int))),
    decreases items, n,
{
    broadcast use crate::ast::lemma_triples;
    let ghost shown = triples(items@.subrange(0, n as int));
    if n > 0 {
        if n > 1 {
            push_triples(out, items, n - 1);
            out.append(", ");
            assert(triples(items@.subrange(0, n - 1)) =~= shown.subrange(0, n - 1));
        }
        push_triple(out, &items[n - 1]);
    }
    assert(out@ =~= old(out)@ + triples_text(shown));
}

} // verus!
