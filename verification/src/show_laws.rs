//! How tokens and terms appear in messages.
use crate::ast::{LiteralView, TermView, TripleView};
use crate::show::{
    kind_text, option_text, quoted_text, term_text, terms_text, triple_text, triples_text,
};
use crate::token::KindView;
use vstd::prelude::*;

verus! {

/// A token that holds a text is shown as the name of its sort with the quoted text in parentheses.
pub proof fn law_shown_tokens_with_text(text: Seq<char>)
    ensures
        kind_text(KindView::Iri(text)) == "Iri"@ + "("@ + quoted_text(text) + ")"@,
        kind_text(KindView::PName(text)) == "PName"@ + "("@ + quoted_text(text) + ")"@,
        kind_text(KindView::Var(text)) == "Var"@ + "("@ + quoted_text(text) + ")"@,
        kind_text(KindView::Blank(text)) == "Blank"@ + "("@ + quoted_text(text) + ")"@,
        kind_text(KindView::String(text)) == "String"@ + "("@ + quoted_text(text) + ")"@,
        kind_text(KindView::Number(text)) == "Number"@ + "("@ + quoted_text(text) + ")"@,
        kind_text(KindView::Lang(text)) == "Lang"@ + "("@ + quoted_text(text) + ")"@,
        kind_text(KindView::Boolean(true)) == "Boolean"@ + "("@ + "true"@ + ")"@,
        kind_text(KindView::Boolean(false)) == "Boolean"@ + "("@ + "false"@ + ")"@,
{
}

/// Any other token is shown as the name of its sort.
pub proof fn law_shown_marks()
    ensures
        kind_text(KindView::AtPrefix) == "AtPrefix"@,
        kind_text(KindView::Prefix) == "Prefix"@,
        kind_text(KindView::AtBase) == "AtBase"@,
        kind_text(KindView::Base) == "Base"@,
        kind_text(KindView::LBrace) == "LBrace"@,
        kind_text(KindView::RBrace) == "RBrace"@,
        kind_text(KindView::LBracket) == "LBracket"@,
        kind_text(KindView::RBracket) == "RBracket"@,
        kind_text(KindView::LParen) == "LParen"@,
        kind_text(KindView::RParen) == "RParen"@,
        kind_text(KindView::Dot) == "Dot"@,
        kind_text(KindView::Comma) == "Comma"@,
        kind_text(KindView::Semicolon) == "Semicolon"@,
        kind_text(KindView::Arrow) == "Arrow"@,
        kind_text(KindView::BackArrow) == "BackArrow"@,
        kind_text(KindView::Equals) == "Equals"@,
        kind_text(KindView::HatHat) == "HatHat"@,
        kind_text(KindView::A) == "A"@,
        kind_text(KindView::Eof) == "Eof"@,
{
}

/// A term that holds a text is shown like a token that holds one; a literal is shown with its three
/// parts.
pub proof fn law_shown_terms(text: Seq<char>, l: LiteralView)
    ensures
        term_text(TermView::Iri(text)) == "Iri"@ + "("@ + quoted_text(text) + ")"@,
        term_text(TermView::Var(text)) == "Var"@ + "("@ + quoted_text(text) + ")"@,
        term_text(TermView::Blank(text)) == "Blank"@ + "("@ + quoted_text(text) + ")"@,
        option_text(Some(text)) == "Some"@ + "("@ + quoted_text(text) + ")"@,
        option_text(None) == "None"@,
        term_text(TermView::Literal(l)) == "Literal"@ + "("@ + ("Literal { value: "@ + quoted_text(
            l.value,
        ) + ", datatype: "@ + option_text(l.datatype) + ", language: "@ + option_text(l.language)
            + " }"@) + ")"@,
{
}

/// Lists and formulas are shown with all that they hold, in brackets, with commas between.
pub proof fn law_shown_lists(
    items: Seq<TermView>,
    last: TermView,
    said: Seq<TripleView>,
    t: TripleView,
)
    ensures
        term_text(TermView::List(items)) == "List"@ + "("@ + ("["@ + terms_text(items) + "]"@)
            + ")"@,
        term_text(TermView::Formula(said)) == "Formula"@ + "("@ + ("["@ + triples_text(said)
            + "]"@) + ")"@,
        terms_text(Seq::empty()) == Seq::<char>::empty(),
        terms_text(seq![last]) == term_text(last),
        items.len() > 0 ==> terms_text(items.push(last)) == terms_text(items) + ", "@ + term_text(
            last,
        ),
        triples_text(Seq::empty()) == Seq::<char>::empty(),
        triples_text(seq![t]) == triple_text(t),
        said.len() > 0 ==> triples_text(said.push(t)) == triples_text(said) + ", "@ + triple_text(
            t,
        ),
        triple_text(t) == "Triple { subject: "@ + term_text(t.subject) + ", predicate: "@
            + term_text(t.predicate) + ", object: "@ + term_text(t.object) + " }"@,
{
    assert(items.push(last).subrange(0, items.len() as int) =~= items);
    assert(said.push(t).subrange(0, said.len() as int) =~= said);
}

} // verus!
