//! What holds of reading Notation3.
use crate::ast::{
    triple, DocumentView, RuleView, TermView, TripleView, LOG_IMPLIED_BY, LOG_IMPLIES, LOG_QUERY,
};
use crate::error::ErrorView;
use crate::grammar::{
    directory, document, ended, expand, formula, formula_content, formula_or_true,
    forward_conclusion, fresh_label, implied, is_absolute, n3, no_headway, property_list, resolve,
    scope, statement, statement_triples, statements, term, unquoted, verb, Cursor, Scope,
};
use crate::headway::{
    at_token, lemma_conclusion, lemma_formula, lemma_property_list, lemma_statements, lemma_term,
    placed, reported,
};
use crate::lexer::{
    char_at, closes_at, digit_at, digits, escape_at, is_name_char, label_chars, lemma_lex_ends,
    lex_from, lex_text, name_end, number_end, quote_width, skip_blank, string_body, tag_chars,
    token_at, var_chars,
};
use crate::locality::local_formula;
use crate::moving::{carried, move_conclusions, move_expect, moved, moved_cursor, moved_token};
use crate::text::{
    contains_text, decimal, is_space, lemma_decimal_injective, lemma_scan_bounds, occurs_at,
    other_than, scan,
};
use crate::token::{KindView, TokenView};
use vstd::prelude::*;

verus! {

/// The labels that are made for different numbers differ.
pub proof fn law_fresh_labels_differ(m: nat, n: nat)
    requires
        fresh_label(m) == fresh_label(n),
    ensures
        m == n,
{
    let b = "b"@;
    assert((b + decimal(m)).skip(b.len() as int) =~= decimal(m));
    assert((b + decimal(n)).skip(b.len() as int) =~= decimal(n));
    lemma_decimal_injective(m, n);
}

/// A blank node in brackets gets a label that no blank node in brackets gets that is read from a
/// later place on: neither one inside its own brackets nor one behind them.
pub proof fn law_bracketed_nodes_differ(s: Scope, c: Cursor, d: Cursor)
    requires
        placed(s, c),
        property_list(s, c) is Ok,
        property_list(s, d) is Ok,
        c.blanks < d.blanks,
    ensures
        property_list(s, c)->Ok_0.0.term != property_list(s, d)->Ok_0.0.term,
        c.blanks < property_list(s, c)->Ok_0.1.blanks,
{
    lemma_property_list(s, c);
    if fresh_label(c.blanks + 1) == fresh_label(d.blanks + 1) {
        law_fresh_labels_differ(c.blanks + 1, d.blanks + 1);
    }
}

/// A name under a declared prefix stands for the IRI of the prefix with the rest of the name
/// behind it.
pub proof fn law_declared_prefix_expands(
    prefixes: Map<Seq<char>, Seq<char>>,
    prefix: Seq<char>,
    iri: Seq<char>,
    local: Seq<char>,
    offset: int,
)
    requires
        !prefix.contains(':'),
    ensures
        expand(prefixes.insert(prefix, iri), prefix.push(':') + local, offset) == Ok::<
            Seq<char>,
            ErrorView,
        >(iri + local),
{
    let name = prefix.push(':') + local;
    lemma_scan_bounds(name, 0, other_than(':'));
    let colon = scan(name, 0, other_than(':'));
    assert(name[prefix.len() as int] == ':');
    assert(forall|i: int| 0 <= i < prefix.len() ==> #[trigger] name[i] == prefix[i]);
    if colon < prefix.len() {
        assert(prefix[colon] == ':');
    }
    assert(colon == prefix.len());
    assert(name.subrange(0, colon) =~= prefix);
    assert(name.subrange(colon + 1, name.len() as int) =~= local);
}

/// An IRI that is absolute, or that stands where no base holds, stays as it is.
pub proof fn law_absolute_iri_stays(base: Option<Seq<char>>, iri: Seq<char>)
    requires
        base is None || is_absolute(iri),
    ensures
        resolve(base, iri) == iri,
{
}

/// A resolved IRI ends with the IRI as it is written.
pub proof fn law_resolved_iri_ends_as_written(base: Option<Seq<char>>, iri: Seq<char>)
    ensures
        iri.is_suffix_of(resolve(base, iri)),
{
    if let Some(base) = base {
        let front = directory(base);
        assert((base + iri).subrange(base.len() as int, (base + iri).len() as int) =~= iri);
        assert((front + iri).subrange(front.len() as int, (front + iri).len() as int) =~= iri);
    }
    assert(iri.subrange(0, iri.len() as int) =~= iri);
}

/// Resolving an IRI once more changes nothing where there is no base or an absolute one. Under an
/// absolute base every IRI becomes absolute.
pub proof fn law_resolving_twice(base: Option<Seq<char>>, iri: Seq<char>)
    requires
        base matches Some(base) ==> is_absolute(base),
    ensures
        resolve(base, resolve(base, iri)) == resolve(base, iri),
        base is Some ==> is_absolute(resolve(base, iri)),
{
    if let Some(base) = base {
        lemma_absolute(base, iri);
    }
}

proof fn lemma_absolute(base: Seq<char>, iri: Seq<char>)
    requires
        is_absolute(base),
    ensures
        is_absolute(resolve(Some(base), iri)),
{
    let front = directory(base);
    base.index_of_last_ensures('/');
    lemma_extended(base, iri);
    assert(is_absolute(front)) by {
        reveal_strlit("://");
        reveal_strlit("urn:");
        reveal_strlit("mailto:");
        if contains_text(base, "://"@) {
            let i = choose|i: int| #[trigger] occurs_at(base, "://"@, i);
            assert(base.subrange(i, i + 3)[2] == base[i + 2]);
            assert(base.contains('/'));
            assert(front.subrange(i, i + 3) =~= base.subrange(i, i + 3));
            assert(occurs_at(front, "://"@, i));
        } else {
            assert(forall|k: int|
                0 <= k < 4 && "urn:"@.is_prefix_of(base) ==> #[trigger] base[k] == "urn:"@[k]);
            assert(forall|k: int|
                0 <= k < 7 && "mailto:"@.is_prefix_of(base) ==> #[trigger] base[k]
                    == "mailto:"@[k]);
            if "urn:"@.is_prefix_of(base) {
                assert(front.subrange(0, 4) =~= base.subrange(0, 4));
            } else {
                assert(front.subrange(0, 7) =~= base.subrange(0, 7));
            }
        }
    }
    lemma_extended(front, iri);
}

/// What begins with an absolute IRI is absolute.
proof fn lemma_extended(front: Seq<char>, iri: Seq<char>)
    requires
        is_absolute(front),
    ensures
        is_absolute(front + iri),
{
    if contains_text(front, "://"@) {
        let i = choose|i: int| #[trigger] occurs_at(front, "://"@, i);
        let n = "://"@.len();
        assert((front + iri).subrange(i, i + n) =~= front.subrange(i, i + n));
        assert(occurs_at(front + iri, "://"@, i));
    } else {
        let n = if "urn:"@.is_prefix_of(front) {
            "urn:"@.len()
        } else {
            "mailto:"@.len()
        };
        assert((front + iri).subrange(0, n as int) =~= front.subrange(0, n as int));
    }
}

/// A document with what it says put behind facts and rules that came before.
pub open spec fn after(before: DocumentView, doc: DocumentView) -> DocumentView {
    DocumentView { facts: before.facts + doc.facts, rules: before.rules + doc.rules, ..doc }
}

/// The declarations of a document, without facts and rules.
pub open spec fn bare(doc: DocumentView) -> DocumentView {
    DocumentView { facts: Seq::empty(), rules: Seq::empty(), ..doc }
}

/// A statement adds the same facts and rules to every document with the same declarations, behind
/// those that are there; it is read or refused without regard to them.
pub proof fn law_statement_adds(tokens: Seq<TokenView>, doc: DocumentView, c: Cursor)
    ensures
        statement(tokens, doc, c) == (match statement(tokens, bare(doc), c) {
            Ok((said, d)) => Ok::<(DocumentView, Cursor), ErrorView>((after(doc, said), d)),
            Err(e) => Err(e),
        }),
{
    let s = scope(tokens, doc);
    assert(s == scope(tokens, bare(doc)));
    assert forall|facts: Seq<TripleView>| #[trigger]
        (Seq::<TripleView>::empty() + facts) == facts by {
        assert(Seq::<TripleView>::empty() + facts =~= facts);
    }
    assert forall|rule: RuleView| #[trigger]
        doc.rules.push(rule) == doc.rules + Seq::<RuleView>::empty().push(rule) by {
        assert(doc.rules.push(rule) =~= doc.rules + Seq::<RuleView>::empty().push(rule));
    }
    assert(doc.facts + Seq::<TripleView>::empty() =~= doc.facts);
    assert(doc.rules + Seq::<RuleView>::empty() =~= doc.rules);
}

/// What documents say one behind the other does not depend on which two are taken together first.
proof fn lemma_after(a: DocumentView, b: DocumentView, c: DocumentView)
    ensures
        after(after(a, b), c) == after(a, after(b, c)),
        bare(after(a, b)) == bare(b),
        after(a, bare(a)) == a,
{
    assert(after(after(a, b), c) =~= after(a, after(b, c)));
    assert(after(a, bare(a)) =~= a);
}

/// What was said before stays, in front of what the statements that follow say; they are read or
/// refused without regard to it.
pub proof fn law_statements_add(tokens: Seq<TokenView>, doc: DocumentView, c: Cursor)
    ensures
        statements(tokens, doc, c) == (match statements(tokens, bare(doc), c) {
            Ok(said) => Ok::<DocumentView, ErrorView>(after(doc, said)),
            Err(e) => Err(e),
        }),
    decreases tokens.len() - c.pos,
{
    lemma_after(doc, doc, doc);
    if !(tokens[c.pos].kind is Eof) {
        law_statement_adds(tokens, doc, c);
        let first = statement(tokens, bare(doc), c);
        if let Ok((said, d)) = first {
            if c.pos < d.pos < tokens.len() {
                law_statements_add(tokens, after(doc, said), d);
                law_statements_add(tokens, said, d);
                lemma_after(doc, said, said);
                if let Ok(rest) = statements(tokens, bare(said), d) {
                    lemma_after(doc, said, rest);
                }
            }
        }
    }
}

/// Statements take back neither a declaration of a prefix nor that there is a base.
pub proof fn law_declarations_stay(tokens: Seq<TokenView>, doc: DocumentView, c: Cursor)
    requires
        statements(tokens, doc, c) is Ok,
    ensures
        doc.prefixes.dom().subset_of(statements(tokens, doc, c)->Ok_0.prefixes.dom()),
        doc.base_iri is Some ==> statements(tokens, doc, c)->Ok_0.base_iri is Some,
    decreases tokens.len() - c.pos,
{
    if !(tokens[c.pos].kind is Eof) {
        if let Ok((said, d)) = statement(tokens, doc, c) {
            assert(doc.prefixes.dom().subset_of(said.prefixes.dom()));
            law_declarations_stay(tokens, said, d);
        }
    }
}

/// `{ A } => { B } .` is a forward rule from `A` to `B`, and `{ A } <= { B } .` is a backward rule
/// from `B` to `A`.
pub proof fn law_direction_of_rules(s: Scope, doc: DocumentView, c: Cursor)
    requires
        formula(s, c) is Ok,
        formula(s, s.step(formula(s, c)->Ok_0.1)) is Ok,
        s.peek(formula(s, s.step(formula(s, c)->Ok_0.1))->Ok_0.1) is Dot,
    ensures
        ({
            let (left, d) = formula(s, c)->Ok_0;
            let (right, e) = formula(s, s.step(d))->Ok_0;
            let forward = RuleView { premise: left, conclusion: right, is_forward: true };
            let backward = RuleView { premise: right, conclusion: left, is_forward: false };
            &&& s.peek(d) is Arrow ==> ended(s, formula_content(s, doc, c)) == Ok::<
                (DocumentView, Cursor),
                ErrorView,
            >((DocumentView { rules: doc.rules.push(forward), ..doc }, s.step(e)))
            &&& s.peek(d) is BackArrow ==> ended(s, formula_content(s, doc, c)) == Ok::<
                (DocumentView, Cursor),
                ErrorView,
            >((DocumentView { rules: doc.rules.push(backward), ..doc }, s.step(e)))
        }),
{
}

proof fn lemma_query_verb(s: Scope, c: Cursor)
    requires
        0 <= c.pos < s.last(),
        s.peek(c) == KindView::Iri(LOG_QUERY@),
    ensures
        verb(s, c) == Ok::<(TermView, Cursor), ErrorView>((TermView::Iri(LOG_QUERY@), s.step(c))),
{
    assert(is_absolute(LOG_QUERY@)) by {
        reveal_strlit("http://www.w3.org/2000/10/swap/log#query");
        reveal_strlit("://");
        assert(LOG_QUERY@.subrange(4, 7) =~= "://"@);
        assert(occurs_at(LOG_QUERY@, "://"@, 4));
    }
}

/// `log:query` before a formula or `true` reads as `=>` does: where one token is written for the
/// other, and what follows stands `k` characters further on, the same rule comes out, or the same
/// error as much further on.
pub proof fn law_query_reads_as_implication(
    s: Scope,
    t: Scope,
    k: int,
    doc: DocumentView,
    c: Cursor,
)
    requires
        placed(s, c),
        formula(s, c) is Ok,
        ({
            let d = formula(s, c)->Ok_0.1;
            &&& s.peek(d) is Arrow
            &&& s.peek(s.step(d)) is LBrace || s.peek(s.step(d)) == KindView::Boolean(true)
            &&& t.tokens.len() == s.tokens.len()
            &&& t.prefixes == s.prefixes
            &&& t.base == s.base
            &&& t.peek(d) == KindView::Iri(LOG_QUERY@)
            &&& forall|i: int| 0 <= i < d.pos ==> #[trigger] s.tokens[i] == t.tokens[i]
            &&& forall|i: int|
                d.pos < i < s.tokens.len() ==> moved_token(#[trigger] s.tokens[i], k)
                    == t.tokens[i]
        }),
    ensures
        formula_content(t, doc, c) == moved(formula_content(s, doc, c), 0, k),
        ended(t, formula_content(t, doc, c)) == moved(
            ended(s, formula_content(s, doc, c)),
            0,
            k,
        ),
{
    let (left, d) = formula(s, c)->Ok_0;
    let e = s.step(d);
    lemma_formula(s, c);
    assert(e.pos < s.last());
    assert(s.tokens.last() == s.tokens[s.last()]);
    assert(t.tokens.last() == moved_token(s.tokens[s.last()], k));
    local_formula(s, t, d.pos, c);
    assert(carried(s, t, e.pos, 0, k));
    move_conclusions(s, t, e.pos, 0, k, e);
    lemma_conclusion(s, e);
    assert(moved_cursor(e, 0) == e);
    lemma_query_verb(t, d);
    assert(forward_conclusion(s, e) == formula_or_true(s, e));
    if let Ok((conclusion, f)) = forward_conclusion(s, e) {
        move_expect(s, t, e.pos, 0, k, f, KindView::Dot);
    }
}

/// On either side of a rule `true` is the empty formula.
pub proof fn law_true_is_the_empty_formula(s: Scope, c: Cursor)
    requires
        placed(s, c),
    ensures
        s.peek(c) == KindView::Boolean(true) ==> {
            &&& formula_or_true(s, c) == Ok::<(Seq<TripleView>, Cursor), ErrorView>(
                (Seq::empty(), s.step(c)),
            )
            &&& forward_conclusion(s, c) == formula_or_true(s, c)
        },
        s.peek(c) is LBrace && s.peek(s.step(c)) is RBrace ==> {
            &&& formula_or_true(s, c) == Ok::<(Seq<TripleView>, Cursor), ErrorView>(
                (Seq::empty(), s.step(s.step(c))),
            )
            &&& forward_conclusion(s, c) == formula_or_true(s, c)
        },
{
}

/// The conclusion of a forward rule may be a term that resolves to a formula: the rule then says
/// that the contents of the formula are meant.
pub proof fn law_conclusion_is_unquoted(s: Scope, c: Cursor)
    requires
        s.peek(c) != KindView::Boolean(true),
        !(s.peek(c) is LBrace),
        term(s, c) is Ok,
        term(s, c)->Ok_0.0.triples.len() == 0,
    ensures
        forward_conclusion(s, c) == Ok::<(Seq<TripleView>, Cursor), ErrorView>(
            (unquoted(term(s, c)->Ok_0.0.term), term(s, c)->Ok_0.1),
        ),
{
}

/// An implication inside a formula is one triple from its left side to its right side as they are
/// written, behind the triples that stand inside them; the predicate tells `=>` from `<=`.
pub proof fn law_implication_is_a_triple(s: Scope, c: Cursor)
    requires
        placed(s, c),
        term(s, c) is Ok,
        term(s, s.step(term(s, c)->Ok_0.1)) is Ok,
    ensures
        ({
            let (left, d) = term(s, c)->Ok_0;
            let (right, e) = term(s, s.step(d))->Ok_0;
            let inside = left.triples + right.triples;
            &&& s.peek(d) is Arrow ==> statement_triples(s, c) == Ok::<
                (Seq<TripleView>, Cursor),
                ErrorView,
            >(
                (
                    inside.push(
                        triple(left.term, TermView::Iri(LOG_IMPLIES@), implied(right.term)),
                    ),
                    e,
                ),
            )
            &&& s.peek(d) is BackArrow ==> statement_triples(s, c) == Ok::<
                (Seq<TripleView>, Cursor),
                ErrorView,
            >(
                (
                    inside.push(
                        triple(left.term, TermView::Iri(LOG_IMPLIED_BY@), implied(right.term)),
                    ),
                    e,
                ),
            )
        }),
{
    lemma_term(s, c);
    let (left, d) = term(s, c)->Ok_0;
    let (right, e) = term(s, s.step(d))->Ok_0;
    let inside = left.triples + right.triples;
    let forward = triple(left.term, TermView::Iri(LOG_IMPLIES@), implied(right.term));
    let backward = triple(left.term, TermView::Iri(LOG_IMPLIED_BY@), implied(right.term));
    assert(inside + seq![forward] =~= inside.push(forward));
    assert(inside + seq![backward] =~= inside.push(backward));
}

/// An error whose position, where it has one, lies in a text of the given length or at its end.
pub open spec fn within(length: nat, e: ErrorView) -> bool {
    match e.offset {
        Some(offset) => 0 <= offset <= length,
        None => true,
    }
}

/// White space and comments end in the text or at its end.
pub proof fn lemma_skip_blank(s: Seq<char>, i: int)
    requires
        0 <= i <= s.len(),
    ensures
        i <= skip_blank(s, i) <= s.len(),
    decreases s.len() - i,
{
    if i < s.len() && is_space(s[i]) {
        lemma_skip_blank(s, i + 1);
    } else if i < s.len() && s[i] == '#' {
        lemma_scan_bounds(s, i + 1, other_than('\n'));
        lemma_skip_blank(s, scan(s, i + 1, other_than('\n')));
    }
}

proof fn lemma_name_end(s: Seq<char>, i: int)
    requires
        0 <= i <= s.len(),
    ensures
        i <= name_end(s, i) <= s.len(),
    decreases s.len() - i,
{
    if i < s.len() && (is_name_char(s[i]) || s[i] == '.') {
        lemma_name_end(s, i + 1);
    }
}

/// A number takes at least one character of the text.
pub proof fn lemma_number_end(s: Seq<char>, i: int)
    requires
        digit_at(s, i),
    ensures
        i < number_end(s, i) <= s.len(),
{
    let whole = scan(s, i, digits());
    lemma_scan_bounds(s, i, digits());
    lemma_scan_bounds(s, i + 1, digits());
    let fraction = if char_at(s, whole, '.') && digit_at(s, whole + 1) {
        lemma_scan_bounds(s, whole + 1, digits());
        scan(s, whole + 1, digits())
    } else {
        whole
    };
    if digit_at(s, fraction + 1) {
        lemma_scan_bounds(s, fraction + 1, digits());
    }
    if digit_at(s, fraction + 2) {
        lemma_scan_bounds(s, fraction + 2, digits());
    }
}

/// A string ends behind its closing quotes; an error in it has a position in the text.
pub proof fn lemma_string_body(s: Seq<char>, start: int, i: int, quote: char, width: int)
    requires
        0 <= start < i,
        start < s.len(),
        width == 1 || width == 3,
    ensures
        match string_body(s, start, i, quote, width) {
            Ok((_, end)) => i + width <= end <= s.len(),
            Err(e) => e.offset is Some && within(s.len(), e),
        },
    decreases s.len() - i,
{
    if i < s.len() && !closes_at(s, i, quote, width) {
        if s[i] == '\\' {
            if let Some((c, next)) = escape_at(s, i) {
                lemma_string_body(s, start, next, quote, width);
            }
        } else {
            lemma_string_body(s, start, i + 1, quote, width);
        }
    }
}

/// A token takes at least one character of the text.
pub proof fn lemma_token_at(s: Seq<char>, i: int)
    requires
        0 <= i < s.len(),
    ensures
        match token_at(s, i) {
            Ok((_, next)) => i < next <= s.len(),
            Err(e) => e.offset is Some && within(s.len(), e),
        },
{
    let c = s[i];
    lemma_scan_bounds(s, i + 1, other_than('>'));
    lemma_scan_bounds(s, i + 1, tag_chars());
    lemma_scan_bounds(s, i + 1, var_chars());
    if i + 2 <= s.len() {
        lemma_scan_bounds(s, i + 2, label_chars());
    }
    lemma_name_end(s, i);
    if i + 1 <= s.len() {
        lemma_name_end(s, i + 1);
    }
    if digit_at(s, i) {
        lemma_number_end(s, i);
    }
    if digit_at(s, i + 1) {
        lemma_number_end(s, i + 1);
    }
    lemma_string_body(s, i, i + quote_width(s, i), c, quote_width(s, i));
}

/// Tokens stand in the order of their positions, from index `i` on and no further than the end of
/// the text.
pub open spec fn in_order(ts: Seq<TokenView>, i: int, length: nat) -> bool {
    &&& forall|k: int| 0 <= k < ts.len() ==> i <= (#[trigger] ts[k]).offset <= length
    &&& forall|j: int, k: int|
        0 <= j < k < ts.len() ==> (#[trigger] ts[j]).offset < (#[trigger] ts[k]).offset
}

proof fn lemma_lex_from(s: Seq<char>, i: int)
    requires
        0 <= i <= s.len(),
    ensures
        match lex_from(s, i) {
            Ok(ts) => in_order(ts, i, s.len()),
            Err(e) => e.offset is Some && within(s.len(), e),
        },
    decreases s.len() - i,
{
    lemma_skip_blank(s, i);
    let at = skip_blank(s, i);
    if at < s.len() {
        lemma_token_at(s, at);
        if let Ok((kind, next)) = token_at(s, at) {
            lemma_lex_from(s, next);
        }
    }
}

/// The tokens of a text stand at increasing positions in it. The end of the text is the last one
/// of them, and occurs nowhere before.
pub proof fn law_tokens_are_in_order(text: Seq<char>)
    requires
        lex_text(text) is Ok,
    ensures
        ({
            let ts = lex_text(text)->Ok_0;
            &&& ts.len() > 0
            &&& in_order(ts, 0, text.len())
            &&& ts.last() == TokenView { kind: KindView::Eof, offset: text.len() as int }
            &&& forall|k: int| 0 <= k < ts.len() - 1 ==> !((#[trigger] ts[k]).kind is Eof)
        }),
{
    lemma_lex_from(text, 0);
    lemma_lex_ends(text, 0);
    lemma_last_token(text, 0);
}

proof fn lemma_last_token(s: Seq<char>, i: int)
    requires
        lex_from(s, i) is Ok,
    ensures
        lex_from(s, i)->Ok_0.len() > 0,
        lex_from(s, i)->Ok_0.last() == (TokenView { kind: KindView::Eof, offset: s.len() as int }),
    decreases s.len() - i,
{
    let at = skip_blank(s, i);
    if i <= at < s.len() {
        if let Ok((kind, next)) = token_at(s, at) {
            lemma_last_token(s, next);
        }
    }
}

/// An error at a token of a text lies in the text.
proof fn lemma_at_token(ts: Seq<TokenView>, length: nat, e: ErrorView)
    requires
        in_order(ts, 0, length),
        at_token(ts, e),
    ensures
        within(length, e),
{
}

proof fn lemma_document(ts: Seq<TokenView>, base: Option<Seq<char>>)
    requires
        ts.len() > 0,
        ts.last().kind is Eof,
    ensures
        document(ts, base) matches Err(e) ==> reported(ts, e),
{
    lemma_statements(
        ts,
        DocumentView { base_iri: base, ..DocumentView::empty() },
        Cursor { pos: 0, blanks: 0 },
    );
}

/// An error that is reported of a text with a position points into the text or at its end, and no
/// text makes reading lose its way.
pub proof fn law_errors_point_into_the_text(text: Seq<char>, base: Option<Seq<char>>)
    ensures
        n3(text, base) matches Err(e) ==> within(text.len(), e) && e != no_headway(),
{
    match lex_text(text) {
        Ok(ts) => {
            law_tokens_are_in_order(text);
            lemma_document(ts, base);
            if let Err(e) = document(ts, base) {
                lemma_at_token(ts, text.len(), e);
            }
        },
        Err(e) => {
            lemma_lex_from(text, 0);
        },
    }
}

} // verus!
