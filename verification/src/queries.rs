//! `log:query` in place of an arrow.
use crate::ast::{DocumentView, LOG_QUERY};
use crate::braces::{
    encloses, law_brace_belongs_to_one, law_formula_is_enclosed, law_pairs_are_local,
};
use crate::error::ErrorView;
use crate::grammar::{
    content, ended, formula, formula_content, n3, scope, statement, statements, Cursor, Scope,
};
use crate::headway::{complete, lemma_conclusion, lemma_formula, placed};
use crate::joining::{behind, ends_tight, law_tokens_join_at_space, law_tokens_join_behind, spaced};
use crate::lexer::{lex_text, name_end, skip_blank, token_at};
use crate::locality::{agree, local_formula};
use crate::moving::{
    ends_with, law_statements_move, moved, moved_cursor, moved_document, moved_error, moved_token,
};
use crate::reading_laws::{law_query_reads_as_implication, law_tokens_are_in_order};
use crate::token::{KindView, TokenView};
use crate::writing::{plain, token_text};
use vstd::prelude::*;

verus! {

/// The text of a rule: its left side, what stands between the sides, and the text from its right
/// side on, with spaces between them.
pub open spec fn rule_text(left: Seq<char>, mark: KindView, rest: Seq<char>) -> Seq<char> {
    spaced(left, spaced(token_text(mark), rest))
}

/// The IRI of `log:query`.
pub open spec fn query_mark() -> KindView {
    KindView::Iri(LOG_QUERY@)
}

/// How much longer `log:query` is than an arrow.
pub open spec fn query_shift() -> int {
    token_text(query_mark()).len() - token_text(KindView::Arrow).len()
}

/// A text that is a formula in braces, read with the prefixes and the base of a document.
pub open spec fn formula_text(text: Seq<char>, doc: DocumentView) -> bool {
    lex_text(text) matches Ok(ts) && {
        &&& ends_tight(text, ts)
        &&& formula(scope(ts, doc), Cursor { pos: 0, blanks: 0 }) matches Ok((_, d)) && d.pos
            == ts.len() - 1
    }
}

/// A text with a pair of braces around it, whatever stands between them.
pub open spec fn braced_text(text: Seq<char>) -> bool {
    lex_text(text) matches Ok(ts) && ends_tight(text, ts) && encloses(ts, 0, ts.len() - 1)
}

/// A text whose first token opens a formula or is `true`, where it can be split into tokens.
pub open spec fn conclusion_text(text: Seq<char>) -> bool {
    lex_text(text) matches Ok(ts) ==> ts[0].kind is LBrace || ts[0].kind == KindView::Boolean(true)
}

/// A text that begins with a brace, or with the word `true` and a space, is such a text.
pub proof fn law_conclusion_texts(text: Seq<char>)
    requires
        text.len() > 0,
        text[0] == '{' || "true "@.is_prefix_of(text),
    ensures
        conclusion_text(text),
{
    reveal_strlit("true ");
    let word = "true "@;
    if text[0] == '{' {
        assert(skip_blank(text, 0) == 0);
        assert(token_at(text, 0) == Ok::<(KindView, int), ErrorView>((KindView::LBrace, 1)));
    } else {
        assert forall|i: int| 0 <= i < 5 implies text[i] == #[trigger] word[i] by {
            assert(text.subrange(0, 5)[i] == text[i]);
        }
        assert(text[0] == word[0] && text[1] == word[1] && text[2] == word[2] && text[3] == word[3]
            && text[4] == word[4]);
        assert(skip_blank(text, 0) == 0);
        lemma_true_word(text);
    }
}

proof fn lemma_true_word(text: Seq<char>)
    requires
        text.len() > 4,
        text[0] == 't' && text[1] == 'r' && text[2] == 'u' && text[3] == 'e' && text[4] == ' ',
    ensures
        token_at(text, 0) == Ok::<(KindView, int), ErrorView>((KindView::Boolean(true), 4)),
{
    reveal_strlit("true");
    reveal_strlit("a");
    assert(name_end(text, 4) == 4);
    assert(name_end(text, 3) == 4);
    assert(name_end(text, 2) == 4);
    assert(name_end(text, 1) == 4);
    assert(name_end(text, 0) == 4);
    assert(text.subrange(0, 4) =~= "true"@);
}

/// The tokens of a rule whose left side has the tokens `first`.
spec fn rule_tokens(
    first: Seq<TokenView>,
    mark: KindView,
    at: int,
    rest: Seq<TokenView>,
) -> Seq<TokenView> {
    let k = at + token_text(mark).len() + 1;
    first.drop_last() + (seq![TokenView { kind: mark, offset: at }] + rest.map_values(
        |t: TokenView| moved_token(t, k),
    ))
}

proof fn lemma_rule_tokens(left: Seq<char>, mark: KindView, rest: Seq<char>)
    requires
        plain(mark),
        lex_text(left) is Ok,
        ends_tight(left, lex_text(left)->Ok_0),
    ensures
        lex_text(rule_text(left, mark, rest)) == (match lex_text(rest) {
            Ok(ts) => Ok::<Seq<TokenView>, ErrorView>(
                rule_tokens(lex_text(left)->Ok_0, mark, behind(left), ts),
            ),
            Err(e) => Err(moved_error(e, behind(left) + token_text(mark).len() + 1)),
        }),
{
    let at = behind(left);
    let n = token_text(mark).len() as int + 1;
    let tail = spaced(token_text(mark), rest);
    law_tokens_join_at_space(left, tail);
    law_tokens_join_behind(mark, rest);
    if let Ok(ts) = lex_text(rest) {
        let mark_at = seq![TokenView { kind: mark, offset: 0 }];
        let near = ts.map_values(|t: TokenView| moved_token(t, n));
        assert((mark_at + near).map_values(|t: TokenView| moved_token(t, at)) =~= seq![
            TokenView { kind: mark, offset: at },
        ] + ts.map_values(|t: TokenView| moved_token(t, at + n)));
    }
}

proof fn lemma_query_mark()
    ensures
        plain(query_mark()),
{
    reveal_strlit("http://www.w3.org/2000/10/swap/log#query");
    assert forall|i: int| 0 <= i < LOG_QUERY@.len() implies LOG_QUERY@[i] != '>' by {}
}

/// The tokens `a` and `b` are those of a rule with the formula `first` on its left side: `a` has an
/// arrow, `b` has `log:query`, and what follows it stands `k` characters further on.
spec fn swapped(a: Seq<TokenView>, b: Seq<TokenView>, first: Seq<TokenView>, k: int) -> bool {
    let n = first.len() - 1;
    &&& complete(a) && complete(b) && complete(first)
    &&& a.len() == b.len() && n + 2 < a.len()
    &&& a[n].kind is Arrow && b[n].kind == query_mark()
    &&& a[n + 1].kind is LBrace || a[n + 1].kind == KindView::Boolean(true)
    &&& forall|i: int| 0 <= i < n ==> (#[trigger] first[i]) == a[i] && first[i] == b[i]
    &&& forall|i: int| n < i < a.len() ==> moved_token(#[trigger] a[i], k) == b[i]
}

proof fn lemma_swapped(first: Seq<TokenView>, at: int, rest: Seq<TokenView>)
    requires
        complete(first),
        complete(rest),
        rest[0].kind is LBrace || rest[0].kind == KindView::Boolean(true),
    ensures
        swapped(
            rule_tokens(first, KindView::Arrow, at, rest),
            rule_tokens(first, query_mark(), at, rest),
            first,
            query_shift(),
        ),
{
    let n = first.len() - 1;
    let k = query_shift();
    let a = rule_tokens(first, KindView::Arrow, at, rest);
    let b = rule_tokens(first, query_mark(), at, rest);
    assert forall|i: int| n < i < a.len() implies moved_token(#[trigger] a[i], k) == b[i]
        && a[i].kind == rest[i - n - 1].kind && b[i].kind == a[i].kind by {}
    assert(a[n + 1].kind == rest[0].kind);
    assert(a[a.len() - 1].kind == rest.last().kind);
}

/// The statement of a rule with `log:query` says what the one with an arrow says.
proof fn lemma_swapped_statement(
    a: Seq<TokenView>,
    b: Seq<TokenView>,
    first: Seq<TokenView>,
    k: int,
    doc: DocumentView,
)
    requires
        swapped(a, b, first, k),
        formula(scope(first, doc), Cursor { pos: 0, blanks: 0 }) matches Ok((_, d)) && d.pos
            == first.len() - 1,
    ensures
        ({
            let c = Cursor { pos: 0, blanks: 0 };
            &&& !(a[0].kind is Eof) && !(b[0].kind is Eof)
            &&& statement(b, doc, c) == moved(statement(a, doc, c), 0, k)
            &&& statement(a, doc, c) matches Ok((_, d)) ==> first.len() <= d.pos < a.len()
        }),
{
    lemma_swapped_rule(a, b, first, k, doc);
    lemma_brace_statement(a, doc);
    lemma_brace_statement(b, doc);
}

proof fn lemma_swapped_rule(
    a: Seq<TokenView>,
    b: Seq<TokenView>,
    first: Seq<TokenView>,
    k: int,
    doc: DocumentView,
)
    requires
        swapped(a, b, first, k),
        formula(scope(first, doc), Cursor { pos: 0, blanks: 0 }) matches Ok((_, d)) && d.pos
            == first.len() - 1,
    ensures
        ({
            let c = Cursor { pos: 0, blanks: 0 };
            let (s, t) = (scope(a, doc), scope(b, doc));
            let rule = ended(s, formula_content(s, doc, c));
            &&& ended(t, formula_content(t, doc, c)) == moved(rule, 0, k)
            &&& rule matches Ok((_, d)) ==> first.len() <= d.pos < a.len()
        }),
        a[0].kind is LBrace,
        b[0].kind is LBrace,
{
    let c = Cursor { pos: 0, blanks: 0 };
    lemma_swapped_formula(a, b, first, k, doc);
    assert forall|i: int| 0 <= i < first.len() - 1 implies #[trigger] a[i] == b[i] by {
        assert(first[i] == a[i] && first[i] == b[i]);
    }
    law_query_reads_as_implication(scope(a, doc), scope(b, doc), k, doc, c);
    lemma_arrow_statement(scope(a, doc), doc, c);
}

proof fn lemma_swapped_formula(
    a: Seq<TokenView>,
    b: Seq<TokenView>,
    first: Seq<TokenView>,
    k: int,
    doc: DocumentView,
)
    requires
        swapped(a, b, first, k),
        formula(scope(first, doc), Cursor { pos: 0, blanks: 0 }) matches Ok((_, d)) && d.pos
            == first.len() - 1,
    ensures
        formula(scope(a, doc), Cursor { pos: 0, blanks: 0 }) matches Ok((_, d)) && d.pos
            == first.len() - 1,
        a[0].kind is LBrace,
        b[0].kind is LBrace,
{
    let n = first.len() - 1;
    let c = Cursor { pos: 0, blanks: 0 };
    assert(first[0] == a[0] && first[0] == b[0]);
    assert(agree(scope(first, doc), scope(a, doc), n));
    local_formula(scope(first, doc), scope(a, doc), n, c);
}

/// A statement that begins with a brace is a rule.
proof fn lemma_brace_statement(a: Seq<TokenView>, doc: DocumentView)
    requires
        a[0].kind is LBrace,
    ensures
        ({
            let c = Cursor { pos: 0, blanks: 0 };
            let s = scope(a, doc);
            statement(a, doc, c) == ended(s, formula_content(s, doc, c))
        }),
{
    let c = Cursor { pos: 0, blanks: 0 };
    let s = scope(a, doc);
    assert(content(s, doc, c) == formula_content(s, doc, c));
}

/// A rule with an arrow ends behind the arrow.
proof fn lemma_arrow_statement(s: Scope, doc: DocumentView, c: Cursor)
    requires
        placed(s, c),
        formula(s, c) is Ok,
        s.peek(formula(s, c)->Ok_0.1) is Arrow,
    ensures
        ended(s, formula_content(s, doc, c)) matches Ok((_, e)) ==> s.step(
            formula(s, c)->Ok_0.1,
        ).pos <= e.pos <= s.last(),
{
    lemma_formula(s, c);
    let (items, d) = formula(s, c)->Ok_0;
    lemma_conclusion(s, s.step(d));
}

/// `log:query` between a formula and a formula or `true` is read as `=>` is there: the same rule
/// comes out, and then the same statements, or the same error as much further on as `log:query` is
/// longer. The document that is read so far may have declared prefixes and a base.
pub proof fn law_query_for_arrow(left: Seq<char>, rest: Seq<char>, doc: DocumentView)
    requires
        formula_text(left, doc),
        conclusion_text(rest),
    ensures
        ({
            let c = Cursor { pos: 0, blanks: 0 };
            let k = query_shift();
            match (
                lex_text(rule_text(left, KindView::Arrow, rest)),
                lex_text(rule_text(left, query_mark(), rest)),
            ) {
                (Ok(a), Ok(b)) => {
                    &&& statement(b, doc, c) == moved(statement(a, doc, c), 0, k)
                    &&& statements(b, doc, c) == moved_document(statements(a, doc, c), k)
                },
                (Err(e), Err(f)) => f == moved_error(e, k),
                _ => false,
            }
        }),
{
    let c = Cursor { pos: 0, blanks: 0 };
    let k = query_shift();
    let first = lex_text(left)->Ok_0;
    lemma_query_mark();
    lemma_rule_tokens(left, KindView::Arrow, rest);
    lemma_rule_tokens(left, query_mark(), rest);
    if let Ok(ts) = lex_text(rest) {
        let a = rule_tokens(first, KindView::Arrow, behind(left), ts);
        let b = rule_tokens(first, query_mark(), behind(left), ts);
        law_tokens_are_in_order(left);
        law_tokens_are_in_order(rest);
        lemma_swapped(first, behind(left), ts);
        lemma_swapped_statement(a, b, first, k, doc);
        lemma_statements_go_on(a, b, first.len() as int, k, doc);
    }
}

/// Statements that go on alike behind the first one, which says the same.
proof fn lemma_statements_go_on(
    a: Seq<TokenView>,
    b: Seq<TokenView>,
    from: int,
    k: int,
    doc: DocumentView,
)
    requires
        ends_with(b, a, from, 0, k),
        !(a[0].kind is Eof) && !(b[0].kind is Eof),
        ({
            let c = Cursor { pos: 0, blanks: 0 };
            &&& statement(b, doc, c) == moved(statement(a, doc, c), 0, k)
            &&& statement(a, doc, c) matches Ok((_, d)) ==> 0 < from <= d.pos < a.len()
        }),
    ensures
        ({
            let c = Cursor { pos: 0, blanks: 0 };
            statements(b, doc, c) == moved_document(statements(a, doc, c), k)
        }),
{
    let c = Cursor { pos: 0, blanks: 0 };
    match statement(a, doc, c) {
        Ok((next, d)) => {
            law_statements_move(a, b, from, 0, k, next, d);
            assert(moved_cursor(d, 0) == d);
            assert(statements(a, doc, c) == statements(a, next, d));
            assert(statements(b, doc, c) == statements(b, next, d));
        },
        Err(e) => {
            assert(statements(a, doc, c) == Err::<DocumentView, ErrorView>(e));
        },
    }
}

/// A document that begins with a rule says the same with `log:query` in place of `=>`, or has the
/// same error as much further on.
pub proof fn law_query_document(left: Seq<char>, rest: Seq<char>, base: Option<Seq<char>>)
    requires
        formula_text(left, DocumentView { base_iri: base, ..DocumentView::empty() }),
        conclusion_text(rest),
    ensures
        n3(rule_text(left, query_mark(), rest), base) == moved_document(
            n3(rule_text(left, KindView::Arrow, rest), base),
            query_shift(),
        ),
{
    law_query_for_arrow(left, rest, DocumentView { base_iri: base, ..DocumentView::empty() });
}

/// Reading a formula from tokens that begin with a pair of braces succeeds only if what stands
/// between them can be read.
proof fn lemma_enclosed_formula(a: Seq<TokenView>, first: Seq<TokenView>, doc: DocumentView)
    requires
        complete(a),
        complete(first),
        first.len() <= a.len(),
        encloses(first, 0, first.len() - 1),
        forall|i: int| 0 <= i < first.len() - 1 ==> #[trigger] first[i] == a[i],
        formula(scope(a, doc), Cursor { pos: 0, blanks: 0 }) is Ok,
    ensures
        formula(scope(first, doc), Cursor { pos: 0, blanks: 0 }) matches Ok((_, d)) && d.pos
            == first.len() - 1,
{
    let n = first.len() - 1;
    let c = Cursor { pos: 0, blanks: 0 };
    let s = scope(a, doc);
    let d = formula(s, c)->Ok_0.1;
    law_formula_is_enclosed(s, c);
    law_pairs_are_local(first, a, 0, n);
    law_brace_belongs_to_one(a, 0, d.pos, n);
    assert forall|i: int| 0 <= i < n implies #[trigger] a[i] == first[i] by {
        assert(first[i] == a[i]);
    }
    local_formula(s, scope(first, doc), n, c);
}

/// A statement that begins with a brace fails where no formula can be read.
proof fn lemma_brace_fails(a: Seq<TokenView>, doc: DocumentView)
    requires
        a[0].kind is LBrace,
        formula(scope(a, doc), Cursor { pos: 0, blanks: 0 }) is Err,
    ensures
        statement(a, doc, Cursor { pos: 0, blanks: 0 }) is Err,
        statements(a, doc, Cursor { pos: 0, blanks: 0 }) is Err,
{
    lemma_brace_statement(a, doc);
}

/// Behind a text in braces, whatever stands between them, `log:query` and `=>` before a formula or
/// `true` both fail or both make the same rule, and what follows is then read alike.
pub proof fn law_query_or_arrow(left: Seq<char>, rest: Seq<char>, doc: DocumentView)
    requires
        braced_text(left),
        conclusion_text(rest),
    ensures
        ({
            let c = Cursor { pos: 0, blanks: 0 };
            let k = query_shift();
            match (
                lex_text(rule_text(left, KindView::Arrow, rest)),
                lex_text(rule_text(left, query_mark(), rest)),
            ) {
                (Ok(a), Ok(b)) => {
                    ||| statement(b, doc, c) == moved(statement(a, doc, c), 0, k) && statements(
                        b,
                        doc,
                        c,
                    ) == moved_document(statements(a, doc, c), k)
                    ||| statement(a, doc, c) is Err && statement(b, doc, c) is Err && statements(
                        a,
                        doc,
                        c,
                    ) is Err && statements(b, doc, c) is Err
                },
                (Err(e), Err(f)) => f == moved_error(e, k),
                _ => false,
            }
        }),
{
    if formula_text(left, doc) {
        law_query_for_arrow(left, rest, doc);
    } else {
        lemma_unread_braces(left, rest, doc);
    }
}

proof fn lemma_unread_braces(left: Seq<char>, rest: Seq<char>, doc: DocumentView)
    requires
        braced_text(left),
        !formula_text(left, doc),
    ensures
        ({
            let c = Cursor { pos: 0, blanks: 0 };
            match (
                lex_text(rule_text(left, KindView::Arrow, rest)),
                lex_text(rule_text(left, query_mark(), rest)),
            ) {
                (Ok(a), Ok(b)) => {
                    &&& statement(a, doc, c) is Err && statement(b, doc, c) is Err
                    &&& statements(a, doc, c) is Err && statements(b, doc, c) is Err
                },
                (Err(e), Err(f)) => f == moved_error(e, query_shift()),
                _ => false,
            }
        }),
{
    lemma_query_mark();
    lemma_unread_rule(left, KindView::Arrow, rest, doc);
    lemma_unread_rule(left, query_mark(), rest, doc);
}

proof fn lemma_unread_rule(left: Seq<char>, mark: KindView, rest: Seq<char>, doc: DocumentView)
    requires
        plain(mark),
        braced_text(left),
        !formula_text(left, doc),
    ensures
        ({
            let c = Cursor { pos: 0, blanks: 0 };
            match lex_text(rule_text(left, mark, rest)) {
                Ok(a) => statement(a, doc, c) is Err && statements(a, doc, c) is Err && lex_text(
                    rest,
                ) is Ok,
                Err(e) => lex_text(rest) matches Err(f) && e == moved_error(
                    f,
                    behind(left) + token_text(mark).len() + 1,
                ),
            }
        }),
{
    lemma_rule_tokens(left, mark, rest);
    if let Ok(ts) = lex_text(rest) {
        let first = lex_text(left)->Ok_0;
        let a = rule_tokens(first, mark, behind(left), ts);
        law_tokens_are_in_order(left);
        law_tokens_are_in_order(rest);
        assert(a.last().kind is Eof) by {
            assert(a[a.len() - 1].kind == ts[ts.len() - 1].kind);
        }
        assert forall|i: int| 0 <= i < first.len() - 1 implies #[trigger] first[i] == a[i] by {}
        assert(a[0] == first[0]);
        if formula(scope(a, doc), Cursor { pos: 0, blanks: 0 }) is Ok {
            lemma_enclosed_formula(a, first, doc);
        } else {
            lemma_brace_fails(a, doc);
        }
    }
}

/// A document that begins with a text in braces and `=>` before a formula or `true` fails with
/// `log:query` in place of the arrow if it fails with the arrow, and else says the same.
pub proof fn law_query_or_arrow_document(left: Seq<char>, rest: Seq<char>, base: Option<Seq<char>>)
    requires
        braced_text(left),
        conclusion_text(rest),
    ensures
        match n3(rule_text(left, KindView::Arrow, rest), base) {
            Ok(doc) => n3(rule_text(left, query_mark(), rest), base) == Ok::<
                DocumentView,
                ErrorView,
            >(doc),
            Err(_) => n3(rule_text(left, query_mark(), rest), base) is Err,
        },
{
    law_query_or_arrow(left, rest, DocumentView { base_iri: base, ..DocumentView::empty() });
}

} // verus!
