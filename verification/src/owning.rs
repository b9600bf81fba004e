//! Blank nodes of different messages.
use crate::ast::{DocumentView, TermView, TripleView};
use crate::grammar::{
    formula, fresh_label, property_list, formula_items, list_items, objects, predicates, scope,
    skip_semicolons, statement, statement_triples, statements, term, verb, Cursor, Scope,
};
use crate::headway::{
    lemma_objects, lemma_skip_semicolons, lemma_statement, lemma_statement_triples, lemma_term,
    lemma_verb, placed,
};
use crate::joining::{behind, joined, law_tokens_join};
use crate::labels::unbracketed;
use crate::lexer::lex_text;
use crate::marking::{all_owned, law_marked_tokens_are_owned, own_mark, owned, whole_from};
use crate::message_log::{marked, message_document};
use crate::moving::moved_token;
use crate::reading_laws::law_tokens_are_in_order;
use crate::text::{decimal, is_digit, lemma_decimal_injective, lemma_decimal_nonempty};
use crate::token::{KindView, TokenView};
use vstd::prelude::*;

verus! {

/// A label that is made for a blank node without one.
pub open spec fn is_made(label: Seq<char>) -> bool {
    exists|n: nat| label == #[trigger] fresh_label(n)
}

/// A label of the message with number `k`: one that is marked so or, where `made` says that there
/// are such labels, one that is made.
pub open spec fn own_label(label: Seq<char>, k: nat, made: bool) -> bool {
    own_mark(k).is_prefix_of(label) || made && is_made(label)
}

/// A term whose blank nodes all have labels of the message with number `k`.
pub open spec fn owns(t: TermView, k: nat, made: bool) -> bool
    decreases t,
{
    match t {
        TermView::Blank(label) => own_label(label, k, made),
        TermView::List(items) => forall|i: int|
            0 <= i < items.len() ==> owns(#[trigger] items[i], k, made),
        TermView::Formula(items) => forall|i: int|
            0 <= i < items.len() ==> owns_triple(#[trigger] items[i], k, made),
        _ => true,
    }
}

/// A triple whose blank nodes all have labels of the message with number `k`.
pub open spec fn owns_triple(t: TripleView, k: nat, made: bool) -> bool
    decreases t,
{
    owns(t.subject, k, made) && owns(t.predicate, k, made) && owns(t.object, k, made)
}

/// Triples whose blank nodes all have labels of the message with number `k`.
pub open spec fn owns_all(items: Seq<TripleView>, k: nat, made: bool) -> bool {
    forall|i: int| 0 <= i < items.len() ==> owns_triple(#[trigger] items[i], k, made)
}

/// Tokens whose written labels are all marked as those of the message with number `k`, and that
/// have brackets only where `made` says so.
spec fn closed_off(tokens: Seq<TokenView>, k: nat, made: bool) -> bool {
    (made || unbracketed(tokens)) && all_owned(tokens, k)
}

proof fn lemma_owns_add(a: Seq<TripleView>, b: Seq<TripleView>, k: nat, made: bool)
    requires
        owns_all(a, k, made),
        owns_all(b, k, made),
    ensures
        owns_all(a + b, k, made),
{
}

proof fn own_term(s: Scope, c: Cursor, k: nat, made: bool)
    requires
        closed_off(s.tokens, k, made),
        placed(s, c),
    ensures
        term(s, c) matches Ok((found, _)) ==> owns(found.term, k, made) && owns_all(
            found.triples,
            k,
            made,
        ),
    decreases s.tokens.len() - c.pos, 2nat,
{
    let d = s.step(c);
    if c.pos < s.last() {
        assert(owned(s.tokens[c.pos].kind, k));
        assert(made || !(s.tokens[c.pos].kind is LBracket));
        match s.peek(c) {
            KindView::LBrace => {
                own_formula(s, c, k, made);
            },
            KindView::LParen => {
                own_list(s, d, k, made);
            },
            KindView::LBracket => {
                own_property_list(s, d, k);
            },
            _ => {},
        }
    } else {
        assert(owned(s.tokens[c.pos - 1].kind, k));
    }
}

proof fn own_list(s: Scope, c: Cursor, k: nat, made: bool)
    requires
        closed_off(s.tokens, k, made),
        placed(s, c),
    ensures
        list_items(s, c) matches Ok((found, _)) ==> {
            &&& owns_all(found.triples, k, made)
            &&& forall|i: int|
                0 <= i < found.items.len() ==> owns(#[trigger] found.items[i], k, made)
        },
    decreases s.tokens.len() - c.pos, 7nat,
{
    if !(s.peek(c) is RParen || s.peek(c) is Eof) {
        lemma_term(s, c);
        own_term(s, c, k, made);
        if let Ok((first, d)) = term(s, c) {
            own_list(s, d, k, made);
        }
    }
}

proof fn own_property_list(s: Scope, c: Cursor, k: nat)
    requires
        closed_off(s.tokens, k, true),
        placed(s, c),
    ensures
        property_list(s, c) matches Ok((found, _)) ==> owns(found.term, k, true) && owns_all(
            found.triples,
            k,
            true,
        ),
    decreases s.tokens.len() - c.pos, 7nat,
{
    let blank = TermView::Blank(fresh_label(c.blanks + 1));
    let c = Cursor { pos: c.pos, blanks: c.blanks + 1 };
    assert(is_made(fresh_label(c.blanks)));
    if !(s.peek(c) is RBracket) {
        own_predicates(s, c, blank, k, true);
    }
}

proof fn own_verb(s: Scope, c: Cursor, k: nat, made: bool)
    requires
        closed_off(s.tokens, k, made),
        placed(s, c),
    ensures
        verb(s, c) matches Ok((found, _)) ==> owns(found, k, made),
    decreases s.tokens.len() - c.pos, 4nat,
{
    own_term(s, c, k, made);
}

proof fn own_objects(
    s: Scope,
    c: Cursor,
    subject: TermView,
    predicate: TermView,
    k: nat,
    made: bool,
)
    requires
        closed_off(s.tokens, k, made),
        placed(s, c),
        owns(subject, k, made),
        owns(predicate, k, made),
    ensures
        objects(s, c, subject, predicate) matches Ok((found, _)) ==> owns_all(found, k, made),
    decreases s.tokens.len() - c.pos, 3nat,
{
    lemma_term(s, c);
    own_term(s, c, k, made);
    if let Ok((object, d)) = term(s, c) {
        let one = seq![crate::ast::triple(subject, predicate, object.term)];
        assert(owns_all(one, k, made));
        lemma_owns_add(one, object.triples, k, made);
        if s.peek(d) is Comma {
            own_objects(s, s.step(d), subject, predicate, k, made);
        }
    }
}

proof fn own_predicates(s: Scope, c: Cursor, subject: TermView, k: nat, made: bool)
    requires
        closed_off(s.tokens, k, made),
        placed(s, c),
        owns(subject, k, made),
    ensures
        predicates(s, c, subject) matches Ok((found, _)) ==> owns_all(found, k, made),
    decreases s.tokens.len() - c.pos, 5nat,
{
    if !s.ends_predicates(c) {
        lemma_verb(s, c);
        own_verb(s, c, k, made);
        if let Ok((predicate, d)) = verb(s, c) {
            lemma_objects(s, d, subject, predicate);
            own_objects(s, d, subject, predicate, k, made);
            if let Ok((first, e)) = objects(s, d, subject, predicate) {
                if s.peek(e) is Semicolon {
                    lemma_skip_semicolons(s, e);
                    own_predicates(s, skip_semicolons(s, e), subject, k, made);
                }
            }
        }
    }
}

proof fn own_statement_triples(s: Scope, c: Cursor, k: nat, made: bool)
    requires
        closed_off(s.tokens, k, made),
        placed(s, c),
    ensures
        statement_triples(s, c) matches Ok((found, _)) ==> owns_all(found, k, made),
    decreases s.tokens.len() - c.pos, 6nat,
{
    lemma_term(s, c);
    own_term(s, c, k, made);
    if let Ok((subject, d)) = term(s, c) {
        if s.peek(d) is Arrow || s.peek(d) is BackArrow {
            own_term(s, s.step(d), k, made);
        } else {
            own_predicates(s, d, subject.term, k, made);
        }
    }
}

proof fn own_formula_items(s: Scope, c: Cursor, k: nat, made: bool)
    requires
        closed_off(s.tokens, k, made),
        placed(s, c),
    ensures
        formula_items(s, c) matches Ok((found, _)) ==> owns_all(found, k, made),
    decreases s.tokens.len() - c.pos, 7nat,
{
    if s.peek(c) is RBrace || s.peek(c) is Eof {
    } else if s.peek(c) is Dot {
        own_formula_items(s, s.step(c), k, made);
    } else {
        lemma_statement_triples(s, c);
        own_statement_triples(s, c, k, made);
        if let Ok((first, d)) = statement_triples(s, c) {
            if s.peek(d) is Dot {
                own_formula_items(s, s.step(d), k, made);
            } else if s.peek(d) is RBrace {
                own_formula_items(s, d, k, made);
            }
        }
    }
}

proof fn own_formula(s: Scope, c: Cursor, k: nat, made: bool)
    requires
        closed_off(s.tokens, k, made),
        placed(s, c),
    ensures
        formula(s, c) matches Ok((found, _)) ==> owns_all(found, k, made),
    decreases s.tokens.len() - c.pos, 1nat,
{
    if s.peek(c) is LBrace {
        own_formula_items(s, s.step(c), k, made);
    }
}

proof fn own_statement(tokens: Seq<TokenView>, doc: DocumentView, c: Cursor, k: nat, made: bool)
    requires
        closed_off(tokens, k, made),
        placed(scope(tokens, doc), c),
        owns_all(doc.facts, k, made),
        statement(tokens, doc, c) is Ok,
    ensures
        owns_all(statement(tokens, doc, c)->Ok_0.0.facts, k, made),
{
    let s = scope(tokens, doc);
    own_statement_triples(s, c, k, made);
    if let Ok((items, d)) = statement_triples(s, c) {
        lemma_owns_add(doc.facts, items, k, made);
    }
}

proof fn own_statements(tokens: Seq<TokenView>, doc: DocumentView, c: Cursor, k: nat, made: bool)
    requires
        closed_off(tokens, k, made),
        tokens.len() > 0,
        tokens.last().kind is Eof,
        0 <= c.pos < tokens.len(),
        owns_all(doc.facts, k, made),
        statements(tokens, doc, c) is Ok,
    ensures
        owns_all(statements(tokens, doc, c)->Ok_0.facts, k, made),
    decreases tokens.len() - c.pos,
{
    if !(tokens[c.pos].kind is Eof) {
        lemma_statement(tokens, doc, c);
        own_statement(tokens, doc, c, k, made);
        let (next, d) = statement(tokens, doc, c)->Ok_0;
        own_statements(tokens, next, d, k, made);
    }
}

/// Tokens without blank nodes: neither labels nor brackets.
pub open spec fn nodeless(tokens: Seq<TokenView>) -> bool {
    forall|i: int|
        0 <= i < tokens.len() ==> !((#[trigger] tokens[i]).kind is Blank)
            && !(tokens[i].kind is LBracket)
}

/// Tokens behind others that hold no blank nodes.
proof fn lemma_closed_off(a: Seq<TokenView>, b: Seq<TokenView>, n: int, k: nat, made: bool)
    requires
        a.len() > 0,
        nodeless(a),
        closed_off(b, k, made),
    ensures
        closed_off(a.drop_last() + b.map_values(|t: TokenView| moved_token(t, n)), k, made),
{
    let moved = b.map_values(|t: TokenView| moved_token(t, n));
    let front = a.drop_last();
    let all = front + moved;
    assert forall|i: int| 0 <= i < all.len() implies (made || !((
    #[trigger] all[i]).kind is LBracket)) && owned(all[i].kind, k) by {
        if i < front.len() {
            assert(all[i] == a[i]);
        } else {
            assert(all[i] == moved_token(b[i - front.len()], n));
        }
    }
}

/// The tokens of a marked message with a line feed behind it.
proof fn lemma_marked_line(message: Seq<char>, k: nat, made: bool)
    requires
        whole_from(message, 0),
        made || unbracketed(lex_text(marked(message, k))->Ok_0),
    ensures
        lex_text(marked(message, k).push('\n')) matches Ok(ts) && closed_off(ts, k, made),
{
    let t = marked(message, k);
    let none = Seq::<char>::empty();
    law_marked_tokens_are_owned(message, k);
    law_tokens_join(t, none);
    assert(joined(t, none) =~= t.push('\n'));
    let ts = lex_text(t)->Ok_0;
    let end = lex_text(none)->Ok_0;
    assert(end =~= seq![TokenView { kind: KindView::Eof, offset: 0 }]);
    let n = behind(t);
    let all = ts.drop_last() + end.map_values(|x: TokenView| moved_token(x, n));
    law_tokens_are_in_order(t);
    assert forall|i: int| 0 <= i < all.len() implies (made || !((
    #[trigger] all[i]).kind is LBracket)) && owned(all[i].kind, k) by {
        if i < ts.len() - 1 {
            assert(all[i] == ts[i]);
        }
    }
}

/// In the graph of a message all blank nodes have labels of the message: marked ones and, if the
/// message has brackets, ones that are made. Marking tears none of the tokens of the message
/// apart, and the declarations hold no blank nodes.
pub proof fn law_message_owns_its_blank_nodes(
    declared: Seq<char>,
    message: Seq<char>,
    k: nat,
    base: Option<Seq<char>>,
)
    requires
        lex_text(declared) is Ok,
        nodeless(lex_text(declared)->Ok_0),
        whole_from(message, 0),
        message_document(declared, message, k, base) is Ok,
    ensures
        owns_all(
            message_document(declared, message, k, base)->Ok_0.facts,
            k,
            !unbracketed(lex_text(marked(message, k))->Ok_0),
        ),
{
    reveal(message_document);
    let made = !unbracketed(lex_text(marked(message, k))->Ok_0);
    let t = marked(message, k).push('\n');
    lemma_marked_line(message, k, made);
    law_tokens_join(declared, t);
    let first = lex_text(declared)->Ok_0;
    let second = lex_text(t)->Ok_0;
    law_tokens_are_in_order(declared);
    lemma_closed_off(first, second, behind(declared), k, made);
    let all = lex_text(joined(declared, t))->Ok_0;
    law_tokens_are_in_order(joined(declared, t));
    own_statements(
        all,
        DocumentView { base_iri: base, ..DocumentView::empty() },
        Cursor { pos: 0, blanks: 0 },
        k,
        made,
    );
}

/// Whether a blank node with the given label occurs in a term.
pub open spec fn mentions(t: TermView, label: Seq<char>) -> bool
    decreases t,
{
    match t {
        TermView::Blank(own) => own == label,
        TermView::List(items) => exists|i: int|
            0 <= i < items.len() && mentions(#[trigger] items[i], label),
        TermView::Formula(items) => exists|i: int|
            0 <= i < items.len() && triple_mentions(#[trigger] items[i], label),
        _ => false,
    }
}

/// Whether a blank node with the given label occurs in a triple.
pub open spec fn triple_mentions(t: TripleView, label: Seq<char>) -> bool
    decreases t,
{
    mentions(t.subject, label) || mentions(t.predicate, label) || mentions(t.object, label)
}

proof fn lemma_mentions(t: TermView, label: Seq<char>, k: nat, made: bool)
    requires
        owns(t, k, made),
        mentions(t, label),
    ensures
        own_label(label, k, made),
    decreases t,
{
    match t {
        TermView::List(items) => {
            let i = choose|i: int| 0 <= i < items.len() && mentions(#[trigger] items[i], label);
            lemma_mentions(items[i], label, k, made);
        },
        TermView::Formula(items) => {
            let i = choose|i: int|
                0 <= i < items.len() && triple_mentions(#[trigger] items[i], label);
            lemma_triple_mentions(items[i], label, k, made);
        },
        _ => {},
    }
}

proof fn lemma_triple_mentions(t: TripleView, label: Seq<char>, k: nat, made: bool)
    requires
        owns_triple(t, k, made),
        triple_mentions(t, label),
    ensures
        own_label(label, k, made),
    decreases t,
{
    if mentions(t.subject, label) {
        lemma_mentions(t.subject, label, k, made);
    } else if mentions(t.predicate, label) {
        lemma_mentions(t.predicate, label, k, made);
    } else {
        lemma_mentions(t.object, label, k, made);
    }
}

/// A label belongs to one message at most, where not both messages have labels that are made.
pub proof fn law_labels_have_one_owner(
    j: nat,
    first_made: bool,
    k: nat,
    second_made: bool,
    label: Seq<char>,
)
    requires
        own_label(label, j, first_made),
        own_label(label, k, second_made),
        !(first_made && second_made),
    ensures
        j == k,
{
    if own_mark(j).is_prefix_of(label) && own_mark(k).is_prefix_of(label) {
        lemma_marks_differ(j, k, label);
    } else {
        let n = choose|n: nat| label == #[trigger] fresh_label(n);
        reveal_strlit("b");
        reveal_strlit("m");
        assert(label[0] == 'b');
        assert(own_mark(j)[0] == 'm' && own_mark(k)[0] == 'm');
        if own_mark(j).is_prefix_of(label) {
            assert(label.subrange(0, own_mark(j).len() as int)[0] == label[0]);
        } else {
            assert(label.subrange(0, own_mark(k).len() as int)[0] == label[0]);
        }
    }
}

/// The mark of a label tells its message.
proof fn lemma_marks_differ(j: nat, k: nat, label: Seq<char>)
    requires
        own_mark(j).is_prefix_of(label),
        own_mark(k).is_prefix_of(label),
    ensures
        j == k,
{
    reveal_strlit("m");
    reveal_strlit("_");
    let a = own_mark(j);
    let b = own_mark(k);
    lemma_decimal_nonempty(j);
    lemma_decimal_nonempty(k);
    let m = decimal(j).len() as int;
    let n = decimal(k).len() as int;
    assert(forall|i: int| 0 <= i < a.len() ==> label[i] == #[trigger] a[i]) by {
        assert forall|i: int| 0 <= i < a.len() implies label[i] == #[trigger] a[i] by {
            assert(label.subrange(0, a.len() as int)[i] == a[i]);
        }
    }
    assert(forall|i: int| 0 <= i < b.len() ==> label[i] == #[trigger] b[i]) by {
        assert forall|i: int| 0 <= i < b.len() implies label[i] == #[trigger] b[i] by {
            assert(label.subrange(0, b.len() as int)[i] == b[i]);
        }
    }
    assert(forall|i: int| 0 <= i < m ==> a[1 + i] == #[trigger] decimal(j)[i]);
    assert(forall|i: int| 0 <= i < n ==> b[1 + i] == #[trigger] decimal(k)[i]);
    assert(a[1 + m] == '_' && b[1 + n] == '_');
    if m < n {
        assert(is_digit(decimal(k)[m]));
    }
    if n < m {
        assert(is_digit(decimal(j)[n]));
    }
    assert forall|i: int| 0 <= i < m implies decimal(j)[i] == #[trigger] decimal(k)[i] by {
        assert(label[1 + i] == a[1 + i] && label[1 + i] == b[1 + i]);
    }
    assert(decimal(j) =~= decimal(k));
    lemma_decimal_injective(j, k);
}

/// The graphs of different messages share no blank node. One of the two messages at least has no
/// brackets, marking tears none of their tokens apart, and the declarations hold no blank nodes.
pub proof fn law_messages_share_no_blank_node(
    declared: Seq<char>,
    first: Seq<char>,
    j: nat,
    second: Seq<char>,
    k: nat,
    base: Option<Seq<char>>,
    a: TripleView,
    b: TripleView,
    label: Seq<char>,
)
    requires
        j != k,
        lex_text(declared) is Ok,
        nodeless(lex_text(declared)->Ok_0),
        whole_from(first, 0),
        whole_from(second, 0),
        unbracketed(lex_text(marked(first, j))->Ok_0) || unbracketed(
            lex_text(marked(second, k))->Ok_0,
        ),
        message_document(declared, first, j, base) is Ok,
        message_document(declared, second, k, base) is Ok,
        message_document(declared, first, j, base)->Ok_0.facts.contains(a),
        message_document(declared, second, k, base)->Ok_0.facts.contains(b),
    ensures
        !(triple_mentions(a, label) && triple_mentions(b, label)),
{
    law_message_owns_its_blank_nodes(declared, first, j, base);
    law_message_owns_its_blank_nodes(declared, second, k, base);
    if triple_mentions(a, label) && triple_mentions(b, label) {
        let first_made = !unbracketed(lex_text(marked(first, j))->Ok_0);
        let second_made = !unbracketed(lex_text(marked(second, k))->Ok_0);
        lemma_triple_mentions(a, label, j, first_made);
        lemma_triple_mentions(b, label, k, second_made);
        law_labels_have_one_owner(j, first_made, k, second_made, label);
    }
}

} // verus!
