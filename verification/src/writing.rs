//! How tokens are written, and that a text that is written so is read back.
use crate::ast::{DocumentView, RuleView, TripleView};
use crate::error::ErrorView;
use crate::grammar::n3;
use crate::lexer::{
    at_kind, escape_at, is_label_char, is_tag_char, is_var_char, label_chars, lex_from, lex_text,
    quote_width, skip_blank, string_body, tag_chars, token_at, var_chars,
};
use crate::reading_laws::lemma_skip_blank;
use crate::spelling::{
    law_reading_resolves_writing, resolved_rules, resolved_triples, sound_rules, sound_triples,
    spelled_rules, spelled_triples,
};
use crate::text::{is_space, lemma_scan_bounds, other_than, scan};
use crate::token::{KindView, TokenView};
use vstd::prelude::*;

verus! {

/// A string with a backslash before each quote and each backslash.
pub open spec fn escaped(value: Seq<char>) -> Seq<char>
    decreases value.len(),
{
    if value.len() == 0 {
        Seq::empty()
    } else {
        let rest = escaped(value.subrange(1, value.len() as int));
        if value[0] == '"' || value[0] == '\\' {
            seq!['\\', value[0]] + rest
        } else {
            seq![value[0]] + rest
        }
    }
}

/// How a token is written.
pub open spec fn token_text(kind: KindView) -> Seq<char> {
    match kind {
        KindView::LBrace => seq!['{'],
        KindView::RBrace => seq!['}'],
        KindView::LParen => seq!['('],
        KindView::RParen => seq![')'],
        KindView::Dot => seq!['.'],
        KindView::Comma => seq![','],
        KindView::Semicolon => seq![';'],
        KindView::Arrow => seq!['=', '>'],
        KindView::BackArrow => seq!['<', '='],
        KindView::HatHat => seq!['^', '^'],
        KindView::Iri(iri) => seq!['<'] + iri + seq!['>'],
        KindView::Var(name) => seq!['?'] + name,
        KindView::Blank(label) => seq!['_', ':'] + label,
        KindView::String(value) => seq!['"'] + escaped(value) + seq!['"'],
        KindView::Lang(tag) => seq!['@'] + tag,
        _ => Seq::empty(),
    }
}

/// Whether [`token_text`] writes a token: its characters are such as may stand there.
pub open spec fn plain(kind: KindView) -> bool {
    match kind {
        KindView::LBrace => true,
        KindView::RBrace => true,
        KindView::LParen => true,
        KindView::RParen => true,
        KindView::Dot => true,
        KindView::Comma => true,
        KindView::Semicolon => true,
        KindView::Arrow => true,
        KindView::BackArrow => true,
        KindView::HatHat => true,
        KindView::String(_) => true,
        KindView::Iri(iri) => !iri.contains('>') && !(iri.len() > 0 && iri[0] == '='),
        KindView::Var(name) => name.len() > 0 && forall|i: int|
            0 <= i < name.len() ==> is_var_char(#[trigger] name[i]),
        KindView::Blank(label) => label.len() > 0 && forall|i: int|
            0 <= i < label.len() ==> is_label_char(#[trigger] label[i]),
        KindView::Lang(tag) => tag.len() > 0 && at_kind(tag) is Lang && forall|i: int|
            0 <= i < tag.len() ==> is_tag_char(#[trigger] tag[i]),
        _ => false,
    }
}

/// Tokens as a text, each with a space behind it.
pub open spec fn written_text(kinds: Seq<KindView>) -> Seq<char>
    decreases kinds.len(),
{
    if kinds.len() == 0 {
        Seq::empty()
    } else {
        token_text(kinds[0]).push(' ') + written_text(kinds.subrange(1, kinds.len() as int))
    }
}

/// A run of characters that is kept ends where the first other one stands.
pub proof fn lemma_run(s: Seq<char>, i: int, end: int, keep: spec_fn(char) -> bool)
    requires
        0 <= i <= end < s.len(),
        forall|j: int| i <= j < end ==> keep(#[trigger] s[j]),
        !keep(s[end]),
    ensures
        scan(s, i, keep) == end,
{
    lemma_scan_bounds(s, i, keep);
    let found = scan(s, i, keep);
    if found < end {
        assert(keep(s[found]));
    }
}

proof fn lemma_string_text(s: Seq<char>, start: int, i: int, value: Seq<char>)
    requires
        0 <= start < i,
        i + escaped(value).len() < s.len(),
        s.subrange(i, i + escaped(value).len()) == escaped(value),
        s[i + escaped(value).len()] == '"',
    ensures
        string_body(s, start, i, '"', 1) == Ok::<(Seq<char>, int), ErrorView>(
            (value, i + escaped(value).len() + 1),
        ),
    decreases value.len(),
{
    let body = escaped(value);
    assert(forall|k: int| 0 <= k < body.len() ==> s[i + k] == #[trigger] body[k]) by {
        assert forall|k: int| 0 <= k < body.len() implies s[i + k] == #[trigger] body[k] by {
            assert(s.subrange(i, i + body.len())[k] == s[i + k]);
        }
    }
    if value.len() == 0 {
        assert(value =~= Seq::empty());
    } else {
        let rest = value.subrange(1, value.len() as int);
        let width = if value[0] == '"' || value[0] == '\\' {
            2int
        } else {
            1int
        };
        assert(body.subrange(width, body.len() as int) =~= escaped(rest));
        assert(s.subrange(i + width, i + body.len()) =~= body.subrange(width, body.len() as int));
        lemma_string_text(s, start, i + width, rest);
        assert(s[i + 0] == body[0]);
        if width == 2 {
            assert(s[i + 1] == body[1]);
            assert(escape_at(s, i) == Some((value[0], i + 2)));
        }
        assert(seq![value[0]] + rest =~= value);
    }
}

/// A token that is written at index `i` with a space behind it is read there.
pub proof fn lemma_token_text(s: Seq<char>, i: int, kind: KindView)
    requires
        plain(kind),
        0 <= i,
        i + token_text(kind).len() < s.len(),
        s.subrange(i, i + token_text(kind).len()) == token_text(kind),
        s[i + token_text(kind).len()] == ' ',
    ensures
        token_text(kind).len() > 0,
        !is_space(s[i]) && s[i] != '#',
        token_at(s, i) == Ok::<(KindView, int), ErrorView>((kind, i + token_text(kind).len())),
{
    let text = token_text(kind);
    let end = i + text.len();
    assert forall|k: int| 0 <= k < text.len() implies s[i + k] == #[trigger] text[k] by {
        assert(s.subrange(i, end)[k] == s[i + k]);
    }
    assert(s[i + 0] == text[0]);
    match kind {
        KindView::Arrow => {
            assert(s[i + 1] == text[1]);
        },
        KindView::BackArrow => {
            assert(s[i + 1] == text[1]);
        },
        KindView::HatHat => {
            assert(s[i + 1] == text[1]);
        },
        KindView::Iri(iri) => {
            assert(s[i + 1] == text[1]);
            assert(iri.len() > 0 ==> text[1] == iri[0]);
            assert(s[end - 1] == text[text.len() - 1]);
            assert forall|j: int| i + 1 <= j < end - 1 implies other_than('>')(#[trigger] s[j]) by {
                assert(text[j - i] == iri[j - i - 1]);
                assert(s[i + (j - i)] == text[j - i]);
            }
            lemma_run(s, i + 1, end - 1, other_than('>'));
            assert(s.subrange(i + 1, end - 1) =~= iri) by {
                assert forall|k: int| 0 <= k < iri.len() implies s[i + 1 + k]
                    == #[trigger] iri[k] by {
                    assert(s[i + (1 + k)] == text[1 + k]);
                }
            }
        },
        KindView::Var(name) => {
            lemma_tail(s, i, 1, text, name);
            lemma_run(s, i + 1, end, var_chars());
        },
        KindView::Blank(label) => {
            assert(s[i + 1] == text[1]);
            lemma_tail(s, i, 2, text, label);
            lemma_run(s, i + 2, end, label_chars());
        },
        KindView::Lang(tag) => {
            lemma_tail(s, i, 1, text, tag);
            lemma_run(s, i + 1, end, tag_chars());
        },
        KindView::String(value) => {
            let body = escaped(value);
            assert(s[i + 1] == text[1]);
            assert(s[end - 1] == text[text.len() - 1]);
            assert(quote_width(s, i) == 1) by {
                if value.len() > 0 {
                    assert(text[1] == body[0]);
                } else {
                    assert(s[i + 2] == ' ');
                }
            }
            assert(s.subrange(i + 1, i + 1 + body.len()) =~= body) by {
                assert forall|k: int| 0 <= k < body.len() implies s[i + 1 + k]
                    == #[trigger] body[k] by {
                    assert(s[i + (1 + k)] == text[1 + k]);
                }
            }
            lemma_string_text(s, i, i + 1, value);
        },
        _ => {},
    }
}

/// What a text holds behind its first `n` characters, where it is written at index `i`.
proof fn lemma_tail(s: Seq<char>, i: int, n: int, text: Seq<char>, tail: Seq<char>)
    requires
        0 <= i,
        0 <= n,
        text.len() == n + tail.len(),
        i + text.len() <= s.len(),
        forall|k: int| 0 <= k < tail.len() ==> text[n + k] == #[trigger] tail[k],
        forall|k: int| 0 <= k < text.len() ==> s[i + k] == #[trigger] text[k],
    ensures
        s.subrange(i + n, i + text.len()) == tail,
        forall|j: int| i + n <= j < i + text.len() ==> #[trigger] s[j] == tail[j - i - n],
{
    assert forall|j: int| i + n <= j < i + text.len() implies #[trigger] s[j] == tail[j - i
        - n] by {
        assert(s[i + (j - i)] == text[j - i]);
        assert(text[n + (j - i - n)] == tail[j - i - n]);
    }
    assert(s.subrange(i + n, i + text.len()) =~= tail);
}

/// The first of the tokens that are written from index `i` on, and what stands behind it.
proof fn lemma_first_text(s: Seq<char>, i: int, kinds: Seq<KindView>, tail: Seq<char>)
    requires
        kinds.len() > 0,
        0 <= i <= s.len(),
        s.subrange(i, s.len() as int) == written_text(kinds) + tail,
        all_plain(kinds),
    ensures
        ({
            let rest = kinds.subrange(1, kinds.len() as int);
            let end = i + token_text(kinds[0]).len();
            &&& i <= end < s.len()
            &&& s.subrange(i, end) == token_text(kinds[0])
            &&& s[end] == ' '
            &&& s.subrange(end + 1, s.len() as int) == written_text(rest) + tail
            &&& i + written_text(kinds).len() == end + 1 + written_text(rest).len()
            &&& all_plain(rest)
        }),
{
    let rest = kinds.subrange(1, kinds.len() as int);
    let text = token_text(kinds[0]);
    let n = text.len() as int;
    let whole = written_text(kinds) + tail;
    let found = s.subrange(i, s.len() as int);
    assert(whole =~= text.push(' ') + (written_text(rest) + tail));
    assert(s.subrange(i, i + n) =~= found.subrange(0, n));
    assert(whole.subrange(0, n) =~= text);
    assert(found[n] == s[i + n]);
    assert(s.subrange(i + n + 1, s.len() as int) =~= found.skip(n + 1));
    assert(whole.skip(n + 1) =~= written_text(rest) + tail);
    assert forall|k: int| 0 <= k < rest.len() implies plain(#[trigger] rest[k]) by {
        assert(rest[k] == kinds[k + 1]);
    }
}

/// A token at index `i` with a space behind it is the first of those that are read from there.
pub proof fn lemma_lexes_first(s: Seq<char>, i: int, kind: KindView)
    requires
        plain(kind),
        0 <= i,
        i + token_text(kind).len() < s.len(),
        s.subrange(i, i + token_text(kind).len()) == token_text(kind),
        s[i + token_text(kind).len()] == ' ',
    ensures
        lex_from(s, i) == (match lex_from(s, i + token_text(kind).len() + 1) {
            Ok(more) => Ok::<Seq<TokenView>, ErrorView>(
                seq![TokenView { kind, offset: i }] + more,
            ),
            Err(e) => Err(e),
        }),
{
    let end = i + token_text(kind).len();
    lemma_token_text(s, i, kind);
    assert(skip_blank(s, i) == i);
    assert(skip_blank(s, end) == skip_blank(s, end + 1));
    lemma_skip_blank(s, end + 1);
    assert(lex_from(s, end) == lex_from(s, end + 1));
}

/// Tokens that are written from index `i` on are read from there, and then what follows them.
proof fn lemma_lexes(s: Seq<char>, i: int, kinds: Seq<KindView>, tail: Seq<char>)
    requires
        0 <= i <= s.len(),
        s.subrange(i, s.len() as int) == written_text(kinds) + tail,
        all_plain(kinds),
        lex_from(s, i + written_text(kinds).len()) is Ok,
    ensures
        ({
            let rest = lex_from(s, i + written_text(kinds).len())->Ok_0;
            lex_from(s, i) matches Ok(ts) && ts.map_values(|t: TokenView| t.kind) == kinds
                + rest.map_values(|t: TokenView| t.kind)
        }),
    decreases kinds.len(),
{
    let kind_of = |t: TokenView| t.kind;
    let behind = lex_from(s, i + written_text(kinds).len())->Ok_0;
    if kinds.len() == 0 {
        assert(kinds + behind.map_values(kind_of) =~= behind.map_values(kind_of));
    } else {
        let first = kinds[0];
        let rest = kinds.subrange(1, kinds.len() as int);
        let end = i + token_text(first).len();
        lemma_first_text(s, i, kinds, tail);
        lemma_lexes_first(s, i, first);
        lemma_lexes(s, end + 1, rest, tail);
        let more = lex_from(s, end + 1)->Ok_0;
        let token = TokenView { kind: first, offset: i };
        assert((seq![token] + more).map_values(kind_of) =~= seq![first] + more.map_values(
            kind_of,
        ));
        assert(seq![first] + (rest + behind.map_values(kind_of)) =~= kinds + behind.map_values(
            kind_of,
        ));
    }
}

/// Whether a text is split into tokens of the given kinds.
pub open spec fn spells(text: Seq<char>, kinds: Seq<KindView>) -> bool {
    lex_text(text) matches Ok(ts) && ts.map_values(|t: TokenView| t.kind) == kinds.push(
        KindView::Eof,
    )
}

/// Tokens that can be written as a text.
pub open spec fn all_plain(kinds: Seq<KindView>) -> bool {
    forall|k: int| 0 <= k < kinds.len() ==> plain(#[trigger] kinds[k])
}

/// Tokens that can be written as a text are those of a text.
pub proof fn law_written_text_spells(kinds: Seq<KindView>)
    requires
        all_plain(kinds),
    ensures
        spells(written_text(kinds), kinds),
{
    let text = written_text(kinds);
    assert(text.subrange(0, text.len() as int) =~= text);
    assert(text + Seq::<char>::empty() =~= text);
    lemma_lexes(text, 0, kinds, Seq::empty());
    let end = lex_from(text, text.len() as int)->Ok_0;
    assert(end.map_values(|t: TokenView| t.kind) =~= seq![KindView::Eof]);
    assert(kinds + seq![KindView::Eof] =~= kinds.push(KindView::Eof));
}

/// Tokens as a text, with a space behind each of them, and a dot at the end.
pub open spec fn sentence(kinds: Seq<KindView>) -> Seq<char> {
    written_text(kinds).push('.')
}

/// A sentence is split into its tokens and the dot.
pub proof fn law_sentence_spells(kinds: Seq<KindView>)
    requires
        all_plain(kinds),
    ensures
        spells(sentence(kinds), kinds.push(KindView::Dot)),
{
    let text = sentence(kinds);
    let at = written_text(kinds).len() as int;
    assert(text.subrange(0, text.len() as int) =~= text);
    assert(text =~= written_text(kinds) + seq!['.']);
    lemma_lexes(text, 0, kinds, seq!['.']);
    assert(text[at] == '.');
    assert(token_at(text, at) == Ok::<(KindView, int), ErrorView>((KindView::Dot, at + 1)));
    assert(skip_blank(text, at) == at && skip_blank(text, at + 1) == at + 1);
    let last = lex_from(text, at + 1)->Ok_0;
    let end = lex_from(text, at)->Ok_0;
    assert(last.map_values(|t: TokenView| t.kind) =~= seq![KindView::Eof]);
    assert(end.map_values(|t: TokenView| t.kind) =~= seq![KindView::Dot, KindView::Eof]);
    assert(kinds + seq![KindView::Dot, KindView::Eof] =~= kinds.push(KindView::Dot).push(
        KindView::Eof,
    ));
}

/// Reading a text gives what was written in it as it is meant under the base: facts, none of them
/// with a formula as its subject, and rules make a document that says them in their order and
/// nothing else, however the text spells them.
pub proof fn law_text_is_read_back(
    text: Seq<char>,
    base: Option<Seq<char>>,
    facts: Seq<TripleView>,
    rules: Seq<RuleView>,
)
    requires
        spells(text, spelled_triples(facts) + spelled_rules(rules)),
        sound_triples(facts),
        sound_rules(rules),
        forall|i: int| 0 <= i < facts.len() ==> !((#[trigger] facts[i]).subject is Formula),
    ensures
        n3(text, base) == Ok::<DocumentView, ErrorView>(
            DocumentView {
                prefixes: Map::empty(),
                base_iri: base,
                facts: resolved_triples(base, facts),
                rules: resolved_rules(base, rules),
            },
        ),
{
    law_reading_resolves_writing(lex_text(text)->Ok_0, base, facts, rules);
}

} // verus!
