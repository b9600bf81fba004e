//! What a replay says, in full, and how labels are marked.
use crate::ast::{triple, DocumentView, LiteralView, TermView, TripleView};
use crate::error::ErrorView;
use crate::grammar::{n3, number, statements, Cursor};
use crate::iri_laws::law_numbers;
use crate::joining::{joined, law_texts_join, law_tokens_join};
use crate::lexer::{label_chars, lex_text};
use crate::message_log::{
    declarations, declared_document, envelope_facts, envelopes, is_empty_message, marked,
    marked_from, message_document, messages, payload_facts, replay, stream_facts, string_end,
    with_message, with_messages,
};
use crate::replay_laws::{facts_from, graph, law_replay};
use crate::spelling::{lemma_reads_facts, spelled_triple, spelled_triples};
use crate::text::{decimal, lemma_scan_bounds, lines, other_than, scan, trim};
use crate::text_laws::law_numerals;
use crate::token::{KindView, TokenView};
use crate::writing::{
    all_plain, law_sentence_spells, plain, sentence, spells, token_text, written_text,
};
use vstd::prelude::*;

verus! {

/// A name of the vocabulary for message streams.
pub open spec fn stream_name(local: Seq<char>) -> TermView {
    TermView::Iri("https://eyereasoner.github.io/eyeling/vocab/message#"@ + local)
}

/// The type predicate.
pub open spec fn has_type() -> TermView {
    TermView::Iri("http://www.w3.org/1999/02/22-rdf-syntax-ns#type"@)
}

/// The one stream of a replay.
pub open spec fn the_stream() -> TermView {
    TermView::Iri("urn:eyeron:rdf-message-stream:1"@)
}

/// The envelope of the message with number `k`.
pub open spec fn envelope_name(k: nat) -> TermView {
    TermView::Iri("urn:eyeron:rdf-message-stream:1:envelope:"@ + decimal(k))
}

/// The payload graph of the message with number `k`.
pub open spec fn payload_name(k: nat) -> TermView {
    TermView::Iri("urn:eyeron:rdf-message-stream:1:payload:"@ + decimal(k))
}

/// The literal for a natural number.
pub open spec fn integer(n: nat) -> TermView {
    TermView::Literal(
        LiteralView {
            value: decimal(n),
            datatype: Some("http://www.w3.org/2001/XMLSchema#integer"@),
            language: None,
        },
    )
}

/// A stream of `n` messages is one, lists the envelopes of all of them in their order, and has the
/// envelope of the first one as its first.
pub proof fn law_stream_facts(n: nat)
    ensures
        stream_facts(n) == seq![
            triple(the_stream(), has_type(), stream_name("RDFMessageStream"@)),
            triple(
                the_stream(),
                stream_name("orderedEnvelopes"@),
                TermView::List(Seq::new(n, |i: int| envelope_name((i + 1) as nat))),
            ),
            triple(the_stream(), stream_name("firstEnvelope"@), envelope_name(1)),
        ],
{
    assert(envelopes(n) =~= Seq::new(n, |i: int| envelope_name((i + 1) as nat)));
}

/// What is said of message `k` of `n`: that the stream has its envelope, that it is one, its offset
/// from zero on and the envelope of the next message, if there is one. Then that it is empty, or
/// that it is not and has a payload graph, which names the formula with its triples.
pub open spec fn told_of_message(k: nat, n: nat, graph: Option<Seq<TripleView>>) -> Seq<
    TripleView,
> {
    seq![
        triple(the_stream(), stream_name("envelope"@), envelope_name(k)),
        triple(envelope_name(k), has_type(), stream_name("MessageEnvelope"@)),
        triple(envelope_name(k), stream_name("offset"@), integer((k - 1) as nat)),
    ] + (if k < n {
        seq![triple(envelope_name(k), stream_name("nextEnvelope"@), envelope_name(k + 1))]
    } else {
        Seq::empty()
    }) + (match graph {
        None => seq![triple(envelope_name(k), stream_name("payloadKind"@), stream_name("empty"@))],
        Some(items) => seq![
            triple(envelope_name(k), stream_name("payloadKind"@), stream_name("nonEmpty"@)),
            triple(envelope_name(k), stream_name("payloadGraph"@), payload_name(k)),
            triple(
                payload_name(k),
                TermView::Iri("http://www.w3.org/2000/10/swap/log#nameOf"@),
                TermView::Formula(items),
            ),
        ],
    })
}

proof fn lemma_told(k: nat, n: nat, graph: Option<Seq<TripleView>>)
    requires
        1 <= k,
    ensures
        envelope_facts(k, n) + payload_facts(k, graph) == told_of_message(k, n, graph),
{
    let value = decimal((k - 1) as nat);
    law_numerals((k - 1) as nat);
    law_numbers(value);
    assert forall|i: int| 0 <= i < value.len() implies (#[trigger] value[i]) != '.' && value[i]
        != 'e' && value[i] != 'E' by {
        assert('0' <= value[i] <= '9');
    }
    assert(number(value) == integer((k - 1) as nat));
    reveal_strlit("http://www.w3.org/2000/10/swap/log#");
    reveal_strlit("nameOf");
    reveal_strlit("http://www.w3.org/2000/10/swap/log#nameOf");
    assert("http://www.w3.org/2000/10/swap/log#"@ + "nameOf"@
        =~= "http://www.w3.org/2000/10/swap/log#nameOf"@);
    assert(envelope_facts(k, n) + payload_facts(k, graph) =~= told_of_message(k, n, graph));
}

/// The text that is read for message `k`: what is declared for all messages, a line feed, the
/// message with its labels marked, and a line feed.
pub open spec fn message_text(declared: Seq<char>, message: Seq<char>, k: nat) -> Seq<char> {
    declared + seq!['\n'] + marked(message, k) + seq!['\n']
}

/// The triples of message `k`, unless no line of it says anything.
pub open spec fn message_graph(
    declared: Seq<char>,
    message: Seq<char>,
    k: nat,
    base: Option<Seq<char>>,
) -> Option<Seq<TripleView>> {
    if is_empty_message(message) {
        None
    } else {
        Some(n3(message_text(declared, message, k), base)->Ok_0.facts)
    }
}

/// A message is read as a text of its own, behind what is declared for all messages.
pub proof fn law_messages_are_texts(
    declared: Seq<char>,
    message: Seq<char>,
    k: nat,
    base: Option<Seq<char>>,
)
    ensures
        message_document(declared, message, k, base) == n3(
            message_text(declared, message, k),
            base,
        ),
{
    reveal(message_document);
    assert(message_text(declared, message, k) =~= declared.push('\n') + marked(message, k).push(
        '\n',
    ));
}

/// A replay says what holds of the stream and then of each message in turn what holds of it, and
/// nothing else.
pub proof fn law_replay_in_full(text: Seq<char>, base: Option<Seq<char>>)
    ensures
        ({
            let declared = declarations(lines(text));
            let ms = messages(lines(text));
            replay(text, base) matches Ok(doc) ==> doc.facts == seq![
                triple(the_stream(), has_type(), stream_name("RDFMessageStream"@)),
                triple(
                    the_stream(),
                    stream_name("orderedEnvelopes"@),
                    TermView::List(Seq::new(ms.len(), |i: int| envelope_name((i + 1) as nat))),
                ),
                triple(the_stream(), stream_name("firstEnvelope"@), envelope_name(1)),
            ] + Seq::new(
                ms.len(),
                |i: int|
                    told_of_message(
                        (i + 1) as nat,
                        ms.len(),
                        message_graph(declared, ms[i], (i + 1) as nat, base),
                    ),
            ).flatten()
        }),
{
    let declared = declarations(lines(text));
    let ms = messages(lines(text));
    law_replay(text, base);
    law_stream_facts(ms.len());
    lemma_told_from(declared, ms, 0, base);
    let each = |i: int|
        told_of_message(
            (i + 1) as nat,
            ms.len(),
            message_graph(declared, ms[i], (i + 1) as nat, base),
        );
    let all = Seq::new(ms.len(), each);
    assert(all.subrange(0, ms.len() as int) =~= all);
}

proof fn lemma_told_from(
    declared: Seq<char>,
    ms: Seq<Seq<char>>,
    from: int,
    base: Option<Seq<char>>,
)
    requires
        0 <= from <= ms.len(),
    ensures
        facts_from(declared, ms, from + 1, base) == Seq::new(
            ms.len(),
            |i: int|
                told_of_message(
                    (i + 1) as nat,
                    ms.len(),
                    message_graph(declared, ms[i], (i + 1) as nat, base),
                ),
        ).subrange(from, ms.len() as int).flatten(),
    decreases ms.len() - from,
{
    let all = Seq::new(
        ms.len(),
        |i: int|
            told_of_message(
                (i + 1) as nat,
                ms.len(),
                message_graph(declared, ms[i], (i + 1) as nat, base),
            ),
    );
    let rest = all.subrange(from, ms.len() as int);
    if from < ms.len() {
        let k = (from + 1) as nat;
        law_messages_are_texts(declared, ms[from], k, base);
        assert(graph(declared, ms, from + 1, base) == message_graph(declared, ms[from], k, base));
        lemma_told(k, ms.len(), graph(declared, ms, from + 1, base));
        lemma_told_from(declared, ms, from + 1, base);
        assert(rest.drop_first() =~= all.subrange(from + 1, ms.len() as int));
        assert(rest.first() == all[from]);
    } else {
        assert(rest =~= Seq::empty());
    }
}

/// What is declared for all messages is read on its own, with one statement behind it. A replay
/// begins with the prefixes and the rules that this gives, and with its base where none is given.
/// Where nothing is declared it begins with the given base and nothing else.
pub proof fn law_declared_documents(declared: Seq<char>, base: Option<Seq<char>>)
    ensures
        trim(declared).len() == 0 ==> declared_document(declared, base) == Ok::<
            DocumentView,
            ErrorView,
        >(
            DocumentView {
                prefixes: Map::empty(),
                base_iri: base,
                facts: Seq::empty(),
                rules: Seq::empty(),
            },
        ),
        trim(declared).len() > 0 ==> declared_document(declared, base) == (match n3(
            declared
                + "\n<urn:eyeron:prefix-seed> <urn:eyeron:prefix-seed> <urn:eyeron:prefix-seed> .\n"@,
            base,
        ) {
            Ok(seed) => Ok(
                DocumentView {
                    prefixes: seed.prefixes,
                    base_iri: match base {
                        Some(given) => Some(given),
                        None => seed.base_iri,
                    },
                    facts: Seq::empty(),
                    rules: seed.rules,
                },
            ),
            Err(e) => Err(e),
        }),
{
    reveal(declared_document);
    if trim(declared).len() > 0 {
        let text = declared
            + "\n<urn:eyeron:prefix-seed> <urn:eyeron:prefix-seed> <urn:eyeron:prefix-seed> .\n"@;
        if let Ok(seed) = n3(text, base) {
            let start = DocumentView { base_iri: base, ..DocumentView::empty() };
            assert(start.merge(DocumentView { facts: Seq::empty(), ..seed }) =~= DocumentView {
                prefixes: seed.prefixes,
                base_iri: match base {
                    Some(given) => Some(given),
                    None => seed.base_iri,
                },
                facts: Seq::empty(),
                rules: seed.rules,
            });
        }
    }
}

/// The IRI of the statement that is read behind the declarations.
spec fn seed() -> Seq<char> {
    "urn:eyeron:prefix-seed"@
}

proof fn lemma_seed_text()
    ensures
        plain(KindView::Iri(seed())),
        "\n<urn:eyeron:prefix-seed> <urn:eyeron:prefix-seed> <urn:eyeron:prefix-seed> .\n"@ == seq![
            '\n',
        ] + sentence(
            seq![KindView::Iri(seed()), KindView::Iri(seed()), KindView::Iri(seed())],
        ).push('\n'),
{
    reveal_strlit("urn:eyeron:prefix-seed");
    reveal_strlit(
        "\n<urn:eyeron:prefix-seed> <urn:eyeron:prefix-seed> <urn:eyeron:prefix-seed> .\n",
    );
    let kind = KindView::Iri(seed());
    let kinds = seq![kind, kind, kind];
    let one = token_text(kind).push(' ');
    assert forall|i: int| 0 <= i < seed().len() implies seed()[i] != '>' by {}
    assert(kinds.subrange(1, 3) =~= seq![kind, kind]);
    assert(seq![kind, kind].subrange(1, 2) =~= seq![kind]);
    assert(seq![kind].subrange(1, 1) =~= Seq::empty());
    assert(written_text(Seq::empty()) =~= Seq::empty());
    assert(written_text(seq![kind]) =~= one);
    assert(written_text(seq![kind, kind]) =~= one + one);
    assert(written_text(kinds) =~= one + (one + one));
    assert("\n<urn:eyeron:prefix-seed> <urn:eyeron:prefix-seed> <urn:eyeron:prefix-seed> .\n"@
        =~= seq!['\n'] + (one + (one + one)).push('.').push('\n'));
}

/// The tokens of the statement that is read behind the declarations.
proof fn lemma_seed_tokens(kinds: Seq<KindView>)
    requires
        all_plain(kinds),
    ensures
        spells(sentence(kinds).push('\n'), kinds.push(KindView::Dot)),
{
    let text = sentence(kinds);
    let none = Seq::<char>::empty();
    law_sentence_spells(kinds);
    law_tokens_join(text, none);
    assert(joined(text, none) =~= text.push('\n'));
    let first = lex_text(text)->Ok_0;
    let end = lex_text(none)->Ok_0;
    assert(end =~= seq![TokenView { kind: KindView::Eof, offset: 0 }]);
    let all = lex_text(text.push('\n'))->Ok_0;
    let found = first.map_values(|t: TokenView| t.kind);
    let wanted = kinds.push(KindView::Dot).push(KindView::Eof);
    assert(first.len() == found.len());
    assert(all.map_values(|t: TokenView| t.kind) =~= wanted) by {
        assert forall|i: int| 0 <= i < all.len() implies all[i].kind == wanted[i] by {
            if i < first.len() - 1 {
                assert(all[i] == first[i]);
                assert(found[i] == wanted[i]);
            }
        }
    }
}

proof fn lemma_seed_statement(ts: Seq<TokenView>, doc: DocumentView, c: Cursor)
    requires
        c.pos == 0,
        ts.map_values(|t: TokenView| t.kind) == seq![
            KindView::Iri(seed()),
            KindView::Iri(seed()),
            KindView::Iri(seed()),
        ].push(KindView::Dot).push(KindView::Eof),
    ensures
        statements(ts, doc, c) matches Ok(said) && said.prefixes == doc.prefixes && said.base_iri
            == doc.base_iri && said.rules == doc.rules,
{
    let found = ts.map_values(|t: TokenView| t.kind);
    let term = TermView::Iri(seed());
    let facts = seq![triple(term, term, term)];
    assert(ts.len() == found.len());
    assert(ts[0].kind == found[0] && ts[1].kind == found[1] && ts[2].kind == found[2]);
    assert(ts[3].kind == found[3] && ts[4].kind == found[4]);
    assert(facts.subrange(1, 1) =~= Seq::empty());
    assert(spelled_triples(Seq::empty()) =~= Seq::empty());
    assert(spelled_triple(facts[0]) =~= seq![
        KindView::Iri(seed()),
        KindView::Iri(seed()),
        KindView::Iri(seed()),
    ]);
    assert(spelled_triples(facts) =~= seq![
        KindView::Iri(seed()),
        KindView::Iri(seed()),
        KindView::Iri(seed()),
        KindView::Dot,
    ]);
    lemma_reads_facts(ts, doc, c, facts);
}

/// A replay begins with the prefixes and the rules that the declarations say on their own, and with
/// their base where none is given.
pub proof fn law_declarations_begin_the_replay(declared: Seq<char>, base: Option<Seq<char>>)
    requires
        trim(declared).len() > 0,
        n3(declared, base) is Ok,
    ensures
        declared_document(declared, base) == Ok::<DocumentView, ErrorView>(
            DocumentView {
                prefixes: n3(declared, base)->Ok_0.prefixes,
                base_iri: match base {
                    Some(given) => Some(given),
                    None => n3(declared, base)->Ok_0.base_iri,
                },
                facts: Seq::empty(),
                rules: n3(declared, base)->Ok_0.rules,
            },
        ),
{
    let kinds = seq![KindView::Iri(seed()), KindView::Iri(seed()), KindView::Iri(seed())];
    let rest = sentence(kinds).push('\n');
    let text = declared
        + "\n<urn:eyeron:prefix-seed> <urn:eyeron:prefix-seed> <urn:eyeron:prefix-seed> .\n"@;
    assert(text =~= joined(declared, rest)) by {
        lemma_seed_text();
    }
    lemma_seeded(declared, base);
    law_declared_documents(declared, base);
}

proof fn lemma_seeded(declared: Seq<char>, base: Option<Seq<char>>)
    requires
        n3(declared, base) is Ok,
    ensures
        ({
            let kinds = seq![KindView::Iri(seed()), KindView::Iri(seed()), KindView::Iri(seed())];
            let alone = n3(declared, base)->Ok_0;
            n3(joined(declared, sentence(kinds).push('\n')), base) matches Ok(said)
                && said.prefixes == alone.prefixes && said.base_iri == alone.base_iri && said.rules
                == alone.rules
        }),
{
    let kinds = seq![KindView::Iri(seed()), KindView::Iri(seed()), KindView::Iri(seed())];
    let rest = sentence(kinds).push('\n');
    assert(all_plain(kinds)) by {
        lemma_seed_text();
    }
    lemma_seed_tokens(kinds);
    let blanks = law_texts_join(declared, rest, base);
    lemma_seed_statement(
        lex_text(rest)->Ok_0,
        n3(declared, base)->Ok_0,
        Cursor { pos: 0, blanks },
    );
}

/// Two documents together say the facts and the rules of the first one and then those of the
/// second one. A prefix that both declare has the IRI of the second one; a base that both have is
/// that of the first one.
pub proof fn law_merging(a: DocumentView, b: DocumentView, prefix: Seq<char>)
    ensures
        ({
            let both = a.merge(b);
            &&& both.facts == a.facts + b.facts
            &&& both.rules == a.rules + b.rules
            &&& both.base_iri == (match a.base_iri {
                Some(iri) => Some(iri),
                None => b.base_iri,
            })
            &&& both.prefixes.contains_key(prefix) <==> a.prefixes.contains_key(prefix)
                || b.prefixes.contains_key(prefix)
            &&& b.prefixes.contains_key(prefix) ==> both.prefixes[prefix] == b.prefixes[prefix]
            &&& a.prefixes.contains_key(prefix) && !b.prefixes.contains_key(prefix)
                ==> both.prefixes[prefix] == a.prefixes[prefix]
        }),
{
}

/// What message `k` of a log declares, if any line of it says something.
pub open spec fn declares(
    declared: Seq<char>,
    ms: Seq<Seq<char>>,
    k: int,
    base: Option<Seq<char>>,
    prefix: Seq<char>,
) -> bool {
    &&& 1 <= k <= ms.len()
    &&& !is_empty_message(ms[k - 1])
    &&& n3(message_text(declared, ms[k - 1], k as nat), base) matches Ok(said)
        && said.prefixes.contains_key(prefix)
}

/// A prefix is declared in a replay exactly if it is declared for all messages or in a message. Its
/// IRI is that of the last message in which it is declared, or else that for all messages.
pub proof fn law_replayed_prefixes(text: Seq<char>, base: Option<Seq<char>>, prefix: Seq<char>)
    requires
        replay(text, base) is Ok,
    ensures
        ({
            let declared = declarations(lines(text));
            let ms = messages(lines(text));
            let doc = replay(text, base)->Ok_0;
            let start = declared_document(declared, base)->Ok_0;
            &&& declared_document(declared, base) is Ok
            &&& forall|k: int| #[trigger]
                declares(declared, ms, k, base, prefix) && (forall|j: int|
                    k < j <= ms.len() ==> !#[trigger] declares(declared, ms, j, base, prefix))
                    ==> doc.prefixes.contains_key(prefix) && doc.prefixes[prefix] == n3(
                    message_text(declared, ms[k - 1], k as nat),
                    base,
                )->Ok_0.prefixes[prefix]
            &&& (forall|j: int|
                1 <= j <= ms.len() ==> !#[trigger] declares(declared, ms, j, base, prefix)) ==> (
            doc.prefixes.contains_key(prefix) <==> start.prefixes.contains_key(prefix)) && (
            start.prefixes.contains_key(prefix) ==> doc.prefixes[prefix] == start.prefixes[prefix])
        }),
{
    let declared = declarations(lines(text));
    let ms = messages(lines(text));
    let start = declared_document(declared, base)->Ok_0;
    let begun = DocumentView { facts: start.facts + stream_facts(ms.len()), ..start };
    lemma_prefixes_from(begun, declared, ms, 0, base, prefix);
}

proof fn lemma_prefixes_from(
    doc: DocumentView,
    declared: Seq<char>,
    ms: Seq<Seq<char>>,
    from: int,
    base: Option<Seq<char>>,
    prefix: Seq<char>,
)
    requires
        0 <= from <= ms.len(),
        with_messages(doc, declared, ms, from, base) is Ok,
    ensures
        ({
            let r = with_messages(doc, declared, ms, from, base)->Ok_0;
            &&& forall|k: int|
                from < k && #[trigger] declares(declared, ms, k, base, prefix) && (forall|j: int|
                    k < j <= ms.len() ==> !#[trigger] declares(declared, ms, j, base, prefix))
                    ==> r.prefixes.contains_key(prefix) && r.prefixes[prefix] == n3(
                    message_text(declared, ms[k - 1], k as nat),
                    base,
                )->Ok_0.prefixes[prefix]
            &&& (forall|j: int|
                from < j <= ms.len() ==> !#[trigger] declares(declared, ms, j, base, prefix)) ==> (
            r.prefixes.contains_key(prefix) <==> doc.prefixes.contains_key(prefix)) && (
            doc.prefixes.contains_key(prefix) ==> r.prefixes[prefix] == doc.prefixes[prefix])
        }),
    decreases ms.len() - from,
{
    if from < ms.len() {
        let k = from + 1;
        let next = with_message(doc, declared, ms[from], k as nat, ms.len(), base)->Ok_0;
        law_messages_are_texts(declared, ms[from], k as nat, base);
        lemma_prefixes_from(next, declared, ms, k, base, prefix);
        assert(declares(declared, ms, k, base, prefix) ==> next.prefixes.contains_key(prefix)
            && next.prefixes[prefix] == n3(
            message_text(declared, ms[from], k as nat),
            base,
        )->Ok_0.prefixes[prefix]);
        assert(!declares(declared, ms, k, base, prefix) ==> (next.prefixes.contains_key(prefix)
            <==> doc.prefixes.contains_key(prefix)) && (doc.prefixes.contains_key(prefix)
            ==> next.prefixes[prefix] == doc.prefixes[prefix]));
    }
}

/// A character that may stand in a blank node label: a letter, a digit, `_` or `-`.
pub open spec fn in_label(c: char) -> bool {
    'a' <= c <= 'z' || 'A' <= c <= 'Z' || '0' <= c <= '9' || c == '_' || c == '-'
}

/// Outside strings and comments, the blank node label behind `_:` is put behind `m`, the number of
/// the message and `_`. It ends where the first character stands that no label holds. Without a
/// label `_:` stays.
pub proof fn law_labels_are_marked(s: Seq<char>, i: int, end: int, k: nat)
    requires
        0 <= i,
        i + 2 <= end <= s.len(),
        s[i] == '_' && s[i + 1] == ':',
        forall|j: int| i + 2 <= j < end ==> in_label(#[trigger] s[j]),
        end < s.len() ==> !in_label(s[end]),
    ensures
        end > i + 2 ==> marked_from(s, i, k) == "_:m"@ + decimal(k) + "_"@ + s.subrange(i + 2, end)
            + marked_from(s, end, k),
        end == i + 2 ==> marked_from(s, i, k) == seq!['_', ':'] + marked_from(s, end, k),
{
    lemma_scan_bounds(s, i + 2, label_chars());
    let found = scan(s, i + 2, label_chars());
    if found < end {
        assert(in_label(s[found]));
    }
    if found > end {
        assert(label_chars()(s[end]));
    }
    reveal_strlit("_:");
    if end == i + 2 {
        assert(marked_from(s, i, k) =~= seq!['_', ':'] + marked_from(s, end, k));
    }
}

/// A comment stays as it is, up to the end of its line.
pub proof fn law_comments_are_not_marked(s: Seq<char>, i: int, end: int, k: nat)
    requires
        0 <= i < end <= s.len(),
        s[i] == '#',
        forall|j: int| i < j < end ==> #[trigger] s[j] != '\n',
        end < s.len() ==> s[end] == '\n',
    ensures
        end < s.len() ==> marked_from(s, i, k) == s.subrange(i, end + 1) + marked_from(
            s,
            end + 1,
            k,
        ),
        end == s.len() ==> marked_from(s, i, k) == s.subrange(i, end),
{
    lemma_scan_bounds(s, i + 1, other_than('\n'));
    let found = scan(s, i + 1, other_than('\n'));
    if found < end {
        assert(s[found] == '\n');
    }
    if end == s.len() {
        assert(found == end);
        assert(marked_from(s, end, k) == Seq::<char>::empty());
        assert(s.subrange(i, end) + Seq::<char>::empty() =~= s.subrange(i, end));
    }
}

/// The places from `i` up to `end` are the contents of a string that is still open: no quote stands
/// among them that is not behind a backslash. Each of `steps` is one character, or a backslash and
/// the character behind it.
pub open spec fn stays_open(s: Seq<char>, steps: Seq<int>, quote: char) -> bool {
    &&& steps.len() > 0
    &&& 0 <= steps[0]
    &&& forall|j: int|
        0 <= j < steps.len() - 1 ==> {
            let at = #[trigger] steps[j];
            &&& 0 <= at < s.len()
            &&& s[at] != '\\' ==> s[at] != quote && steps[j + 1] == at + 1
            &&& s[at] == '\\' ==> at + 2 <= s.len() && steps[j + 1] == at + 2
        }
}

/// A string ends behind the first quote of its kind that is not behind a backslash, and at the end
/// of the text if there is none.
pub proof fn law_ends_of_strings(s: Seq<char>, steps: Seq<int>, quote: char)
    requires
        stays_open(s, steps, quote),
        quote != '\\',
    ensures
        steps.last() < s.len() && s[steps.last()] == quote ==> string_end(s, steps[0], quote)
            == steps.last() + 1,
        steps.last() == s.len() ==> string_end(s, steps[0], quote) == s.len(),
        steps.last() == s.len() - 1 && s[steps.last()] == '\\' ==> string_end(s, steps[0], quote)
            == s.len(),
    decreases steps.len(),
{
    if steps.len() > 1 {
        let more = steps.subrange(1, steps.len() as int);
        assert forall|j: int| 0 <= j < more.len() - 1 implies {
            let at = #[trigger] more[j];
            &&& 0 <= at < s.len()
            &&& s[at] != '\\' ==> s[at] != quote && more[j + 1] == at + 1
            &&& s[at] == '\\' ==> at + 2 <= s.len() && more[j + 1] == at + 2
        } by {
            assert(more[j] == steps[j + 1]);
        }
        assert(0 <= steps[0] < s.len());
        law_ends_of_strings(s, more, quote);
    }
}

/// A string stays as it is, and so does every character outside strings, comments and labels.
pub proof fn law_what_is_not_marked(s: Seq<char>, i: int, k: nat)
    requires
        0 <= i <= s.len(),
    ensures
        i == s.len() ==> marked_from(s, i, k) == Seq::<char>::empty(),
        i < s.len() && (s[i] == '"' || s[i] == '\'') ==> marked_from(s, i, k) == s.subrange(
            i,
            string_end(s, i + 1, s[i]),
        ) + marked_from(s, string_end(s, i + 1, s[i]), k),
        i < s.len() && s[i] != '"' && s[i] != '\'' && s[i] != '#' && !(s[i] == '_' && i + 1
            < s.len() && s[i + 1] == ':') ==> marked_from(s, i, k) == seq![s[i]] + marked_from(
            s,
            i + 1,
            k,
        ),
        marked(s, k) == marked_from(s, 0, k),
{
}

} // verus!
