//! What holds of message logs and their replays.
use crate::ast::{triple, DocumentView, TermView, TripleView};
use crate::error::ErrorView;
use crate::grammar::{fresh_label, n3, statements, Cursor};
use crate::joining::{behind, law_texts_join};
use crate::lexer::lex_text;
use crate::message_log::{
    comment_end, declarations, declared_document, directive, envelope, envelope_facts, envelopes,
    ey, is_empty_message, is_message_log, lemma_string_end, line_kind, log, marked, marked_from,
    marked_label, message_document, messages, payload, payload_facts, rdf_type, replay, stream,
    stream_facts, string_end, with_message, with_messages, LineKind,
};
use crate::moving::{moved_document, moved_error};
use crate::reading_laws::law_declarations_stay;
use crate::text::{
    decimal, is_digit, is_space, lemma_decimal_injective, lemma_decimal_nonempty, lemma_scan_bounds,
    lines, other_than, trim, trim_end, trim_start,
};
use vstd::prelude::*;

verus! {

/// A log holds one message more than it has delimiter lines.
pub proof fn law_message_count(ls: Seq<Seq<char>>)
    ensures
        messages(ls).len() == 1 + ls.filter(|l: Seq<char>| line_kind(l) is Delimiter).len(),
    decreases ls.len(),
{
    reveal(Seq::filter);
    if ls.len() > 0 {
        law_message_count(ls.drop_last());
    }
}

/// The lines of content, each with a line feed behind it.
pub open spec fn content(ls: Seq<Seq<char>>) -> Seq<char>
    decreases ls.len(),
{
    if ls.len() == 0 {
        Seq::empty()
    } else if line_kind(ls.last()) is Content {
        content(ls.drop_last()) + ls.last().push('\n')
    } else {
        content(ls.drop_last())
    }
}

/// Texts one behind the other.
pub open spec fn joined(parts: Seq<Seq<char>>) -> Seq<char>
    decreases parts.len(),
{
    if parts.len() == 0 {
        Seq::empty()
    } else {
        joined(parts.drop_last()) + parts.last()
    }
}

/// The messages of a log hold all its lines of content in their order, and nothing else.
pub proof fn law_messages_hold_the_content(ls: Seq<Seq<char>>)
    ensures
        joined(messages(ls)) == content(ls),
    decreases ls.len(),
{
    if ls.len() == 0 {
        reveal_with_fuel(joined, 2);
        assert(joined(messages(ls)) =~= Seq::empty());
    } else {
        let before = messages(ls.drop_last());
        law_messages_hold_the_content(ls.drop_last());
        law_message_count(ls.drop_last());
        match line_kind(ls.last()) {
            LineKind::Content => {
                let line = ls.last().push('\n');
                let now = before.drop_last().push(before.last() + line);
                assert(now.drop_last() =~= before.drop_last());
                assert(joined(now) =~= joined(before) + line);
            },
            LineKind::Delimiter => {
                assert(before.push(Seq::empty()).drop_last() =~= before);
                assert(joined(before.push(Seq::empty())) =~= joined(before));
            },
            _ => {},
        }
    }
}

/// A text that holds more than one message is a message log.
pub proof fn law_delimited_text_is_a_log(text: Seq<char>)
    requires
        messages(lines(text)).len() > 1,
    ensures
        is_message_log(text),
{
    let i = lemma_delimiter(lines(text));
    assert(trim(lines(text)[i]) == "MESSAGE"@);
}

/// Where there is more than one message, some line delimits.
proof fn lemma_delimiter(ls: Seq<Seq<char>>) -> (i: int)
    requires
        messages(ls).len() > 1,
    ensures
        0 <= i < ls.len(),
        line_kind(ls[i]) is Delimiter,
    decreases ls.len(),
{
    if line_kind(ls.last()) is Delimiter {
        ls.len() - 1
    } else {
        law_message_count(ls.drop_last());
        lemma_delimiter(ls.drop_last())
    }
}

/// Whether message `k` can be replayed: it is empty, or its text can be read.
pub open spec fn readable(
    declared: Seq<char>,
    ms: Seq<Seq<char>>,
    k: int,
    base: Option<Seq<char>>,
) -> bool {
    is_empty_message(ms[k - 1]) || message_document(declared, ms[k - 1], k as nat, base) is Ok
}

/// The graph of message `k`, unless it is empty.
pub open spec fn graph(
    declared: Seq<char>,
    ms: Seq<Seq<char>>,
    k: int,
    base: Option<Seq<char>>,
) -> Option<Seq<TripleView>> {
    if is_empty_message(ms[k - 1]) {
        None
    } else {
        Some(message_document(declared, ms[k - 1], k as nat, base)->Ok_0.facts)
    }
}

/// What a replay says of message `k`.
pub open spec fn message_facts(
    declared: Seq<char>,
    ms: Seq<Seq<char>>,
    k: int,
    base: Option<Seq<char>>,
) -> Seq<TripleView> {
    envelope_facts(k as nat, ms.len()) + payload_facts(k as nat, graph(declared, ms, k, base))
}

/// What a replay says of the messages from number `k` on.
pub open spec fn facts_from(
    declared: Seq<char>,
    ms: Seq<Seq<char>>,
    k: int,
    base: Option<Seq<char>>,
) -> Seq<TripleView>
    decreases ms.len() + 1 - k,
{
    if k < 1 || k > ms.len() {
        Seq::empty()
    } else {
        message_facts(declared, ms, k, base) + facts_from(declared, ms, k + 1, base)
    }
}

/// What the messages from index `i` on add to a replay.
proof fn lemma_messages_add(
    doc: DocumentView,
    declared: Seq<char>,
    ms: Seq<Seq<char>>,
    i: int,
    base: Option<Seq<char>>,
)
    requires
        0 <= i <= ms.len(),
        with_messages(doc, declared, ms, i, base) is Ok,
    ensures
        ({
            let r = with_messages(doc, declared, ms, i, base)->Ok_0;
            &&& r.facts == doc.facts + facts_from(declared, ms, i + 1, base)
            &&& r.rules == doc.rules
            &&& r.base_iri == doc.base_iri
            &&& doc.prefixes.dom().subset_of(r.prefixes.dom())
        }),
    decreases ms.len() - i,
{
    if i < ms.len() {
        let k = i + 1;
        let next = with_message(doc, declared, ms[i], k as nat, ms.len(), base)->Ok_0;
        assert(next.facts =~= doc.facts + message_facts(declared, ms, k, base));
        lemma_messages_add(next, declared, ms, k, base);
        assert(doc.facts + message_facts(declared, ms, k, base) + facts_from(
            declared,
            ms,
            k + 1,
            base,
        ) =~= doc.facts + facts_from(declared, ms, k, base));
    } else {
        assert(doc.facts + Seq::<TripleView>::empty() =~= doc.facts);
    }
}

/// Empty messages add no prefixes, and can always be replayed.
proof fn lemma_empty_messages(
    doc: DocumentView,
    declared: Seq<char>,
    ms: Seq<Seq<char>>,
    i: int,
    base: Option<Seq<char>>,
)
    requires
        0 <= i <= ms.len(),
        forall|j: int| i <= j < ms.len() ==> is_empty_message(#[trigger] ms[j]),
    ensures
        with_messages(doc, declared, ms, i, base) matches Ok(r) && r.prefixes == doc.prefixes,
    decreases ms.len() - i,
{
    if i < ms.len() {
        let next = with_message(doc, declared, ms[i], (i + 1) as nat, ms.len(), base)->Ok_0;
        lemma_empty_messages(next, declared, ms, i + 1, base);
    }
}

/// The error of the first message from number `from` on that cannot be read.
pub open spec fn first_failure(
    declared: Seq<char>,
    ms: Seq<Seq<char>>,
    from: int,
    base: Option<Seq<char>>,
    e: ErrorView,
) -> bool {
    exists|k: int|
        {
            &&& from <= k <= ms.len()
            &&& !(#[trigger] readable(declared, ms, k, base))
            &&& message_document(declared, ms[k - 1], k as nat, base) == Err::<
                DocumentView,
                ErrorView,
            >(e)
            &&& forall|j: int| from <= j < k ==> #[trigger] readable(declared, ms, j, base)
        }
}

/// The messages from index `i` on can be replayed if each of them can.
proof fn lemma_messages_succeed(
    doc: DocumentView,
    declared: Seq<char>,
    ms: Seq<Seq<char>>,
    i: int,
    base: Option<Seq<char>>,
)
    requires
        0 <= i <= ms.len(),
    ensures
        match with_messages(doc, declared, ms, i, base) {
            Ok(_) => forall|k: int|
                i + 1 <= k <= ms.len() ==> #[trigger] readable(declared, ms, k, base),
            Err(e) => first_failure(declared, ms, i + 1, base, e),
        },
    decreases ms.len() - i,
{
    if i < ms.len() {
        let k = i + 1;
        match with_message(doc, declared, ms[i], k as nat, ms.len(), base) {
            Ok(next) => {
                assert(readable(declared, ms, k, base));
                lemma_messages_succeed(next, declared, ms, k, base);
                if let Err(e) = with_messages(next, declared, ms, k, base) {
                    let failed = choose|j: int|
                        {
                            &&& k + 1 <= j <= ms.len()
                            &&& !(#[trigger] readable(declared, ms, j, base))
                            &&& message_document(declared, ms[j - 1], j as nat, base) == Err::<
                                DocumentView,
                                ErrorView,
                            >(e)
                            &&& forall|h: int|
                                k + 1 <= h < j ==> #[trigger] readable(declared, ms, h, base)
                        };
                    assert(!readable(declared, ms, failed, base));
                }
            },
            Err(e) => {
                assert(!readable(declared, ms, k, base));
            },
        }
    }
}

/// A replay says of the stream that it is one, in which order its envelopes come and which is the
/// first one, then of each message in order what holds of it, and nothing else. Messages add no
/// rules and change no base; prefixes that are declared for all messages stay declared.
pub proof fn law_replay(text: Seq<char>, base: Option<Seq<char>>)
    ensures
        ({
            let declared = declarations(lines(text));
            let ms = messages(lines(text));
            match replay(text, base) {
                Ok(doc) => {
                    &&& declared_document(declared, base) matches Ok(start)
                    &&& doc.facts == stream_facts(ms.len()) + facts_from(declared, ms, 1, base)
                    &&& doc.rules == start.rules
                    &&& doc.base_iri == start.base_iri
                    &&& start.prefixes.dom().subset_of(doc.prefixes.dom())
                },
                Err(_) => true,
            }
        }),
{
    let declared = declarations(lines(text));
    let ms = messages(lines(text));
    if let Ok(start) = declared_document(declared, base) {
        assert(start.facts =~= Seq::empty()) by {
            reveal(declared_document);
        }
        let begun = DocumentView { facts: start.facts + stream_facts(ms.len()), ..start };
        if replay(text, base) is Ok {
            lemma_messages_add(begun, declared, ms, 0, base);
        }
        assert(begun.facts =~= stream_facts(ms.len()));
    }
}

/// A log can be replayed exactly if its declarations can be read and every message is empty or
/// can be read. Else the error is that of the declarations, or that of the first message that
/// cannot be read.
pub proof fn law_replay_succeeds(text: Seq<char>, base: Option<Seq<char>>)
    ensures
        ({
            let declared = declarations(lines(text));
            let ms = messages(lines(text));
            &&& replay(text, base) is Ok <==> declared_document(declared, base) is Ok && forall|
                k: int,
            |
                1 <= k <= ms.len() ==> #[trigger] readable(declared, ms, k, base)
            &&& replay(text, base) matches Err(e) ==> declared_document(declared, base) == Err::<
                DocumentView,
                ErrorView,
            >(e) || declared_document(declared, base) is Ok && first_failure(
                declared,
                ms,
                1,
                base,
                e,
            )
        }),
{
    let declared = declarations(lines(text));
    let ms = messages(lines(text));
    if let Ok(start) = declared_document(declared, base) {
        let begun = DocumentView { facts: start.facts + stream_facts(ms.len()), ..start };
        lemma_messages_succeed(begun, declared, ms, 0, base);
    }
}

/// The prefixes of a log without any but empty messages are those that it declares.
pub proof fn law_declared_prefixes_are_seeded(text: Seq<char>, base: Option<Seq<char>>)
    requires
        forall|i: int|
            0 <= i < messages(lines(text)).len() ==> is_empty_message(
                #[trigger] messages(lines(text))[i],
            ),
    ensures
        match declared_document(declarations(lines(text)), base) {
            Ok(start) => replay(text, base) matches Ok(doc) && doc.prefixes == start.prefixes,
            Err(e) => replay(text, base) == Err::<DocumentView, ErrorView>(e),
        },
{
    let declared = declarations(lines(text));
    let ms = messages(lines(text));
    if let Ok(start) = declared_document(declared, base) {
        let begun = DocumentView { facts: start.facts + stream_facts(ms.len()), ..start };
        lemma_empty_messages(begun, declared, ms, 0, base);
    }
}

/// What is said of the messages from number `from` on is what is said of one of them.
proof fn lemma_facts_from(
    declared: Seq<char>,
    ms: Seq<Seq<char>>,
    from: int,
    base: Option<Seq<char>>,
    t: TripleView,
)
    requires
        1 <= from <= ms.len() + 1,
    ensures
        facts_from(declared, ms, from, base).contains(t) <==> exists|k: int|
            from <= k <= ms.len() && #[trigger] message_facts(declared, ms, k, base).contains(t),
    decreases ms.len() + 1 - from,
{
    if from <= ms.len() {
        lemma_facts_from(declared, ms, from + 1, base, t);
        let first = message_facts(declared, ms, from, base);
        let rest = facts_from(declared, ms, from + 1, base);
        if first.contains(t) {
            let i = choose|i: int| 0 <= i < first.len() && first[i] == t;
            assert((first + rest)[i] == t);
        }
        if rest.contains(t) {
            let i = choose|i: int| 0 <= i < rest.len() && rest[i] == t;
            assert((first + rest)[first.len() + i] == t);
        }
        if (first + rest).contains(t) {
            let i = choose|i: int| 0 <= i < (first + rest).len() && (first + rest)[i] == t;
            if i < first.len() {
                assert(first[i] == t);
            } else {
                assert(rest[i - first.len()] == t);
            }
        }
    }
}

/// A replay says something exactly if it says it of the stream or of one of the messages.
pub proof fn law_replay_says(text: Seq<char>, base: Option<Seq<char>>, t: TripleView)
    ensures
        ({
            let declared = declarations(lines(text));
            let ms = messages(lines(text));
            replay(text, base) matches Ok(doc) ==> (doc.facts.contains(t) <==> stream_facts(
                ms.len(),
            ).contains(t) || exists|k: int|
                1 <= k <= ms.len() && #[trigger] message_facts(declared, ms, k, base).contains(t))
        }),
{
    let declared = declarations(lines(text));
    let ms = messages(lines(text));
    law_replay(text, base);
    law_message_count(lines(text));
    lemma_facts_from(declared, ms, 1, base, t);
    let a = stream_facts(ms.len());
    let b = facts_from(declared, ms, 1, base);
    if a.contains(t) {
        let i = choose|i: int| 0 <= i < a.len() && a[i] == t;
        assert((a + b)[i] == t);
    }
    if b.contains(t) {
        let i = choose|i: int| 0 <= i < b.len() && b[i] == t;
        assert((a + b)[a.len() + i] == t);
    }
    if (a + b).contains(t) {
        let i = choose|i: int| 0 <= i < (a + b).len() && (a + b)[i] == t;
        if i < a.len() {
            assert(a[i] == t);
        } else {
            assert(b[i - a.len()] == t);
        }
    }
}

/// The envelopes of different messages differ, and so do their payload graphs; no envelope is a
/// payload graph.
pub proof fn law_envelopes_differ(j: nat, k: nat)
    ensures
        envelope(j) == envelope(k) ==> j == k,
        payload(j) == payload(k) ==> j == k,
        envelope(j) != payload(k),
{
    let e = "urn:eyeron:rdf-message-stream:1:envelope:"@;
    let p = "urn:eyeron:rdf-message-stream:1:payload:"@;
    reveal_strlit("urn:eyeron:rdf-message-stream:1:envelope:");
    reveal_strlit("urn:eyeron:rdf-message-stream:1:payload:");
    assert((e + decimal(j)).skip(e.len() as int) =~= decimal(j));
    assert((e + decimal(k)).skip(e.len() as int) =~= decimal(k));
    assert((p + decimal(j)).skip(p.len() as int) =~= decimal(j));
    assert((p + decimal(k)).skip(p.len() as int) =~= decimal(k));
    if envelope(j) == envelope(k) || payload(j) == payload(k) {
        lemma_decimal_injective(j, k);
    }
    assert((e + decimal(j))[32] == 'e');
    assert((p + decimal(k))[32] == 'p');
}

/// Names of the vocabulary for message streams differ where what follows the number sign does.
proof fn lemma_ey(a: Seq<char>, b: Seq<char>)
    requires
        a != b,
    ensures
        ey(a) != ey(b),
{
    let v = "https://eyereasoner.github.io/eyeling/vocab/message#"@;
    assert((v + a).skip(v.len() as int) =~= a);
    assert((v + b).skip(v.len() as int) =~= b);
}

/// A name of the vocabulary for message streams is none of the others that a replay uses.
proof fn lemma_not_ey(a: Seq<char>)
    ensures
        ey(a) != rdf_type(),
        ey(a) != log("nameOf"@),
        rdf_type() != log("nameOf"@),
{
    let v = "https://eyereasoner.github.io/eyeling/vocab/message#"@;
    let w = "http://www.w3.org/2000/10/swap/log#"@;
    reveal_strlit("https://eyereasoner.github.io/eyeling/vocab/message#");
    reveal_strlit("http://www.w3.org/2000/10/swap/log#");
    reveal_strlit("http://www.w3.org/1999/02/22-rdf-syntax-ns#type");
    assert((v + a)[4] == 's');
    assert((w + "nameOf"@)[4] == ':');
    assert((w + "nameOf"@)[18] == '2');
}

proof fn lemma_names()
    ensures
        ey("nextEnvelope"@) != ey("envelope"@),
        ey("nextEnvelope"@) != ey("offset"@),
        ey("nextEnvelope"@) != ey("payloadKind"@),
        ey("nextEnvelope"@) != ey("payloadGraph"@),
        ey("nextEnvelope"@) != ey("orderedEnvelopes"@),
        ey("nextEnvelope"@) != ey("firstEnvelope"@),
        ey("payloadKind"@) != ey("envelope"@),
        ey("payloadKind"@) != ey("offset"@),
        ey("payloadKind"@) != ey("payloadGraph"@),
        ey("payloadKind"@) != ey("orderedEnvelopes"@),
        ey("payloadKind"@) != ey("firstEnvelope"@),
        ey("empty"@) != ey("nonEmpty"@),
{
    reveal_strlit("nextEnvelope");
    reveal_strlit("envelope");
    reveal_strlit("offset");
    reveal_strlit("payloadKind");
    reveal_strlit("payloadGraph");
    reveal_strlit("orderedEnvelopes");
    reveal_strlit("firstEnvelope");
    reveal_strlit("empty");
    reveal_strlit("nonEmpty");
    assert("nextEnvelope"@[0] == 'n');
    assert("payloadGraph"@[0] == 'p');
    lemma_ey("nextEnvelope"@, "envelope"@);
    lemma_ey("nextEnvelope"@, "offset"@);
    lemma_ey("nextEnvelope"@, "payloadKind"@);
    lemma_ey("nextEnvelope"@, "payloadGraph"@);
    lemma_ey("nextEnvelope"@, "orderedEnvelopes"@);
    lemma_ey("nextEnvelope"@, "firstEnvelope"@);
    lemma_ey("payloadKind"@, "envelope"@);
    lemma_ey("payloadKind"@, "offset"@);
    lemma_ey("payloadKind"@, "payloadGraph"@);
    lemma_ey("payloadKind"@, "orderedEnvelopes"@);
    lemma_ey("payloadKind"@, "firstEnvelope"@);
    lemma_ey("empty"@, "nonEmpty"@);
}

/// What is said of message `h` of `n` with a given graph.
spec fn facts_of(h: nat, n: nat, graph: Option<Seq<TripleView>>) -> Seq<TripleView> {
    envelope_facts(h, n) + payload_facts(h, graph)
}

proof fn lemma_links(h: nat, n: nat, graph: Option<Seq<TripleView>>, j: nat, k: nat)
    requires
        1 <= h <= n,
    ensures
        facts_of(h, n, graph).contains(triple(envelope(j), ey("nextEnvelope"@), envelope(k)))
            <==> h == j && h < n && k == j + 1,
{
    let t = triple(envelope(j), ey("nextEnvelope"@), envelope(k));
    let said = facts_of(h, n, graph);
    lemma_names();
    lemma_not_ey("nextEnvelope"@);
    law_envelopes_differ(h, j);
    law_envelopes_differ(h + 1, k);
    assert(said[0].predicate == ey("envelope"@));
    assert(said[1].predicate == rdf_type());
    assert(said[2].predicate == ey("offset"@));
    if h < n {
        assert(said[3] == triple(envelope(h), ey("nextEnvelope"@), envelope(h + 1)));
        assert(said[4].predicate == ey("payloadKind"@));
    } else {
        assert(said[3].predicate == ey("payloadKind"@));
    }
    if said.contains(t) {
        let i = choose|i: int| 0 <= i < said.len() && said[i] == t;
        assert(i == 3 && h < n);
    }
}

/// In a replay the envelope of each message but the last one has a link to that of the next
/// message, and there are no other such links.
pub proof fn law_next_envelope(text: Seq<char>, base: Option<Seq<char>>, j: nat, k: nat)
    requires
        replay(text, base) is Ok,
    ensures
        replay(text, base)->Ok_0.facts.contains(
            triple(envelope(j), ey("nextEnvelope"@), envelope(k)),
        ) <==> 1 <= j < messages(lines(text)).len() && k == j + 1,
{
    let declared = declarations(lines(text));
    let ms = messages(lines(text));
    let n = ms.len();
    let t = triple(envelope(j), ey("nextEnvelope"@), envelope(k));
    law_replay_says(text, base, t);
    assert(!stream_facts(n).contains(t)) by {
        lemma_names();
        lemma_not_ey("nextEnvelope"@);
    }
    assert forall|h: int| 1 <= h <= n implies (#[trigger] message_facts(
        declared,
        ms,
        h,
        base,
    ).contains(t) <==> h == j && j < n && k == j + 1) by {
        lemma_links(h as nat, n, graph(declared, ms, h, base), j, k);
    }
    if 1 <= j < n {
        assert(message_facts(declared, ms, j as int, base).contains(t) <==> k == j + 1);
    }
}

proof fn lemma_payload(h: nat, n: nat, graph: Option<Seq<TripleView>>, k: nat)
    requires
        1 <= h <= n,
    ensures
        facts_of(h, n, graph).contains(triple(envelope(k), ey("payloadKind"@), ey("empty"@)))
            <==> h == k && graph is None,
        facts_of(h, n, graph).contains(triple(envelope(k), ey("payloadKind"@), ey("nonEmpty"@)))
            <==> h == k && graph is Some,
{
    let empty = triple(envelope(k), ey("payloadKind"@), ey("empty"@));
    let full = triple(envelope(k), ey("payloadKind"@), ey("nonEmpty"@));
    let said = facts_of(h, n, graph);
    let first = envelope_facts(h, n).len() as int;
    lemma_names();
    lemma_not_ey("payloadKind"@);
    law_envelopes_differ(h, k);
    assert(said[0].predicate == ey("envelope"@));
    assert(said[1].predicate == rdf_type());
    assert(said[2].predicate == ey("offset"@));
    assert(h < n ==> said[3].predicate == ey("nextEnvelope"@));
    assert(said[first] == payload_facts(h, graph)[0]);
    if graph is Some {
        assert(said[first + 1].predicate == ey("payloadGraph"@));
        assert(said[first + 2].predicate == log("nameOf"@));
    }
    if said.contains(empty) {
        let i = choose|i: int| 0 <= i < said.len() && said[i] == empty;
        assert(i == first);
    }
    if said.contains(full) {
        let i = choose|i: int| 0 <= i < said.len() && said[i] == full;
        assert(i == first);
    }
}

/// In a replay the payload of a message is said to be empty exactly if no line of the message
/// says anything, and else not to be empty.
pub proof fn law_payload_kind(text: Seq<char>, base: Option<Seq<char>>, k: nat)
    requires
        replay(text, base) is Ok,
    ensures
        replay(text, base)->Ok_0.facts.contains(
            triple(envelope(k), ey("payloadKind"@), ey("empty"@)),
        ) <==> 1 <= k <= messages(lines(text)).len() && is_empty_message(
            messages(lines(text))[k - 1],
        ),
        replay(text, base)->Ok_0.facts.contains(
            triple(envelope(k), ey("payloadKind"@), ey("nonEmpty"@)),
        ) <==> 1 <= k <= messages(lines(text)).len() && !is_empty_message(
            messages(lines(text))[k - 1],
        ),
{
    let declared = declarations(lines(text));
    let ms = messages(lines(text));
    let n = ms.len();
    let empty = triple(envelope(k), ey("payloadKind"@), ey("empty"@));
    let full = triple(envelope(k), ey("payloadKind"@), ey("nonEmpty"@));
    law_replay_says(text, base, empty);
    law_replay_says(text, base, full);
    assert(!stream_facts(n).contains(empty) && !stream_facts(n).contains(full)) by {
        lemma_names();
        lemma_not_ey("payloadKind"@);
    }
    assert forall|h: int| 1 <= h <= n implies {
        let said = #[trigger] message_facts(declared, ms, h, base);
        &&& said.contains(empty) <==> h == k && is_empty_message(ms[k - 1])
        &&& said.contains(full) <==> h == k && !is_empty_message(ms[k - 1])
    } by {
        lemma_payload(h as nat, n, graph(declared, ms, h, base), k);
    }
    if 1 <= k <= n {
        let said = message_facts(declared, ms, k as int, base);
        assert(said.contains(empty) <==> is_empty_message(ms[k - 1]));
        assert(said.contains(full) <==> !is_empty_message(ms[k - 1]));
    }
}

proof fn lemma_graph(
    h: nat,
    n: nat,
    graph: Option<Seq<TripleView>>,
    k: nat,
    quoted: Seq<TripleView>,
)
    requires
        1 <= h <= n,
    ensures
        facts_of(h, n, graph).contains(
            triple(payload(k), log("nameOf"@), TermView::Formula(quoted)),
        ) <==> h == k && graph == Some(quoted),
{
    let t = triple(payload(k), log("nameOf"@), TermView::Formula(quoted));
    let said = facts_of(h, n, graph);
    let first = envelope_facts(h, n).len() as int;
    lemma_not_ey("envelope"@);
    lemma_not_ey("offset"@);
    lemma_not_ey("nextEnvelope"@);
    lemma_not_ey("payloadKind"@);
    lemma_not_ey("payloadGraph"@);
    law_envelopes_differ(h, k);
    assert(said[0].predicate == ey("envelope"@));
    assert(said[1].predicate == rdf_type());
    assert(said[2].predicate == ey("offset"@));
    assert(h < n ==> said[3].predicate == ey("nextEnvelope"@));
    assert(said[first].predicate == ey("payloadKind"@));
    if let Some(g) = graph {
        assert(said[first + 1].predicate == ey("payloadGraph"@));
        assert(said[first + 2] == triple(payload(h), log("nameOf"@), TermView::Formula(g)));
    }
    if said.contains(t) {
        let i = choose|i: int| 0 <= i < said.len() && said[i] == t;
        assert(i == first + 2);
    }
}

/// In a replay the payload graph of a message that is not empty is the name of the formula with
/// the triples that the message says on its own, and of no other formula. An empty message has no
/// payload graph.
pub proof fn law_payload_graph(
    text: Seq<char>,
    base: Option<Seq<char>>,
    k: nat,
    quoted: Seq<TripleView>,
)
    requires
        replay(text, base) is Ok,
    ensures
        replay(text, base)->Ok_0.facts.contains(
            triple(payload(k), log("nameOf"@), TermView::Formula(quoted)),
        ) <==> {
            &&& 1 <= k <= messages(lines(text)).len()
            &&& !is_empty_message(messages(lines(text))[k - 1])
            &&& message_document(
                declarations(lines(text)),
                messages(lines(text))[k - 1],
                k,
                base,
            ) matches Ok(said) && said.facts == quoted
        },
{
    let declared = declarations(lines(text));
    let ms = messages(lines(text));
    let n = ms.len();
    let t = triple(payload(k), log("nameOf"@), TermView::Formula(quoted));
    law_replay_says(text, base, t);
    law_replay_succeeds(text, base);
    assert(!stream_facts(n).contains(t)) by {
        lemma_not_ey("orderedEnvelopes"@);
        lemma_not_ey("firstEnvelope"@);
    }
    assert forall|h: int| 1 <= h <= n implies (#[trigger] message_facts(
        declared,
        ms,
        h,
        base,
    ).contains(t) <==> h == k && graph(declared, ms, h, base) == Some(quoted)) by {
        lemma_graph(h as nat, n, graph(declared, ms, h, base), k, quoted);
    }
    if 1 <= k <= n {
        assert(readable(declared, ms, k as int, base));
        assert(message_facts(declared, ms, k as int, base).contains(t) <==> graph(
            declared,
            ms,
            k as int,
            base,
        ) == Some(quoted));
    }
}

/// The list of envelopes of a stream has one entry for each message, in their order.
pub proof fn law_ordered_envelopes(text: Seq<char>, base: Option<Seq<char>>)
    requires
        replay(text, base) is Ok,
    ensures
        ({
            let ms = messages(lines(text));
            let all = envelopes(ms.len());
            &&& replay(text, base)->Ok_0.facts.contains(
                triple(stream(), ey("orderedEnvelopes"@), TermView::List(all)),
            )
            &&& replay(text, base)->Ok_0.facts.contains(
                triple(stream(), ey("firstEnvelope"@), all[0]),
            )
            &&& all.len() == ms.len()
            &&& forall|i: int| 0 <= i < all.len() ==> #[trigger] all[i] == envelope((i + 1) as nat)
            &&& forall|i: int, j: int| 0 <= i < j < all.len() ==> all[i] != all[j]
        }),
{
    let n = messages(lines(text)).len();
    let all = envelopes(n);
    let listed = triple(stream(), ey("orderedEnvelopes"@), TermView::List(all));
    let first = triple(stream(), ey("firstEnvelope"@), all[0]);
    law_message_count(lines(text));
    law_replay_says(text, base, listed);
    law_replay_says(text, base, first);
    assert(stream_facts(n)[1] == listed);
    assert(stream_facts(n)[2] == first);
    assert forall|i: int, j: int| 0 <= i < j < all.len() implies all[i] != all[j] by {
        law_envelopes_differ((i + 1) as nat, (j + 1) as nat);
    }
}

/// Labels that are marked as those of different messages differ, and so do different labels of
/// one message.
pub proof fn law_marked_labels_differ(j: nat, a: Seq<char>, k: nat, b: Seq<char>)
    requires
        marked_label(j, a) == marked_label(k, b),
    ensures
        j == k,
        a == b,
{
    let x = marked_label(j, a);
    let y = marked_label(k, b);
    reveal_strlit("_:m");
    reveal_strlit("_");
    lemma_decimal_nonempty(j);
    lemma_decimal_nonempty(k);
    let m = decimal(j).len() as int;
    let n = decimal(k).len() as int;
    assert(x[3 + m] == '_' && y[3 + n] == '_');
    assert(forall|i: int| 0 <= i < m ==> x[3 + i] == #[trigger] decimal(j)[i]);
    assert(forall|i: int| 0 <= i < n ==> y[3 + i] == #[trigger] decimal(k)[i]);
    if m < n {
        assert(is_digit(decimal(k)[m]));
    }
    if n < m {
        assert(is_digit(decimal(j)[n]));
    }
    assert(x.subrange(3, 3 + m) =~= decimal(j));
    assert(y.subrange(3, 3 + n) =~= decimal(k));
    lemma_decimal_injective(j, k);
    assert(x.skip(4 + m) =~= a);
    assert(y.skip(4 + n) =~= b);
}

/// Each message is read under the declarations of the log, provided that these can be read on
/// their own: reading the message goes on from what they say.
pub proof fn law_messages_are_read_under_the_declarations(
    declared: Seq<char>,
    message: Seq<char>,
    k: nat,
    base: Option<Seq<char>>,
) -> (blanks: nat)
    requires
        n3(declared, base) is Ok,
    ensures
        message_document(declared, message, k, base) == (match lex_text(
            marked(message, k).push('\n'),
        ) {
            Ok(ts) => moved_document(
                statements(ts, n3(declared, base)->Ok_0, Cursor { pos: 0, blanks }),
                behind(declared),
            ),
            Err(e) => Err::<DocumentView, ErrorView>(moved_error(e, behind(declared))),
        }),
        message_document(declared, message, k, base) matches Ok(said) ==> n3(
            declared,
            base,
        )->Ok_0.prefixes.dom().subset_of(said.prefixes.dom()),
{
    reveal(message_document);
    let blanks = law_texts_join(declared, marked(message, k).push('\n'), base);
    if let Ok(ts) = lex_text(marked(message, k).push('\n')) {
        let c = Cursor { pos: 0, blanks };
        if statements(ts, n3(declared, base)->Ok_0, c) is Ok {
            law_declarations_stay(ts, n3(declared, base)->Ok_0, c);
        }
    }
    blanks
}

/// No label that is marked is one that is made for a blank node without a label.
pub proof fn law_marked_labels_are_not_fresh(k: nat, label: Seq<char>, n: nat)
    ensures
        marked_label(k, label) != "_:"@ + fresh_label(n),
{
    reveal_strlit("_:m");
    reveal_strlit("_:");
    reveal_strlit("b");
    assert(marked_label(k, label)[2] == 'm');
    assert(("_:"@ + fresh_label(n))[2] == 'b');
}

/// A message in which no blank node label is written stays as it is.
pub proof fn law_marking_without_labels(message: Seq<char>, k: nat)
    requires
        forall|i: int|
            0 <= i < message.len() - 1 && #[trigger] message[i] == '_' ==> message[i + 1] != ':',
    ensures
        marked(message, k) == message,
{
    lemma_unmarked(message, 0, k);
    assert(message.skip(0) =~= message);
}

proof fn lemma_unmarked(s: Seq<char>, i: int, k: nat)
    requires
        0 <= i <= s.len(),
        forall|j: int| 0 <= j < s.len() - 1 && #[trigger] s[j] == '_' ==> s[j + 1] != ':',
    ensures
        marked_from(s, i, k) == s.skip(i),
    decreases s.len() - i,
{
    if i < s.len() {
        let end = if s[i] == '"' || s[i] == '\'' {
            lemma_string_end(s, i + 1, s[i]);
            string_end(s, i + 1, s[i])
        } else if s[i] == '#' {
            lemma_scan_bounds(s, i + 1, other_than('\n'));
            comment_end(s, i + 1)
        } else {
            i + 1
        };
        lemma_unmarked(s, end, k);
        assert(s.skip(i) =~= s.subrange(i, end) + s.skip(end));
        assert(s.subrange(i, i + 1) =~= seq![s[i]]);
    } else {
        assert(s.skip(i) =~= Seq::empty());
    }
}

proof fn lemma_trim_start(s: Seq<char>)
    ensures
        trim_start(s).len() > 0 ==> !is_space(trim_start(s)[0]),
        trim_start(trim_start(s)) == trim_start(s),
        trim_start(s.push('.')) == trim_start(s).push('.'),
    decreases s.len(),
{
    if s.len() > 0 && is_space(s[0]) {
        lemma_trim_start(s.subrange(1, s.len() as int));
        assert(s.push('.').subrange(1, (s.len() + 1) as int) =~= s.subrange(
            1,
            s.len() as int,
        ).push('.'));
    }
}

proof fn lemma_trim_end(s: Seq<char>)
    ensures
        trim_end(s).len() <= s.len(),
        trim_end(s) == s.take(trim_end(s).len() as int),
        trim_end(trim_end(s)) == trim_end(s),
    decreases s.len(),
{
    if s.len() > 0 && is_space(s.last()) {
        lemma_trim_end(s.drop_last());
        assert(s.drop_last().take(trim_end(s).len() as int) =~= s.take(trim_end(s).len() as int));
    } else {
        assert(s.take(s.len() as int) =~= s);
    }
}

/// The dot at the end of a directive may be left out.
pub proof fn law_dot_is_optional(keyword: Seq<char>, declared: Seq<char>)
    requires
        trim(declared).len() > 0 ==> trim(declared).last() != '.',
    ensures
        directive(keyword, declared.push('.')) == directive(keyword, declared),
{
    let start = trim_start(declared);
    lemma_trim_start(declared);
    lemma_trim_end(start);
    assert(trim(declared.push('.')) == start.push('.'));
    assert(start.push('.').drop_last() =~= start);
    assert(trim_start(trim(declared)) == trim(declared));
}

} // verus!
