//! RDF message logs: texts that hold a sequence of messages with a delimiter line between them.
use crate::ast::{
    str_of, terms, triple, triples, Document, DocumentView, Term, TermView, Triple, TripleView,
    RDF_TYPE,
};
use crate::error::{ErrorView, EyeronError};
use crate::grammar::{n3, number};
use crate::lexer::{char_at, end_of_label, label_chars};
use crate::parser::{number_literal, parse_n3};
use crate::text::{
    decimal, find, has_prefix, lemma_scan_bounds, line_views, lines, other_than, push_chars,
    push_decimal, same_chars, same_ignoring_case, same_letters, scan, split_lines, to_chars,
    to_text, trim, trim_start, trimmed, trimmed_start,
};
use vstd::prelude::*;
use vstd::slice::slice_subrange;

verus! {

broadcast use crate::ast::group_values;

/// What a line of a message log is.
pub enum LineKind {
    /// It belongs to the message that it stands in.
    Content,
    /// It says which version of the syntax the log has.
    Version,
    /// It ends a message.
    Delimiter,
    /// It declares a prefix for all messages.
    Prefix,
    /// It declares a base for all messages.
    Base,
}

/// A line that holds nothing but white space and a comment.
pub open spec fn says_nothing(line: Seq<char>) -> bool {
    let text = trim(line);
    text.len() == 0 || text[0] == '#'
}

/// What a line of a message log is.
pub open spec fn line_kind(line: Seq<char>) -> LineKind {
    let text = trim(line);
    if says_nothing(line) {
        LineKind::Content
    } else if "VERSION "@.is_prefix_of(text) {
        LineKind::Version
    } else if text == "MESSAGE"@ {
        LineKind::Delimiter
    } else if "PREFIX "@.is_prefix_of(text) || "prefix "@.is_prefix_of(text) {
        LineKind::Prefix
    } else if "BASE "@.is_prefix_of(text) || "base "@.is_prefix_of(text) {
        LineKind::Base
    } else {
        LineKind::Content
    }
}

/// Whether a line says that the text is a message log of the version that is read here.
pub open spec fn is_version_header(line: Seq<char>) -> bool {
    "VERSION \"1.2-messages\""@.is_prefix_of(trim_start(line))
}

/// Whether some line shows that a text is a message log.
pub open spec fn is_message_log(text: Seq<char>) -> bool {
    exists|i: int|
        0 <= i < lines(text).len() && (is_version_header(#[trigger] lines(text)[i]) || trim(
            lines(text)[i],
        ) == "MESSAGE"@)
}

/// A text without the dot at its end.
pub open spec fn without_dot(s: Seq<char>) -> Seq<char> {
    if s.len() > 0 && s.last() == '.' {
        s.drop_last()
    } else {
        s
    }
}

/// A directive as Notation3 has it: the keyword, what it declares, and a dot.
pub open spec fn directive(keyword: Seq<char>, declared: Seq<char>) -> Seq<char> {
    keyword + " "@ + trim(without_dot(trim(declared))) + " ."@
}

/// A directive that begins with the word `upper`, in any case, with the keyword `keyword` in the
/// place of that word.
pub open spec fn normalized(line: Seq<char>, upper: Seq<char>, keyword: Seq<char>) -> Result<
    Seq<char>,
    ErrorView,
> {
    let n = upper.len() as int;
    if line.len() >= n && same_letters(line.subrange(0, n), upper) {
        Ok(directive(keyword, line.subrange(n, line.len() as int)))
    } else {
        Err(ErrorView::plain("expected "@ + upper + " directive"@))
    }
}

/// What a line declares for all messages.
pub open spec fn declared_text(line: Seq<char>) -> Seq<char> {
    let text = trim(line);
    match line_kind(line) {
        LineKind::Prefix => directive("@prefix"@, text.subrange(6, text.len() as int)).push('\n'),
        LineKind::Base => directive("@base"@, text.subrange(4, text.len() as int)).push('\n'),
        _ => Seq::empty(),
    }
}

/// What the lines declare for all messages, a line for each directive.
pub open spec fn declarations(ls: Seq<Seq<char>>) -> Seq<char>
    decreases ls.len(),
{
    if ls.len() == 0 {
        Seq::empty()
    } else {
        declarations(ls.drop_last()) + declared_text(ls.last())
    }
}

/// The messages that the lines hold: a delimiter line begins a new one, and each line of content
/// belongs to the message that is the last one where it stands.
pub open spec fn messages(ls: Seq<Seq<char>>) -> Seq<Seq<char>>
    decreases ls.len(),
{
    if ls.len() == 0 {
        seq![Seq::empty()]
    } else {
        let before = messages(ls.drop_last());
        match line_kind(ls.last()) {
            LineKind::Content => before.drop_last().push(
                before.last() + ls.last().push('\n'),
            ),
            LineKind::Delimiter => before.push(Seq::empty()),
            _ => before,
        }
    }
}

/// A message of which no line says anything.
pub open spec fn is_empty_message(message: Seq<char>) -> bool {
    forall|i: int| 0 <= i < lines(message).len() ==> says_nothing(#[trigger] lines(message)[i])
}

/// The index after the string whose contents run from index `i` on: after its closing quote, or
/// the end of the text. A quote after a backslash does not close it.
pub open spec fn string_end(s: Seq<char>, i: int, quote: char) -> int
    decreases s.len() - i,
{
    if i < 0 || i >= s.len() {
        s.len() as int
    } else if s[i] == '\\' {
        if i + 2 <= s.len() {
            string_end(s, i + 2, quote)
        } else {
            s.len() as int
        }
    } else if s[i] == quote {
        i + 1
    } else {
        string_end(s, i + 1, quote)
    }
}

/// The index after the comment that runs through index `i`, with the line feed that ends it.
pub open spec fn comment_end(s: Seq<char>, i: int) -> int {
    let end = scan(s, i, other_than('\n'));
    if end < s.len() {
        end + 1
    } else {
        end
    }
}

/// A blank node label as it is written in the message with number `k`.
pub open spec fn marked_label(k: nat, label: Seq<char>) -> Seq<char> {
    "_:m"@ + decimal(k) + "_"@ + label
}

/// The text from index `i` on with the blank node labels marked as those of the message with
/// number `k`. Strings and comments stay as they are.
pub open spec fn marked_from(s: Seq<char>, i: int, k: nat) -> Seq<char>
    decreases s.len() - i,
{
    if i < 0 || i >= s.len() {
        Seq::empty()
    } else if s[i] == '"' || s[i] == '\'' {
        proof {
            lemma_string_end(s, i + 1, s[i]);
        }
        let end = string_end(s, i + 1, s[i]);
        s.subrange(i, end) + marked_from(s, end, k)
    } else if s[i] == '#' {
        proof {
            lemma_scan_bounds(s, i + 1, other_than('\n'));
        }
        let end = comment_end(s, i + 1);
        s.subrange(i, end) + marked_from(s, end, k)
    } else if s[i] == '_' && char_at(s, i + 1, ':') {
        proof {
            lemma_scan_bounds(s, i + 2, label_chars());
        }
        let end = scan(s, i + 2, label_chars());
        if end > i + 2 {
            marked_label(k, s.subrange(i + 2, end)) + marked_from(s, end, k)
        } else {
            s.subrange(i, i + 2) + marked_from(s, i + 2, k)
        }
    } else {
        seq![s[i]] + marked_from(s, i + 1, k)
    }
}

/// A message with its blank node labels marked as those of the message with number `k`.
pub open spec fn marked(message: Seq<char>, k: nat) -> Seq<char> {
    marked_from(message, 0, k)
}

/// A string does not end before its contents begin, nor past the end of the text.
pub proof fn lemma_string_end(s: Seq<char>, i: int, quote: char)
    requires
        0 <= i <= s.len(),
    ensures
        i <= string_end(s, i, quote) <= s.len(),
    decreases s.len() - i,
{
    if i < s.len() && s[i] == '\\' {
        if i + 2 <= s.len() {
            lemma_string_end(s, i + 2, quote);
        }
    } else if i < s.len() && s[i] != quote {
        lemma_string_end(s, i + 1, quote);
    }
}

/// A name of the vocabulary for message streams.
pub open spec fn ey(local: Seq<char>) -> TermView {
    TermView::Iri("https://eyereasoner.github.io/eyeling/vocab/message#"@ + local)
}

/// A name of the vocabulary for formulas.
pub open spec fn log(local: Seq<char>) -> TermView {
    TermView::Iri("http://www.w3.org/2000/10/swap/log#"@ + local)
}

/// The stream that a message log holds.
pub open spec fn stream() -> TermView {
    TermView::Iri("urn:eyeron:rdf-message-stream:1"@)
}

/// The envelope of the message with number `k`.
pub open spec fn envelope(k: nat) -> TermView {
    TermView::Iri("urn:eyeron:rdf-message-stream:1:envelope:"@ + decimal(k))
}

/// The payload graph of the message with number `k`.
pub open spec fn payload(k: nat) -> TermView {
    TermView::Iri("urn:eyeron:rdf-message-stream:1:payload:"@ + decimal(k))
}

/// The type predicate.
pub open spec fn rdf_type() -> TermView {
    TermView::Iri(RDF_TYPE@)
}

/// The envelopes of `n` messages in their order.
pub open spec fn envelopes(n: nat) -> Seq<TermView> {
    Seq::new(n, |i: int| envelope((i + 1) as nat))
}

/// What is said of a stream of `n` messages as a whole.
pub open spec fn stream_facts(n: nat) -> Seq<TripleView> {
    seq![
        triple(stream(), rdf_type(), ey("RDFMessageStream"@)),
        triple(stream(), ey("orderedEnvelopes"@), TermView::List(envelopes(n))),
        triple(stream(), ey("firstEnvelope"@), envelope(1)),
    ]
}

/// The link from the envelope of message `k` of `n` to the next one.
pub open spec fn next_facts(k: nat, n: nat) -> Seq<TripleView> {
    if k < n {
        seq![triple(envelope(k), ey("nextEnvelope"@), envelope(k + 1))]
    } else {
        Seq::empty()
    }
}

/// What is said of the envelope of message `k` of `n`.
pub open spec fn envelope_facts(k: nat, n: nat) -> Seq<TripleView> {
    seq![
        triple(stream(), ey("envelope"@), envelope(k)),
        triple(envelope(k), rdf_type(), ey("MessageEnvelope"@)),
        triple(envelope(k), ey("offset"@), number(decimal((k - 1) as nat))),
    ] + next_facts(k, n)
}

/// What is said of the payload of message `k`: nothing more than that it is empty, or the graph
/// that it is.
pub open spec fn payload_facts(k: nat, graph: Option<Seq<TripleView>>) -> Seq<TripleView> {
    match graph {
        None => seq![triple(envelope(k), ey("payloadKind"@), ey("empty"@))],
        Some(graph) => seq![
            triple(envelope(k), ey("payloadKind"@), ey("nonEmpty"@)),
            triple(envelope(k), ey("payloadGraph"@), payload(k)),
            triple(payload(k), log("nameOf"@), TermView::Formula(graph)),
        ],
    }
}

/// What the message with number `k` says on its own, under the given declarations.
#[verifier::opaque]
pub open spec fn message_document(
    declared: Seq<char>,
    message: Seq<char>,
    k: nat,
    base: Option<Seq<char>>,
) -> Result<DocumentView, ErrorView> {
    n3(declared.push('\n') + marked(message, k).push('\n'), base)
}

/// The replay with message `k` of `n` added.
pub open spec fn with_message(
    doc: DocumentView,
    declared: Seq<char>,
    message: Seq<char>,
    k: nat,
    n: nat,
    base: Option<Seq<char>>,
) -> Result<DocumentView, ErrorView> {
    if is_empty_message(message) {
        Ok(
            DocumentView {
                facts: doc.facts + envelope_facts(k, n) + payload_facts(k, None),
                ..doc
            },
        )
    } else {
        match message_document(declared, message, k, base) {
            Ok(said) => Ok(
                DocumentView {
                    prefixes: doc.prefixes.union_prefer_right(said.prefixes),
                    facts: doc.facts + envelope_facts(k, n) + payload_facts(k, Some(said.facts)),
                    ..doc
                },
            ),
            Err(e) => Err(e),
        }
    }
}

/// The replay with the messages from index `i` on added.
pub open spec fn with_messages(
    doc: DocumentView,
    declared: Seq<char>,
    ms: Seq<Seq<char>>,
    i: int,
    base: Option<Seq<char>>,
) -> Result<DocumentView, ErrorView>
    decreases ms.len() - i,
{
    if i < 0 || i >= ms.len() {
        Ok(doc)
    } else {
        match with_message(doc, declared, ms[i], (i + 1) as nat, ms.len(), base) {
            Ok(doc) => with_messages(doc, declared, ms, i + 1, base),
            Err(e) => Err(e),
        }
    }
}

/// The statement that stands behind the declarations where they are read on their own.
pub open spec fn seed_text() -> Seq<char> {
    "\n<urn:eyeron:prefix-seed> <urn:eyeron:prefix-seed> <urn:eyeron:prefix-seed> .\n"@
}

/// What the declarations say on their own, without triples.
#[verifier::opaque]
pub open spec fn declared_document(declared: Seq<char>, base: Option<Seq<char>>) -> Result<
    DocumentView,
    ErrorView,
> {
    let start = DocumentView { base_iri: base, ..DocumentView::empty() };
    if trim(declared).len() == 0 {
        Ok(start)
    } else {
        match n3(declared + seed_text(), base) {
            Ok(seed) => Ok(start.merge(DocumentView { facts: Seq::empty(), ..seed })),
            Err(e) => Err(e),
        }
    }
}

/// The replay of a message log.
pub open spec fn replay(text: Seq<char>, base: Option<Seq<char>>) -> Result<
    DocumentView,
    ErrorView,
> {
    let declared = declarations(lines(text));
    let ms = messages(lines(text));
    match declared_document(declared, base) {
        Ok(doc) => with_messages(
            DocumentView { facts: doc.facts + stream_facts(ms.len()), ..doc },
            declared,
            ms,
            0,
            base,
        ),
        Err(e) => Err(e),
    }
}

/// Whether a line holds nothing but white space and a comment, given the line without the white
/// space around it.
fn is_nothing(trimmed_line: &[char]) -> (r: bool)
    ensures
        r == (trimmed_line@.len() == 0 || trimmed_line@[0] == '#'),
{
    trimmed_line.len() == 0 || trimmed_line[0] == '#'
}

fn kind_of_line(line: &[char]) -> (r: LineKind)
    ensures
        r == line_kind(line@),
{
    let text = trimmed(line);
    if is_nothing(text) {
        LineKind::Content
    } else if has_prefix(text, "VERSION ") {
        LineKind::Version
    } else if same_chars(text, to_chars("MESSAGE").as_slice()) {
        LineKind::Delimiter
    } else if has_prefix(text, "PREFIX ") || has_prefix(text, "prefix ") {
        LineKind::Prefix
    } else if has_prefix(text, "BASE ") || has_prefix(text, "base ") {
        LineKind::Base
    } else {
        LineKind::Content
    }
}

/// Whether a text is a message log: some line says so, or delimits a message.
pub fn is_rdf_message_log(input: &str) -> (r: bool)
    ensures
        r == is_message_log(input@),
{
    let chars = to_chars(input);
    let all = split_lines(chars.as_slice());
    for i in 0..all.len()
        invariant
            line_views(all@) == lines(input@),
            forall|j: int|
                0 <= j < i ==> !is_version_header(#[trigger] lines(input@)[j]) && trim(
                    lines(input@)[j],
                ) != "MESSAGE"@,
    {
        let line = all[i].as_slice();
        assert(line@ == lines(input@)[i as int]);
        if has_prefix(trimmed_start(line), "VERSION \"1.2-messages\"") || same_chars(
            trimmed(line),
            to_chars("MESSAGE").as_slice(),
        ) {
            return true;
        }
    }
    false
}

/// Whether no line of a message says anything.
pub fn message_is_empty(message: &str) -> (r: bool)
    ensures
        r == is_empty_message(message@),
{
    let chars = to_chars(message);
    let all = split_lines(chars.as_slice());
    for i in 0..all.len()
        invariant
            line_views(all@) == lines(message@),
            forall|j: int| 0 <= j < i ==> says_nothing(#[trigger] lines(message@)[j]),
    {
        let line = all[i].as_slice();
        assert(line@ == lines(message@)[i as int]);
        if !is_nothing(trimmed(line)) {
            return false;
        }
    }
    true
}

/// A directive that begins with the word `upper`, as Notation3 has it.
pub fn normalize_turtle_directive(line: &str, upper: &str, n3: &str) -> (r: Result<
    String,
    EyeronError,
>)
    ensures
        match r {
            Ok(text) => normalized(line@, upper@, n3@) == Ok::<Seq<char>, ErrorView>(text@),
            Err(e) => normalized(line@, upper@, n3@) == Err::<Seq<char>, ErrorView>(e@),
        },
{
    let chars = to_chars(line);
    let line = chars.as_slice();
    let word = to_chars(upper);
    let n: usize = word.len();
    if line.len() < n || !same_ignoring_case(slice_subrange(line, 0, n), word.as_slice()) {
        let mut message = "expected ".to_owned();
        message.append(upper);
        message.append(" directive");
        return Err(EyeronError::new(message));
    }
    let rest = trimmed(slice_subrange(line, n, line.len()));
    let end = if rest.len() > 0 && rest[rest.len() - 1] == '.' {
        rest.len() - 1
    } else {
        rest.len()
    };
    let kept = slice_subrange(rest, 0, end);
    assert(kept@ =~= without_dot(rest@));
    let mut text = n3.to_owned();
    text.append(" ");
    push_chars(&mut text, trimmed(kept));
    text.append(" .");
    Ok(text)
}

/// A line that declares something begins with the word for it.
proof fn lemma_declares(line: Seq<char>)
    ensures
        line_kind(line) is Prefix ==> normalized(trim(line), "PREFIX"@, "@prefix"@) == Ok::<
            Seq<char>,
            ErrorView,
        >(directive("@prefix"@, trim(line).subrange(6, trim(line).len() as int))),
        line_kind(line) is Base ==> normalized(trim(line), "BASE"@, "@base"@) == Ok::<
            Seq<char>,
            ErrorView,
        >(directive("@base"@, trim(line).subrange(4, trim(line).len() as int))),
{
    let text = trim(line);
    reveal_strlit("PREFIX ");
    reveal_strlit("prefix ");
    reveal_strlit("PREFIX");
    reveal_strlit("BASE ");
    reveal_strlit("base ");
    reveal_strlit("BASE");
    if line_kind(line) is Prefix {
        let upper = "PREFIX "@.is_prefix_of(text);
        assert forall|i: int| 0 <= i < 6 implies crate::text::same_letter(
            #[trigger] text.subrange(0, 6)[i],
            "PREFIX"@[i],
        ) by {
            if upper {
                assert(text.subrange(0, 7)[i] == "PREFIX "@[i]);
            } else {
                assert(text.subrange(0, 7)[i] == "prefix "@[i]);
            }
        }
    }
    if line_kind(line) is Base {
        let upper = "BASE "@.is_prefix_of(text);
        assert forall|i: int| 0 <= i < 4 implies crate::text::same_letter(
            #[trigger] text.subrange(0, 4)[i],
            "BASE"@[i],
        ) by {
            if upper {
                assert(text.subrange(0, 5)[i] == "BASE "@[i]);
            } else {
                assert(text.subrange(0, 5)[i] == "base "@[i]);
            }
        }
    }
}

/// The texts of a sequence of strings.
pub open spec fn texts(items: Seq<String>) -> Seq<Seq<char>> {
    items.map_values(|s: String| s@)
}

/// Splits a message log into what it declares for all messages, and the messages.
pub fn split_rdf_message_log(input: &str) -> (r: Result<(String, Vec<String>), EyeronError>)
    ensures
        match r {
            Ok((declared, ms)) => declared@ == declarations(lines(input@)) && texts(ms@)
                == messages(lines(input@)),
            Err(_) => false,
        },
{
    let chars = to_chars(input);
    let all = split_lines(chars.as_slice());
    let ghost ls = lines(input@);
    let mut prefixes = String::new();
    let mut current = String::new();
    let mut found: Vec<String> = Vec::new();
    assert(texts(found@).push(current@) =~= messages(ls.take(0)));
    for i in 0..all.len()
        invariant
            line_views(all@) == ls,
            prefixes@ == declarations(ls.take(i as int)),
            texts(found@).push(current@) == messages(ls.take(i as int)),
    {
        let line = all[i].as_slice();
        let text = to_text(trimmed(line));
        let ghost before = messages(ls.take(i as int));
        let ghost front = texts(found@);
        proof {
            assert(line@ == ls[i as int]);
            assert(ls.take(i + 1).drop_last() =~= ls.take(i as int));
            assert(ls.take(i + 1).last() == line@);
            assert(before.drop_last() =~= front);
            assert(declarations(ls.take(i + 1)) == prefixes@ + declared_text(line@));
            lemma_declares(line@);
        }
        match kind_of_line(line) {
            LineKind::Content => {
                let ghost old_text = current@;
                push_chars(&mut current, line);
                current.push('\n');
                assert(current@ =~= old_text + line@.push('\n'));
            },
            LineKind::Version => {},
            LineKind::Delimiter => {
                found.push(current);
                current = String::new();
                assert(texts(found@) =~= before);
            },
            LineKind::Prefix => {
                let ghost old_text = prefixes@;
                let line = normalize_turtle_directive(text.as_str(), "PREFIX", "@prefix")?;
                prefixes.append(line.as_str());
                prefixes.push('\n');
                assert(prefixes@ =~= old_text + declared_text(ls[i as int]));
            },
            LineKind::Base => {
                let ghost old_text = prefixes@;
                let line = normalize_turtle_directive(text.as_str(), "BASE", "@base")?;
                prefixes.append(line.as_str());
                prefixes.push('\n');
                assert(prefixes@ =~= old_text + declared_text(ls[i as int]));
            },
        }
        assert(prefixes@ =~= declarations(ls.take(i + 1)));
        assert(texts(found@).push(current@) =~= messages(ls.take(i + 1)));
    }
    assert(ls.take(all@.len() as int) =~= ls);
    let ghost front = texts(found@);
    found.push(current);
    assert(texts(found@) =~= front.push(current@));
    Ok((prefixes, found))
}

/// The index after the string whose contents run from index `from` on.
fn end_of_string(s: &[char], from: usize, quote: char) -> (r: usize)
    requires
        from <= s@.len(),
    ensures
        r == string_end(s@, from as int, quote),
        from <= r <= s@.len(),
{
    let n: usize = s.len();
    let mut i: usize = from;
    while i < n
        invariant
            n == s@.len(),
            from <= i <= n,
            string_end(s@, from as int, quote) == string_end(s@, i as int, quote),
        decreases n - i,
    {
        if s[i] == '\\' {
            if n - i < 2 {
                return n;
            }
            i += 2;
        } else if s[i] == quote {
            return i + 1;
        } else {
            i += 1;
        }
    }
    n
}

/// A message with its blank node labels marked as those of the message with the given number, so
/// that labels of different messages differ.
pub fn rewrite_message_blank_labels(message: &str, message_index: usize) -> (r: String)
    ensures
        r@ == marked(message@, message_index as nat),
{
    let chars = to_chars(message);
    let s = chars.as_slice();
    let n: usize = s.len();
    let ghost k = message_index as nat;
    let mut out = String::new();
    let mut i: usize = 0;
    assert(out@ + marked_from(s@, 0, k) =~= marked(s@, k));
    while i < n
        invariant
            n == s@.len(),
            s@ == message@,
            k == message_index as nat,
            i <= n,
            out@ + marked_from(s@, i as int, k) == marked(s@, k),
        decreases n - i,
    {
        let c = s[i];
        let ghost front = out@;
        let start = i;
        let ghost piece: Seq<char>;
        if c == '"' || c == '\'' {
            i = end_of_string(s, i + 1, c);
            push_chars(&mut out, slice_subrange(s, start, i));
            proof {
                piece = s@.subrange(start as int, i as int);
            }
        } else if c == '#' {
            let end = find(s, i + 1, '\n');
            i = if end < n {
                end + 1
            } else {
                end
            };
            push_chars(&mut out, slice_subrange(s, start, i));
            proof {
                piece = s@.subrange(start as int, i as int);
            }
        } else if c == '_' && i + 1 < n && s[i + 1] == ':' {
            let end = end_of_label(s, i + 2);
            if end > i + 2 {
                out.append("_:m");
                push_decimal(&mut out, message_index);
                out.append("_");
                push_chars(&mut out, slice_subrange(s, i + 2, end));
                i = end;
                proof {
                    piece = marked_label(k, s@.subrange(start + 2, end as int));
                }
            } else {
                i += 2;
                push_chars(&mut out, slice_subrange(s, start, i));
                proof {
                    piece = s@.subrange(start as int, i as int);
                }
            }
        } else {
            out.push(c);
            i += 1;
            proof {
                piece = seq![c];
            }
        }
        assert(out@ =~= front + piece);
        assert(front + (piece + marked_from(s@, i as int, k)) =~= out@ + marked_from(
            s@,
            i as int,
            k,
        ));
    }
    assert(out@ + Seq::<char>::empty() =~= out@);
    out
}

/// A name of the vocabulary for message streams.
fn ey_term(local: &str) -> (r: Term)
    ensures
        r@ == ey(local@),
{
    let mut iri = "https://eyereasoner.github.io/eyeling/vocab/message#".to_owned();
    iri.append(local);
    Term::iri(iri)
}

/// A name of the vocabulary for formulas.
fn log_term(local: &str) -> (r: Term)
    ensures
        r@ == log(local@),
{
    let mut iri = "http://www.w3.org/2000/10/swap/log#".to_owned();
    iri.append(local);
    Term::iri(iri)
}

fn stream_term() -> (r: Term)
    ensures
        r@ == stream(),
{
    Term::iri("urn:eyeron:rdf-message-stream:1".to_owned())
}

fn envelope_term(k: usize) -> (r: Term)
    ensures
        r@ == envelope(k as nat),
{
    let mut iri = "urn:eyeron:rdf-message-stream:1:envelope:".to_owned();
    push_decimal(&mut iri, k);
    Term::iri(iri)
}

fn payload_term(k: usize) -> (r: Term)
    ensures
        r@ == payload(k as nat),
{
    let mut iri = "urn:eyeron:rdf-message-stream:1:payload:".to_owned();
    push_decimal(&mut iri, k);
    Term::iri(iri)
}

fn type_term() -> (r: Term)
    ensures
        r@ == rdf_type(),
{
    Term::iri(RDF_TYPE.to_owned())
}

fn push_stream_facts(facts: &mut Vec<Triple>, n: usize)
    ensures
        triples(final(facts)@) == triples(old(facts)@) + stream_facts(n as nat),
{
    broadcast use crate::ast::lemma_terms;

    let mut all: Vec<Term> = Vec::new();
    for i in 0..n
        invariant
            all@.len() == i,
            forall|j: int| 0 <= j < i ==> (#[trigger] all@[j])@ == envelope((j + 1) as nat),
    {
        all.push(envelope_term(i + 1));
    }
    assert(terms(all@) =~= envelopes(n as nat));
    facts.push(Triple::new(stream_term(), type_term(), ey_term("RDFMessageStream")));
    facts.push(Triple::new(stream_term(), ey_term("orderedEnvelopes"), Term::list(all)));
    facts.push(Triple::new(stream_term(), ey_term("firstEnvelope"), envelope_term(1)));
    assert(triples(facts@) =~= triples(old(facts)@) + stream_facts(n as nat));
}

fn push_envelope_facts(facts: &mut Vec<Triple>, k: usize, n: usize)
    requires
        1 <= k <= n,
    ensures
        triples(final(facts)@) == triples(old(facts)@) + envelope_facts(k as nat, n as nat),
{
    facts.push(Triple::new(stream_term(), ey_term("envelope"), envelope_term(k)));
    facts.push(Triple::new(envelope_term(k), type_term(), ey_term("MessageEnvelope")));
    let mut offset = String::new();
    push_decimal(&mut offset, k - 1);
    assert(offset@ =~= decimal((k - 1) as nat));
    facts.push(Triple::new(envelope_term(k), ey_term("offset"), number_literal(offset)));
    if k < n {
        facts.push(Triple::new(envelope_term(k), ey_term("nextEnvelope"), envelope_term(k + 1)));
    }
    assert(triples(facts@) =~= triples(old(facts)@) + envelope_facts(k as nat, n as nat));
}

fn push_payload_facts(facts: &mut Vec<Triple>, k: usize, graph: Option<Vec<Triple>>)
    ensures
        triples(final(facts)@) == triples(old(facts)@) + payload_facts(
            k as nat,
            match graph {
                Some(graph) => Some(triples(graph@)),
                None => None,
            },
        ),
{
    match graph {
        None => {
            facts.push(Triple::new(envelope_term(k), ey_term("payloadKind"), ey_term("empty")));
            assert(triples(facts@) =~= triples(old(facts)@) + payload_facts(k as nat, None));
        },
        Some(graph) => {
            let ghost said = triples(graph@);
            facts.push(Triple::new(envelope_term(k), ey_term("payloadKind"), ey_term("nonEmpty")));
            facts.push(Triple::new(envelope_term(k), ey_term("payloadGraph"), payload_term(k)));
            facts.push(Triple::new(payload_term(k), log_term("nameOf"), Term::formula(graph)));
            assert(triples(facts@) =~= triples(old(facts)@) + payload_facts(k as nat, Some(said)));
        },
    }
}

/// What the declarations say on their own, without triples.
fn seed_document(declared: &String, base_iri: Option<&str>) -> (r: Result<Document, EyeronError>)
    ensures
        match r {
            Ok(doc) => declared_document(declared@, str_of(base_iri)) == Ok::<
                DocumentView,
                ErrorView,
            >(doc@),
            Err(e) => declared_document(declared@, str_of(base_iri)) == Err::<
                DocumentView,
                ErrorView,
            >(e@),
        },
{
    proof {
        reveal(declared_document);
    }
    let mut doc = Document::new();
    doc.base_iri = match base_iri {
        Some(base) => Some(base.to_owned()),
        None => None,
    };
    let ghost start = DocumentView { base_iri: str_of(base_iri), ..DocumentView::empty() };
    assert(doc@ =~= start);
    let chars = to_chars(declared.as_str());
    if trimmed(chars.as_slice()).len() > 0 {
        let mut text = declared.clone();
        text.append(
            "\n<urn:eyeron:prefix-seed> <urn:eyeron:prefix-seed> <urn:eyeron:prefix-seed> .\n",
        );
        let mut seed = parse_n3(text.as_str(), base_iri)?;
        let ghost said = seed@;
        seed.facts = Vec::new();
        assert(seed@ =~= DocumentView { facts: Seq::empty(), ..said });
        doc.merge(seed);
    }
    Ok(doc)
}

/// Adds the message with number `k` of `n` to the replay.
fn add_message(
    doc: &mut Document,
    declared: &String,
    message: &String,
    k: usize,
    n: usize,
    base_iri: Option<&str>,
) -> (r: Result<(), EyeronError>)
    requires
        1 <= k <= n,
    ensures
        match r {
            Ok(_) => with_message(
                old(doc)@,
                declared@,
                message@,
                k as nat,
                n as nat,
                str_of(base_iri),
            ) == Ok::<DocumentView, ErrorView>(final(doc)@),
            Err(e) => with_message(
                old(doc)@,
                declared@,
                message@,
                k as nat,
                n as nat,
                str_of(base_iri),
            ) == Err::<DocumentView, ErrorView>(e@),
        },
{
    let ghost before = doc@;
    push_envelope_facts(&mut doc.facts, k, n);
    if message_is_empty(message.as_str()) {
        push_payload_facts(&mut doc.facts, k, None);
        assert(doc@ =~= DocumentView {
            facts: before.facts + envelope_facts(k as nat, n as nat) + payload_facts(
                k as nat,
                None,
            ),
            ..before
        });
        return Ok(());
    }
    let rewritten = rewrite_message_blank_labels(message.as_str(), k);
    let mut text = declared.clone();
    text.push('\n');
    text.append(rewritten.as_str());
    text.push('\n');
    proof {
        assert(text@ =~= declared@.push('\n') + marked(message@, k as nat).push('\n'));
        reveal(message_document);
    }
    let said = parse_n3(text.as_str(), base_iri)?;
    doc.prefixes.extend(&said.prefixes);
    push_payload_facts(&mut doc.facts, k, Some(said.facts));
    assert(doc@ =~= DocumentView {
        prefixes: before.prefixes.union_prefer_right(said@.prefixes),
        facts: before.facts + envelope_facts(k as nat, n as nat) + payload_facts(
            k as nat,
            Some(said@.facts),
        ),
        ..before
    });
    Ok(())
}

/// Reads a message log in the syntax `VERSION "1.2-messages"` with `MESSAGE` delimiters, and gives
/// its replay: one stream, an envelope for each message in order with a link to the next one, the
/// kind of its payload and, for a message that is not empty, a payload graph with the formula of
/// which it is the name.
pub fn parse_rdf_message_log(input: &str, base_iri: Option<&str>) -> (r: Result<
    Document,
    EyeronError,
>)
    ensures
        match r {
            Ok(doc) => replay(input@, str_of(base_iri)) == Ok::<DocumentView, ErrorView>(doc@),
            Err(e) => replay(input@, str_of(base_iri)) == Err::<DocumentView, ErrorView>(e@),
        },
{
    let (declared, found) = split_rdf_message_log(input)?;
    let ghost ms = texts(found@);
    let n: usize = found.len();
    let mut doc = seed_document(&declared, base_iri)?;
    let ghost seeded = doc@;
    push_stream_facts(&mut doc.facts, n);
    assert(doc@ =~= DocumentView { facts: seeded.facts + stream_facts(ms.len()), ..seeded });
    for i in 0..n
        invariant
            n == found@.len(),
            ms == texts(found@),
            ms == messages(lines(input@)),
            declared@ == declarations(lines(input@)),
            replay(input@, str_of(base_iri)) == with_messages(
                doc@,
                declared@,
                ms,
                i as int,
                str_of(base_iri),
            ),
    {
        assert(ms[i as int] == found@[i as int]@);
        add_message(&mut doc, &declared, &found[i], i + 1, n, base_iri)?;
    }
    Ok(doc)
}

} // verus!
