//! What each line of a message log does.
use crate::error::ErrorView;
use crate::message_log::{
    declarations, declared_text, directive, is_empty_message, is_message_log, line_kind, messages,
    normalized, replay,
};
use crate::text::{is_space, lines, same_letters, trim, trim_start};
use crate::text_laws::{law_trim, law_trimmed};
use vstd::prelude::*;

verus! {

/// What a directive declares: the text behind its word, without the white space around it and
/// without the dot at its end.
pub open spec fn declared_part(d: Seq<char>) -> Seq<char> {
    let t = trim(d);
    if t.len() > 0 && t[t.len() - 1] == '.' {
        trim(t.subrange(0, t.len() - 1))
    } else {
        t
    }
}

proof fn lemma_trim_again(s: Seq<char>)
    ensures
        trim(trim(s)) == trim(s),
        trim(seq![' '] + s) == trim(s),
{
    let (before, behind) = law_trimmed(s);
    let t = trim(s);
    let none = Seq::<char>::empty();
    law_trim(none, t, none);
    assert(none + t + none =~= t);
    let wide = seq![' '] + before;
    assert forall|i: int| 0 <= i < wide.len() implies is_space(#[trigger] wide[i]) by {
        if i > 0 {
            assert(wide[i] == before[i - 1]);
        }
    }
    law_trim(wide, t, behind);
    assert(wide + t + behind =~= seq![' '] + s);
}

/// A directive that ends with a dot declares what stands before the dot, and one without a dot all
/// of its text.
pub proof fn law_declared_parts(d: Seq<char>)
    ensures
        declared_part(d.push('.')) == trim(d),
        trim(d).len() > 0 && trim(d).last() != '.' ==> declared_part(d) == trim(d),
        trim(d).len() == 0 ==> declared_part(d) == Seq::<char>::empty(),
{
    let (before, behind) = law_trimmed(d);
    let t = trim(d);
    let none = Seq::<char>::empty();
    if t.len() == 0 {
        assert(t =~= none);
        let all = before + t + behind;
        assert forall|i: int| 0 <= i < all.len() implies is_space(#[trigger] all[i]) by {
            if i < before.len() {
                assert(all[i] == before[i]);
            } else {
                assert(all[i] == behind[i - before.len()]);
            }
        }
        law_trim(all, seq!['.'], none);
        assert(all + seq!['.'] + none =~= d.push('.'));
        assert(seq!['.'].subrange(0, 0) =~= none);
        law_trim(none, none, none);
        assert(none + none + none =~= none);
    } else {
        let inner = t + behind + seq!['.'];
        law_trim(before, inner, none);
        assert(inner[0] == t[0]);
        assert(before + inner + none =~= d.push('.'));
        assert(inner.subrange(0, inner.len() - 1) =~= none + t + behind);
        law_trim(none, t, behind);
    }
}

proof fn lemma_directive(keyword: Seq<char>, d: Seq<char>)
    ensures
        directive(keyword, seq![' '] + d) == keyword + " "@ + declared_part(d) + " ."@,
{
    lemma_trim_again(d);
    let t = trim(d);
    if t.len() > 0 && t[t.len() - 1] == '.' {
        assert(t.drop_last() =~= t.subrange(0, t.len() - 1));
    }
}

proof fn lemma_pushed(ls: Seq<Seq<char>>, line: Seq<char>)
    ensures
        ls.push(line).drop_last() == ls,
        ls.push(line).last() == line,
{
    assert(ls.push(line).drop_last() =~= ls);
}

/// A log without lines declares nothing and holds one empty message.
pub proof fn law_no_lines()
    ensures
        declarations(Seq::empty()) == Seq::<char>::empty(),
        messages(Seq::empty()) == seq![Seq::<char>::empty()],
{
}

/// A line with the word `PREFIX` or `prefix`, a space and a text adds one line to what is declared
/// for all messages, with `@prefix`, what the text declares and a dot. It adds nothing to any
/// message.
pub proof fn law_prefix_lines(ls: Seq<Seq<char>>, line: Seq<char>, d: Seq<char>)
    requires
        trim(line) == "PREFIX "@ + d || trim(line) == "prefix "@ + d,
    ensures
        messages(ls.push(line)) == messages(ls),
        declarations(ls.push(line)) == declarations(ls) + ("@prefix "@ + declared_part(d)
            + " .\n"@),
{
    let text = trim(line);
    reveal_strlit("PREFIX ");
    reveal_strlit("prefix ");
    reveal_strlit("VERSION ");
    reveal_strlit("MESSAGE");
    reveal_strlit("@prefix ");
    reveal_strlit("@prefix");
    reveal_strlit(" ");
    reveal_strlit(" .");
    reveal_strlit(" .\n");
    lemma_pushed(ls, line);
    assert(text[0] == 'P' || text[0] == 'p');
    lemma_not_begins(text, "VERSION "@);
    assert(text != "MESSAGE"@) by {
        assert("MESSAGE"@[0] == 'M');
    }
    lemma_begins_with("PREFIX "@, d);
    lemma_begins_with("prefix "@, d);
    assert(line_kind(line) is Prefix);
    assert(text.subrange(6, text.len() as int) =~= seq![' '] + d);
    lemma_directive("@prefix"@, d);
    assert(declared_text(line) =~= "@prefix "@ + declared_part(d) + " .\n"@);
}

/// A line with the word `BASE` or `base`, a space and a text adds one line to what is declared for
/// all messages, with `@base`, what the text declares and a dot. It adds nothing to any message.
pub proof fn law_base_lines(ls: Seq<Seq<char>>, line: Seq<char>, d: Seq<char>)
    requires
        trim(line) == "BASE "@ + d || trim(line) == "base "@ + d,
    ensures
        messages(ls.push(line)) == messages(ls),
        declarations(ls.push(line)) == declarations(ls) + ("@base "@ + declared_part(d)
            + " .\n"@),
{
    let text = trim(line);
    reveal_strlit("BASE ");
    reveal_strlit("base ");
    reveal_strlit("PREFIX ");
    reveal_strlit("prefix ");
    reveal_strlit("VERSION ");
    reveal_strlit("MESSAGE");
    reveal_strlit("@base ");
    reveal_strlit("@base");
    reveal_strlit(" ");
    reveal_strlit(" .");
    reveal_strlit(" .\n");
    lemma_pushed(ls, line);
    assert(text[0] == 'B' || text[0] == 'b');
    lemma_not_begins(text, "VERSION "@);
    lemma_not_begins(text, "PREFIX "@);
    lemma_not_begins(text, "prefix "@);
    assert(text != "MESSAGE"@) by {
        assert("MESSAGE"@[0] == 'M');
    }
    lemma_begins_with("BASE "@, d);
    lemma_begins_with("base "@, d);
    assert(line_kind(line) is Base);
    assert(text.subrange(4, text.len() as int) =~= seq![' '] + d);
    lemma_directive("@base"@, d);
    assert(declared_text(line) =~= "@base "@ + declared_part(d) + " .\n"@);
}

proof fn lemma_begins_with(word: Seq<char>, d: Seq<char>)
    ensures
        word.is_prefix_of(word + d),
{
    assert((word + d).subrange(0, word.len() as int) =~= word);
}

proof fn lemma_not_begins(text: Seq<char>, word: Seq<char>)
    requires
        word.len() > 0,
        text.len() > 0,
        text[0] != word[0],
    ensures
        !word.is_prefix_of(text),
{
    if word.is_prefix_of(text) {
        assert(text.subrange(0, word.len() as int)[0] == text[0]);
    }
}

/// A line with the word `VERSION` and a space adds nothing, whatever follows.
pub proof fn law_version_lines(ls: Seq<Seq<char>>, line: Seq<char>, d: Seq<char>)
    requires
        trim(line) == "VERSION "@ + d,
    ensures
        messages(ls.push(line)) == messages(ls),
        declarations(ls.push(line)) == declarations(ls),
{
    reveal_strlit("VERSION ");
    lemma_pushed(ls, line);
    lemma_begins_with("VERSION "@, d);
    assert(trim(line)[0] == 'V');
    assert(line_kind(line) is Version);
    assert(declarations(ls) + Seq::<char>::empty() =~= declarations(ls));
}

/// A line with nothing but the word `MESSAGE` begins a new message, which is empty so far.
pub proof fn law_delimiter_lines(ls: Seq<Seq<char>>, line: Seq<char>)
    requires
        trim(line) == "MESSAGE"@,
    ensures
        messages(ls.push(line)) == messages(ls).push(Seq::empty()),
        declarations(ls.push(line)) == declarations(ls),
{
    reveal_strlit("VERSION ");
    reveal_strlit("MESSAGE");
    lemma_pushed(ls, line);
    assert(trim(line)[0] == 'M');
    lemma_not_begins(trim(line), "VERSION "@);
    assert(line_kind(line) is Delimiter);
    assert(declarations(ls) + Seq::<char>::empty() =~= declarations(ls));
}

/// Any other line, be it white space or a comment, is added to the last message as it is, with a
/// line feed behind it. It declares nothing.
pub proof fn law_content_lines(ls: Seq<Seq<char>>, line: Seq<char>)
    requires
        ({
            let t = trim(line);
            ||| t.len() == 0
            ||| t[0] == '#'
            ||| {
                &&& t != "MESSAGE"@
                &&& !"VERSION "@.is_prefix_of(t)
                &&& !"PREFIX "@.is_prefix_of(t) && !"prefix "@.is_prefix_of(t)
                &&& !"BASE "@.is_prefix_of(t) && !"base "@.is_prefix_of(t)
            }
        }),
    ensures
        messages(ls.push(line)) == messages(ls).drop_last().push(
            messages(ls).last() + line + seq!['\n'],
        ),
        declarations(ls.push(line)) == declarations(ls),
{
    lemma_pushed(ls, line);
    assert(line_kind(line) is Content);
    let last = messages(ls).last();
    assert(last + line.push('\n') =~= last + line + seq!['\n']);
    assert(declarations(ls) + Seq::<char>::empty() =~= declarations(ls));
}

/// Two lines are the same but for the case of the word of a directive.
pub open spec fn same_directive(a: Seq<char>, b: Seq<char>, d: Seq<char>) -> bool {
    ||| (trim(a) == "PREFIX "@ + d || trim(a) == "prefix "@ + d) && (trim(b) == "PREFIX "@ + d
        || trim(b) == "prefix "@ + d)
    ||| (trim(a) == "BASE "@ + d || trim(a) == "base "@ + d) && (trim(b) == "BASE "@ + d || trim(b)
        == "base "@ + d)
}

/// Lines that differ in nothing but the case of the words of their directives declare the same and
/// hold the same messages.
pub proof fn law_case_of_directives(a: Seq<Seq<char>>, b: Seq<Seq<char>>)
    requires
        a.len() == b.len(),
        forall|i: int|
            0 <= i < a.len() ==> (#[trigger] a[i]) == b[i] || exists|d: Seq<char>|
                same_directive(a[i], b[i], d),
    ensures
        declarations(a) == declarations(b),
        messages(a) == messages(b),
    decreases a.len(),
{
    if a.len() > 0 {
        let x = a.drop_last();
        let y = b.drop_last();
        assert forall|i: int| 0 <= i < x.len() implies (#[trigger] x[i]) == y[i] || exists|
            d: Seq<char>,
        |
            same_directive(x[i], y[i], d) by {
            assert(a[i] == x[i] && b[i] == y[i]);
        }
        law_case_of_directives(x, y);
        assert(x.push(a.last()) =~= a);
        assert(y.push(b.last()) =~= b);
        let n = a.len() - 1;
        if a[n] != b[n] {
            let d = choose|d: Seq<char>| same_directive(a[n], b[n], d);
            if trim(a[n]) == "PREFIX "@ + d || trim(a[n]) == "prefix "@ + d {
                if trim(b[n]) == "PREFIX "@ + d || trim(b[n]) == "prefix "@ + d {
                    law_prefix_lines(x, a[n], d);
                    law_prefix_lines(y, b[n], d);
                } else {
                    lemma_words_differ(a[n], d);
                }
            } else {
                law_base_lines(x, a[n], d);
                law_base_lines(y, b[n], d);
            }
        }
    }
}

proof fn lemma_words_differ(line: Seq<char>, d: Seq<char>)
    requires
        trim(line) == "PREFIX "@ + d || trim(line) == "prefix "@ + d,
    ensures
        !(trim(line) == "BASE "@ + d || trim(line) == "base "@ + d),
{
    reveal_strlit("PREFIX ");
    reveal_strlit("prefix ");
    reveal_strlit("BASE ");
    reveal_strlit("base ");
    assert(trim(line).len() == 7 + d.len());
}

/// Texts whose lines differ in nothing but the case of the words of their directives have the same
/// replay.
pub proof fn law_case_of_directives_in_a_log(a: Seq<char>, b: Seq<char>, base: Option<Seq<char>>)
    requires
        lines(a).len() == lines(b).len(),
        forall|i: int|
            0 <= i < lines(a).len() ==> (#[trigger] lines(a)[i]) == lines(b)[i] || exists|
                d: Seq<char>,
            |
                same_directive(lines(a)[i], lines(b)[i], d),
    ensures
        replay(a, base) == replay(b, base),
{
    law_case_of_directives(lines(a), lines(b));
}

/// A text is a message log exactly if one of its lines, behind white space, begins with `VERSION`
/// and the version that is read here, or is `MESSAGE` with white space around it.
pub proof fn law_message_logs(text: Seq<char>)
    ensures
        is_message_log(text) ==> exists|i: int|
            0 <= i < lines(text).len() && ("VERSION \"1.2-messages\""@.is_prefix_of(
                trim_start(#[trigger] lines(text)[i]),
            ) || trim(lines(text)[i]) == "MESSAGE"@),
        forall|i: int|
            0 <= i < lines(text).len() && ("VERSION \"1.2-messages\""@.is_prefix_of(
                trim_start(#[trigger] lines(text)[i]),
            ) || trim(lines(text)[i]) == "MESSAGE"@) ==> is_message_log(text),
{
}

/// A message is empty exactly if each of its lines is white space or a comment.
pub proof fn law_empty_messages(message: Seq<char>)
    ensures
        is_empty_message(message) <==> forall|i: int|
            0 <= i < lines(message).len() ==> trim(#[trigger] lines(message)[i]).len() == 0 || trim(
                lines(message)[i],
            )[0] == '#',
{
    if forall|i: int|
        0 <= i < lines(message).len() ==> trim(#[trigger] lines(message)[i]).len() == 0 || trim(
            lines(message)[i],
        )[0] == '#' {
        assert forall|i: int| 0 <= i < lines(message).len() implies
            crate::message_log::says_nothing(#[trigger] lines(message)[i]) by {}
    }
    if is_empty_message(message) {
        assert forall|i: int| 0 <= i < lines(message).len() implies trim(
            #[trigger] lines(message)[i],
        ).len() == 0 || trim(lines(message)[i])[0] == '#' by {
            assert(crate::message_log::says_nothing(lines(message)[i]));
        }
    }
}

/// A directive whose word is `upper` in any case is put under the keyword, with what it declares
/// and a dot. A line that begins with no such word is refused.
pub proof fn law_normalised_directives(
    word: Seq<char>,
    upper: Seq<char>,
    rest: Seq<char>,
    line: Seq<char>,
    keyword: Seq<char>,
)
    ensures
        same_letters(word, upper) ==> normalized(word + rest, upper, keyword) == Ok::<
            Seq<char>,
            ErrorView,
        >(keyword + " "@ + declared_part(rest) + " ."@),
        line.len() < upper.len() || !same_letters(line.subrange(0, upper.len() as int), upper)
            ==> normalized(line, upper, keyword) == Err::<Seq<char>, ErrorView>(
            ErrorView { message: "expected "@ + upper + " directive"@, offset: None },
        ),
{
    if same_letters(word, upper) {
        let whole = word + rest;
        let n = upper.len() as int;
        assert(whole.subrange(0, n) =~= word);
        assert(whole.subrange(n, whole.len() as int) =~= rest);
        let t = trim(rest);
        lemma_trim_again(rest);
        if t.len() > 0 && t[t.len() - 1] == '.' {
            assert(t.drop_last() =~= t.subrange(0, t.len() - 1));
        }
    }
}

} // verus!
