//! How a text is split into tokens.
use crate::error::ErrorView;
use crate::lexer::{
    closes_at, digits, escape_at, hex_number, hex_value, is_label_char, is_name_char, is_tag_char,
    is_var_char, label_chars, lex_from, lex_text, name_end, number_end, quote_width, skip_blank,
    string_body, tag_chars, token_at, var_chars,
};
use crate::reading_laws::{lemma_skip_blank, lemma_token_at};
use crate::stream_laws::in_label;
use crate::text::{is_space, lemma_scan_bounds, other_than, same_letters, scan};
use crate::token::{KindView, TokenView};
use vstd::prelude::*;

verus! {

/// A token that begins at an index and ends before another.
pub open spec fn found(kind: KindView, next: int) -> Result<(KindView, int), ErrorView> {
    Ok((kind, next))
}

/// The error that something cannot be a token at an index.
pub open spec fn refused(message: Seq<char>, i: int) -> Result<(KindView, int), ErrorView> {
    Err(ErrorView { message, offset: Some(i) })
}

/// What the characters of a text are from an index on, whether or not the text goes so far.
pub open spec fn next_is(s: Seq<char>, i: int, c: char) -> bool {
    i < s.len() && s[i] == c
}

/// The marks of one and two characters.
pub proof fn law_marks(s: Seq<char>, i: int)
    requires
        0 <= i < s.len(),
    ensures
        s[i] == '{' ==> token_at(s, i) == found(KindView::LBrace, i + 1),
        s[i] == '}' ==> token_at(s, i) == found(KindView::RBrace, i + 1),
        s[i] == '[' ==> token_at(s, i) == found(KindView::LBracket, i + 1),
        s[i] == ']' ==> token_at(s, i) == found(KindView::RBracket, i + 1),
        s[i] == '(' ==> token_at(s, i) == found(KindView::LParen, i + 1),
        s[i] == ')' ==> token_at(s, i) == found(KindView::RParen, i + 1),
        s[i] == '.' ==> token_at(s, i) == found(KindView::Dot, i + 1),
        s[i] == ',' ==> token_at(s, i) == found(KindView::Comma, i + 1),
        s[i] == ';' ==> token_at(s, i) == found(KindView::Semicolon, i + 1),
        s[i] == '=' && next_is(s, i + 1, '>') ==> token_at(s, i) == found(KindView::Arrow, i + 2),
        s[i] == '=' && !next_is(s, i + 1, '>') ==> token_at(s, i) == found(
            KindView::Equals,
            i + 1,
        ),
        s[i] == '<' && next_is(s, i + 1, '=') ==> token_at(s, i) == found(
            KindView::BackArrow,
            i + 2,
        ),
        s[i] == '^' && next_is(s, i + 1, '^') ==> token_at(s, i) == found(KindView::HatHat, i + 2),
        s[i] == '^' && !next_is(s, i + 1, '^') ==> token_at(s, i) == refused(
            "unexpected character"@,
            i,
        ),
{
}

proof fn lemma_run_to(s: Seq<char>, i: int, end: int, keep: spec_fn(char) -> bool)
    requires
        0 <= i <= end <= s.len(),
        forall|j: int| i <= j < end ==> keep(#[trigger] s[j]),
        end < s.len() ==> !keep(s[end]),
    ensures
        scan(s, i, keep) == end,
{
    lemma_scan_bounds(s, i, keep);
    let stop = scan(s, i, keep);
    if stop < end {
        assert(keep(s[stop]));
    }
}

/// An IRI is all between `<` and the first `>`, which has to follow.
pub proof fn law_iri_tokens(s: Seq<char>, i: int, end: int)
    requires
        0 <= i < end <= s.len(),
        s[i] == '<',
        !next_is(s, i + 1, '='),
        forall|j: int| i < j < end ==> #[trigger] s[j] != '>',
        end < s.len() ==> s[end] == '>',
    ensures
        end < s.len() ==> token_at(s, i) == found(
            KindView::Iri(s.subrange(i + 1, end)),
            end + 1,
        ),
        end == s.len() ==> token_at(s, i) == refused("unterminated IRI"@, i),
{
    lemma_run_to(s, i + 1, end, other_than('>'));
}

/// A letter, a digit or `-`.
pub open spec fn in_tag(c: char) -> bool {
    'a' <= c <= 'z' || 'A' <= c <= 'Z' || '0' <= c <= '9' || c == '-'
}

/// Behind `@` stands a word of letters, digits and `-`: `prefix` and `base` are directives, any
/// other one is a language.
pub proof fn law_at_tokens(s: Seq<char>, i: int, end: int)
    requires
        0 <= i < end <= s.len(),
        s[i] == '@',
        forall|j: int| i < j < end ==> in_tag(#[trigger] s[j]),
        end < s.len() ==> !in_tag(s[end]),
    ensures
        end == i + 1 ==> token_at(s, i) == refused("expected a word after '@'"@, i),
        end > i + 1 ==> ({
            let word = s.subrange(i + 1, end);
            &&& word == "prefix"@ ==> token_at(s, i) == found(KindView::AtPrefix, end)
            &&& word == "base"@ ==> token_at(s, i) == found(KindView::AtBase, end)
            &&& word != "prefix"@ && word != "base"@ ==> token_at(s, i) == found(
                KindView::Lang(word),
                end,
            )
        }),
{
    assert forall|j: int| i + 1 <= j < end implies tag_chars()(#[trigger] s[j]) by {
        assert(in_tag(s[j]));
    }
    lemma_run_to(s, i + 1, end, tag_chars());
    reveal_strlit("prefix");
    reveal_strlit("base");
    assert("prefix"@.len() != "base"@.len());
}

/// A letter, a digit, `_`, `-`, or a character beyond ASCII that is no white space.
pub open spec fn in_variable(c: char) -> bool {
    in_label(c) || c >= '\u{80}' && !is_space(c)
}

/// A character of a name: one of a variable, `:` or `%`.
pub open spec fn in_name(c: char) -> bool {
    in_variable(c) || c == ':' || c == '%'
}

/// The characters of variables, labels and names.
pub proof fn law_characters(c: char)
    ensures
        is_label_char(c) <==> in_label(c),
        is_tag_char(c) <==> in_tag(c),
        is_var_char(c) <==> in_variable(c),
        is_name_char(c) <==> in_name(c),
{
}

/// A variable is the word behind `?`, which has to be there.
pub proof fn law_variable_tokens(s: Seq<char>, i: int, end: int)
    requires
        0 <= i < end <= s.len(),
        s[i] == '?',
        forall|j: int| i < j < end ==> in_variable(#[trigger] s[j]),
        end < s.len() ==> !in_variable(s[end]),
    ensures
        end > i + 1 ==> token_at(s, i) == found(KindView::Var(s.subrange(i + 1, end)), end),
        end == i + 1 ==> token_at(s, i) == refused("expected a variable name after '?'"@, i),
{
    assert forall|j: int| i + 1 <= j < end implies var_chars()(#[trigger] s[j]) by {
        assert(in_variable(s[j]));
    }
    lemma_run_to(s, i + 1, end, var_chars());
}

/// A blank node is the label behind `_:`, which has to be there.
pub proof fn law_blank_node_tokens(s: Seq<char>, i: int, end: int)
    requires
        0 <= i,
        i + 2 <= end <= s.len(),
        s[i] == '_' && s[i + 1] == ':',
        forall|j: int| i + 2 <= j < end ==> in_label(#[trigger] s[j]),
        end < s.len() ==> !in_label(s[end]),
    ensures
        end > i + 2 ==> token_at(s, i) == found(KindView::Blank(s.subrange(i + 2, end)), end),
        end == i + 2 ==> token_at(s, i) == refused("expected a blank node label after '_:'"@, i),
{
    assert forall|j: int| i + 2 <= j < end implies label_chars()(#[trigger] s[j]) by {
        assert(in_label(s[j]));
    }
    lemma_run_to(s, i + 2, end, label_chars());
}

/// Whether a name goes on at an index: with a character of a name, or with a dot before one.
pub open spec fn name_goes_on(s: Seq<char>, i: int) -> bool {
    i < s.len() && (in_name(s[i]) || s[i] == '.' && i + 1 < s.len() && in_name(s[i + 1]))
}

proof fn lemma_name_end(s: Seq<char>, i: int, end: int)
    requires
        0 <= i <= end <= s.len(),
        forall|j: int| i <= j < end ==> #[trigger] name_goes_on(s, j),
        !name_goes_on(s, end),
    ensures
        name_end(s, i) == end,
    decreases end - i,
{
    if i < end {
        assert(name_goes_on(s, i));
        lemma_name_end(s, i + 1, end);
    }
}

/// A word ends with the last character of a name in a row, dots between such characters included.
/// `a`, `true` and `false` are words of their own, and so are `prefix` and `base` in any case. Any
/// other word is a name.
pub proof fn law_word_tokens(s: Seq<char>, i: int, end: int)
    requires
        0 <= i < end <= s.len(),
        in_name(s[i]),
        s[i] != '-',
        !('0' <= s[i] <= '9'),
        !(s[i] == '_' && next_is(s, i + 1, ':')),
        forall|j: int| i <= j < end ==> #[trigger] name_goes_on(s, j),
        !name_goes_on(s, end),
    ensures
        ({
            let word = s.subrange(i, end);
            &&& word == "a"@ ==> token_at(s, i) == found(KindView::A, end)
            &&& word == "true"@ ==> token_at(s, i) == found(KindView::Boolean(true), end)
            &&& word == "false"@ ==> token_at(s, i) == found(KindView::Boolean(false), end)
            &&& same_letters(word, "prefix"@) ==> token_at(s, i) == found(KindView::Prefix, end)
            &&& same_letters(word, "base"@) ==> token_at(s, i) == found(KindView::Base, end)
            &&& word != "a"@ && word != "true"@ && word != "false"@ && !same_letters(
                word,
                "prefix"@,
            ) && !same_letters(word, "base"@) ==> token_at(s, i) == found(
                KindView::PName(word),
                end,
            )
        }),
{
    lemma_name_end(s, i, end);
    let word = s.subrange(i, end);
    reveal_strlit("a");
    reveal_strlit("true");
    reveal_strlit("false");
    reveal_strlit("prefix");
    reveal_strlit("base");
    assert("a"@.len() == 1 && "true"@.len() == 4 && "false"@.len() == 5);
    assert("prefix"@.len() == 6 && "base"@.len() == 4);
    if word.len() == 4 && same_letters(word, "base"@) {
        assert(crate::text::same_letter(word[0], "base"@[0]));
        assert("true"@[0] == 't' && "base"@[0] == 'b');
    }
}

/// A character that begins no token is refused.
pub proof fn law_other_characters(s: Seq<char>, i: int)
    requires
        0 <= i < s.len(),
        ({
            let c = s[i];
            ||| c == '-' && !(i + 1 < s.len() && '0' <= s[i + 1] <= '9')
            ||| c == '+' && !(i + 1 < s.len() && '0' <= s[i + 1] <= '9')
            ||| c < '\u{80}' && !in_name(c) && c != '{' && c != '}' && c != '[' && c != ']' && c
                != '(' && c != ')' && c != '.' && c != ',' && c != ';' && c != '=' && c != '<' && c
                != '^' && c != '@' && c != '?' && c != '"' && c != '\'' && c != '+'
        }),
    ensures
        token_at(s, i) == refused("unexpected character"@, i),
{
}

/// A run of decimal digits.
pub open spec fn digit_run(s: Seq<char>, i: int, end: int) -> bool {
    &&& 0 <= i < end <= s.len()
    &&& forall|j: int| i <= j < end ==> '0' <= #[trigger] s[j] <= '9'
    &&& end < s.len() ==> !('0' <= s[end] <= '9')
}

/// Whether a digit stands at an index.
pub open spec fn digit_is(s: Seq<char>, i: int) -> bool {
    0 <= i < s.len() && '0' <= s[i] <= '9'
}

/// A number is a run of digits, with a sign before it or without one; then a dot and a run of
/// digits, if both are there; then `e` or `E`, a sign or none, and a run of digits, if all that is
/// there. Its spelling is kept.
pub proof fn law_number_tokens(s: Seq<char>, i: int, first: int, whole: int, part: int, end: int)
    requires
        0 <= i,
        first == i || first == i + 1 && (s[i] == '+' || s[i] == '-'),
        digit_run(s, first, whole),
        if next_is(s, whole, '.') && digit_is(s, whole + 1) {
            digit_run(s, whole + 1, part)
        } else {
            part == whole
        },
        ({
            let power = if next_is(s, part + 1, '+') || next_is(s, part + 1, '-') {
                part + 2
            } else {
                part + 1
            };
            if (next_is(s, part, 'e') || next_is(s, part, 'E')) && digit_is(s, power) {
                digit_run(s, power, end)
            } else {
                end == part
            }
        }),
    ensures
        token_at(s, i) == found(KindView::Number(s.subrange(i, end)), end),
{
    lemma_digit_run(s, first, whole);
    if next_is(s, whole, '.') && digit_is(s, whole + 1) {
        lemma_digit_run(s, whole + 1, part);
    }
    let power = if next_is(s, part + 1, '+') || next_is(s, part + 1, '-') {
        part + 2
    } else {
        part + 1
    };
    if (next_is(s, part, 'e') || next_is(s, part, 'E')) && digit_is(s, power) {
        lemma_digit_run(s, power, end);
    }
    assert(number_end(s, first) == end);
    assert(digit_is(s, first));
}

proof fn lemma_digit_run(s: Seq<char>, i: int, end: int)
    requires
        digit_run(s, i, end),
    ensures
        scan(s, i, digits()) == end,
        digit_is(s, i),
{
    assert forall|j: int| i <= j < end implies digits()(#[trigger] s[j]) by {}
    lemma_run_to(s, i, end, digits());
}

/// The value of a hexadecimal digit, or none.
pub open spec fn hex_digit(c: char) -> int {
    if '0' <= c <= '9' {
        c as int - '0' as int
    } else if 'a' <= c <= 'f' {
        10 + (c as int - 'a' as int)
    } else if 'A' <= c <= 'F' {
        10 + (c as int - 'A' as int)
    } else {
        -1
    }
}

/// The number that four hexadecimal digits stand for.
pub open spec fn four_digits(s: Seq<char>, i: int) -> int {
    4096 * hex_digit(s[i]) + 256 * hex_digit(s[i + 1]) + 16 * hex_digit(s[i + 2]) + hex_digit(
        s[i + 3],
    )
}

/// Whether four hexadecimal digits stand at an index.
pub open spec fn four_are_digits(s: Seq<char>, i: int) -> bool {
    &&& 0 <= i && i + 4 <= s.len()
    &&& hex_digit(s[i]) >= 0 && hex_digit(s[i + 1]) >= 0
    &&& hex_digit(s[i + 2]) >= 0 && hex_digit(s[i + 3]) >= 0
}

/// Whether a number is that of a character.
pub open spec fn is_code(n: int) -> bool {
    0 <= n <= 0xd7ff || 0xe000 <= n <= 0x10ffff
}

/// One character of a string as it is written from `i` up to `next`: itself, if it is no backslash;
/// a backslash and a letter or a mark; or a backslash and its number in four or eight hexadecimal
/// digits.
pub open spec fn spells_char(s: Seq<char>, i: int, next: int, c: char) -> bool {
    &&& 0 <= i < next <= s.len()
    &&& {
        ||| s[i] != '\\' && next == i + 1 && c == s[i]
        ||| s[i] == '\\' && next == i + 2 && {
            ||| s[i + 1] == 't' && c == '\t'
            ||| s[i + 1] == 'n' && c == '\n'
            ||| s[i + 1] == 'r' && c == '\r'
            ||| s[i + 1] == 'b' && c == '\u{8}'
            ||| s[i + 1] == 'f' && c == '\u{c}'
            ||| s[i + 1] == '"' && c == '"'
            ||| s[i + 1] == '\'' && c == '\''
            ||| s[i + 1] == '\\' && c == '\\'
        }
        ||| s[i] == '\\' && next == i + 6 && s[i + 1] == 'u' && four_are_digits(s, i + 2)
            && c as int == four_digits(s, i + 2)
        ||| s[i] == '\\' && next == i + 10 && s[i + 1] == 'U' && four_are_digits(s, i + 2)
            && four_are_digits(s, i + 6) && c as int == 65536 * four_digits(s, i + 2)
            + four_digits(s, i + 6)
    }
}

/// Whether the quotes that close a string stand at an index: one, or three in a row.
pub open spec fn closing(s: Seq<char>, i: int, quote: char, width: int) -> bool {
    next_is(s, i, quote) && (width == 3 ==> next_is(s, i + 1, quote) && next_is(s, i + 2, quote))
}

proof fn lemma_four(s: Seq<char>, i: int)
    requires
        four_are_digits(s, i),
    ensures
        hex_number(s, i + 4, 4) == Some(four_digits(s, i)),
{
    assert forall|c: char| hex_digit(c) >= 0 implies #[trigger] hex_value(c) == Some(
        hex_digit(c),
    ) by {}
    assert(hex_number(s, i, 0) == Some(0int));
    assert(hex_number(s, i + 1, 1) == Some(hex_digit(s[i])));
    assert(hex_number(s, i + 2, 2) == Some(16 * hex_digit(s[i]) + hex_digit(s[i + 1])));
    assert(hex_number(s, i + 3, 3) == Some(
        16 * (16 * hex_digit(s[i]) + hex_digit(s[i + 1])) + hex_digit(s[i + 2]),
    ));
}

proof fn lemma_eight(s: Seq<char>, i: int)
    requires
        four_are_digits(s, i),
        four_are_digits(s, i + 4),
    ensures
        hex_number(s, i + 8, 8) == Some(65536 * four_digits(s, i) + four_digits(s, i + 4)),
{
    assert forall|c: char| hex_digit(c) >= 0 implies #[trigger] hex_value(c) == Some(
        hex_digit(c),
    ) by {}
    let high = four_digits(s, i);
    lemma_four(s, i);
    assert(hex_number(s, i + 5, 5) == Some(16 * high + hex_digit(s[i + 4])));
    assert(hex_number(s, i + 6, 6) == Some(
        16 * (16 * high + hex_digit(s[i + 4])) + hex_digit(s[i + 5]),
    ));
    assert(hex_number(s, i + 7, 7) == Some(
        16 * (16 * (16 * high + hex_digit(s[i + 4])) + hex_digit(s[i + 5])) + hex_digit(s[i + 6]),
    ));
}

proof fn lemma_spelled_char(s: Seq<char>, i: int, next: int, c: char)
    requires
        spells_char(s, i, next, c),
        s[i] == '\\',
    ensures
        escape_at(s, i) == Some((c, next)),
{
    if s[i + 1] == 'u' {
        lemma_four(s, i + 2);
    } else if s[i + 1] == 'U' {
        lemma_eight(s, i + 2);
    }
}

/// The characters of a string are those that are spelled one behind the other up to the first
/// closing quotes. A string that is not closed is refused where it begins, and one with a backslash
/// before anything else where the backslash stands.
pub proof fn law_contents_of_strings(
    s: Seq<char>,
    start: int,
    steps: Seq<int>,
    value: Seq<char>,
    quote: char,
    width: int,
)
    requires
        quote == '"' || quote == '\'',
        width == 1 || width == 3,
        steps.len() == value.len() + 1,
        0 <= steps[0],
        forall|j: int|
            0 <= j < value.len() ==> spells_char(s, #[trigger] steps[j], steps[j + 1], value[j])
                && !closing(s, steps[j], quote, width),
    ensures
        closing(s, steps.last(), quote, width) ==> string_body(s, start, steps[0], quote, width)
            == Ok::<(Seq<char>, int), ErrorView>((value, steps.last() + width)),
        steps.last() == s.len() ==> string_body(s, start, steps[0], quote, width) == Err::<
            (Seq<char>, int),
            ErrorView,
        >(ErrorView { message: "unterminated string"@, offset: Some(start) }),
        steps.last() < s.len() && s[steps.last()] == '\\' && escape_at(s, steps.last()) is None
            ==> string_body(s, start, steps[0], quote, width) == Err::<
            (Seq<char>, int),
            ErrorView,
        >(ErrorView { message: "unknown escape in string"@, offset: Some(steps.last()) }),
    decreases value.len(),
{
    if value.len() == 0 {
        assert(value =~= Seq::empty());
    } else {
        let i = steps[0];
        let more = steps.subrange(1, steps.len() as int);
        let rest = value.subrange(1, value.len() as int);
        assert(spells_char(s, i, steps[1], value[0]) && !closing(s, i, quote, width));
        assert forall|j: int| 0 <= j < rest.len() implies spells_char(
            s,
            #[trigger] more[j],
            more[j + 1],
            rest[j],
        ) && !closing(s, more[j], quote, width) by {
            assert(more[j] == steps[j + 1]);
        }
        law_contents_of_strings(s, start, more, rest, quote, width);
        assert(!closes_at(s, i, quote, width));
        if s[i] == '\\' {
            lemma_spelled_char(s, i, steps[1], value[0]);
        }
        assert(seq![value[0]] + rest =~= value);
    }
}

/// A backslash in a string stands before one of the characters that it can stand before, or before
/// the number of a character.
pub proof fn law_unknown_escapes(s: Seq<char>, i: int)
    requires
        0 <= i < s.len(),
        s[i] == '\\',
    ensures
        i + 1 == s.len() ==> escape_at(s, i) is None,
        i + 1 < s.len() && s[i + 1] != 't' && s[i + 1] != 'n' && s[i + 1] != 'r' && s[i + 1] != 'b'
            && s[i + 1] != 'f' && s[i + 1] != '"' && s[i + 1] != '\'' && s[i + 1] != '\\' && s[i
            + 1] != 'u' && s[i + 1] != 'U' ==> escape_at(s, i) is None,
        next_is(s, i + 1, 'u') && four_are_digits(s, i + 2) && !is_code(four_digits(s, i + 2))
            ==> escape_at(s, i) is None,
        next_is(s, i + 1, 'U') && four_are_digits(s, i + 2) && four_are_digits(s, i + 6)
            && !is_code(65536 * four_digits(s, i + 2) + four_digits(s, i + 6)) ==> escape_at(s, i)
            is None,
        next_is(s, i + 1, 'u') && i + 6 > s.len() ==> escape_at(s, i) is None,
        next_is(s, i + 1, 'U') && i + 10 > s.len() ==> escape_at(s, i) is None,
{
    if next_is(s, i + 1, 'u') && four_are_digits(s, i + 2) {
        lemma_four(s, i + 2);
    }
    if next_is(s, i + 1, 'U') && four_are_digits(s, i + 2) && four_are_digits(s, i + 6) {
        lemma_eight(s, i + 2);
    }
}

/// A string begins with three quotes in a row, or else with one, and has what stands between them
/// and the first closing ones as its value.
pub proof fn law_string_tokens(s: Seq<char>, i: int)
    requires
        0 <= i < s.len(),
        s[i] == '"' || s[i] == '\'',
    ensures
        ({
            let width = if next_is(s, i + 1, s[i]) && next_is(s, i + 2, s[i]) {
                3int
            } else {
                1int
            };
            token_at(s, i) == (match string_body(s, i, i + width, s[i], width) {
                Ok((value, end)) => found(KindView::String(value), end),
                Err(e) => Err(e),
            })
        }),
{
    assert(quote_width(s, i) == (if next_is(s, i + 1, s[i]) && next_is(s, i + 2, s[i]) {
        3int
    } else {
        1int
    }));
}

/// White space before a token is passed over, and so is a comment, which runs from `#` up to the
/// end of its line. The tokens of a text are those found one behind the other; behind them stands
/// the end of the text. The first one that is refused makes the text refused.
pub proof fn law_tokens_one_by_one(s: Seq<char>, i: int, end: int)
    requires
        0 <= i <= s.len(),
    ensures
        lex_text(s) == lex_from(s, 0),
        i == s.len() ==> lex_from(s, i) == Ok::<Seq<TokenView>, ErrorView>(
            seq![TokenView { kind: KindView::Eof, offset: s.len() as int }],
        ),
        i < s.len() && is_space(s[i]) ==> lex_from(s, i) == lex_from(s, i + 1),
        i < end <= s.len() && s[i] == '#' && (forall|j: int|
            i < j < end ==> #[trigger] s[j] != '\n') && (end < s.len() ==> s[end] == '\n')
            ==> lex_from(s, i) == lex_from(s, end),
        i < s.len() && !is_space(s[i]) && s[i] != '#' ==> lex_from(s, i) == (match token_at(s, i) {
            Ok((kind, next)) => match lex_from(s, next) {
                Ok(rest) => Ok(seq![TokenView { kind, offset: i }] + rest),
                Err(e) => Err(e),
            },
            Err(e) => Err(e),
        }),
{
    lemma_skip_blank(s, i);
    if i < s.len() && is_space(s[i]) {
        lemma_skip_blank(s, i + 1);
        assert(skip_blank(s, i) == skip_blank(s, i + 1));
    }
    if i < end <= s.len() && s[i] == '#' && (forall|j: int| i < j < end ==> #[trigger] s[j]
        != '\n') && (end < s.len() ==> s[end] == '\n') {
        lemma_run_to(s, i + 1, end, other_than('\n'));
        lemma_skip_blank(s, end);
        assert(skip_blank(s, i) == skip_blank(s, end));
    }
    if i < s.len() && !is_space(s[i]) && s[i] != '#' {
        assert(skip_blank(s, i) == i);
        lemma_token_at(s, i);
    }
}

} // verus!
