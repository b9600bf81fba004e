//! What the tokens of a message become where its labels are marked.
use crate::error::ErrorView;
use crate::lexer::{
    char_at, closes_at, digit_at, digits, escape_at, hex_number, hex_value, is_label_char,
    is_name_char, is_var_char, label_chars, lex_from, lex_text, mark, name_end, number_end,
    quote_width, skip_blank, string_body, tag_chars, token_at, var_chars,
};
use crate::message_log::{
    comment_end, lemma_string_end, marked, marked_from, marked_label, string_end,
};
use crate::reading_laws::{lemma_skip_blank, lemma_string_body, lemma_token_at};
use crate::text::{
    decimal, is_digit, is_space, lemma_decimal_nonempty, lemma_scan_bounds, other_than, scan,
};
use crate::token::{KindView, TokenView};
use crate::writing::lemma_run;
use vstd::prelude::*;

verus! {

/// From index `j` on `t` is what `s` becomes from index `i` on.
spec fn aligned(s: Seq<char>, t: Seq<char>, i: int, j: int, k: nat) -> bool {
    &&& 0 <= i <= s.len()
    &&& 0 <= j <= t.len()
    &&& t.subrange(j, t.len() as int) == marked_from(s, i, k)
}

/// A piece of the marked text that stands in `t`.
proof fn lemma_piece(
    s: Seq<char>,
    t: Seq<char>,
    i: int,
    j: int,
    k: nat,
    end: int,
    piece: Seq<char>,
)
    requires
        aligned(s, t, i, j, k),
        0 <= end <= s.len(),
        marked_from(s, i, k) == piece + marked_from(s, end, k),
    ensures
        aligned(s, t, end, j + piece.len(), k),
        t.subrange(j, j + piece.len()) == piece,
        forall|x: int| 0 <= x < piece.len() ==> t[j + x] == #[trigger] piece[x],
{
    let whole = t.subrange(j, t.len() as int);
    assert(whole.len() == piece.len() + marked_from(s, end, k).len());
    assert forall|x: int| 0 <= x < piece.len() implies t[j + x] == #[trigger] piece[x] by {
        assert(whole[x] == t[j + x]);
    }
    assert(t.subrange(j, j + piece.len()) =~= piece);
    assert forall|x: int| 0 <= x < marked_from(s, end, k).len() implies t[j + piece.len() + x]
        == #[trigger] marked_from(s, end, k)[x] by {
        assert(whole[piece.len() + x] == t[j + piece.len() + x]);
    }
    assert(t.subrange(j + piece.len(), t.len() as int) =~= marked_from(s, end, k));
}

/// Marking keeps the first character, and leaves nothing only where there was nothing.
proof fn lemma_first(s: Seq<char>, t: Seq<char>, i: int, j: int, k: nat)
    requires
        aligned(s, t, i, j, k),
    ensures
        i < s.len() ==> j < t.len() && t[j] == s[i],
        i == s.len() ==> j == t.len(),
{
    let whole = t.subrange(j, t.len() as int);
    if i < s.len() {
        reveal_strlit("_:m");
        if s[i] == '"' || s[i] == '\'' {
            lemma_string_end(s, i + 1, s[i]);
        } else if s[i] == '#' {
            lemma_scan_bounds(s, i + 1, other_than('\n'));
        } else if s[i] == '_' && char_at(s, i + 1, ':') {
            lemma_scan_bounds(s, i + 2, label_chars());
        }
        assert(marked_from(s, i, k).len() > 0 && marked_from(s, i, k)[0] == s[i]);
        assert(whole[0] == t[j]);
    } else {
        assert(whole.len() == 0);
    }
}

/// A character that marking keeps on its own.
spec fn inert(s: Seq<char>, i: int) -> bool {
    &&& s[i] != '"' && s[i] != '\'' && s[i] != '#'
    &&& !(s[i] == '_' && char_at(s, i + 1, ':'))
}

proof fn lemma_inert(s: Seq<char>, t: Seq<char>, i: int, j: int, k: nat)
    requires
        aligned(s, t, i, j, k),
        i < s.len(),
        inert(s, i),
    ensures
        aligned(s, t, i + 1, j + 1, k),
        t[j] == s[i],
{
    lemma_piece(s, t, i, j, k, i + 1, seq![s[i]]);
    assert(t[j + 0] == seq![s[i]][0]);
}

/// A run of such characters is kept.
proof fn lemma_inert_run(s: Seq<char>, t: Seq<char>, i: int, j: int, k: nat, end: int)
    requires
        aligned(s, t, i, j, k),
        i <= end <= s.len(),
        forall|x: int| i <= x < end ==> #[trigger] inert(s, x),
    ensures
        aligned(s, t, end, j + (end - i), k),
        forall|x: int| i <= x < end ==> t[j + (x - i)] == #[trigger] s[x],
        t.subrange(j, j + (end - i)) == s.subrange(i, end),
    decreases end - i,
{
    if i < end {
        assert(inert(s, i));
        lemma_inert(s, t, i, j, k);
        lemma_inert_run(s, t, i + 1, j + 1, k, end);
        assert forall|x: int| i <= x < end implies t[j + (x - i)] == #[trigger] s[x] by {
            if x > i {
                assert(t[j + 1 + (x - (i + 1))] == s[x]);
            }
        }
    }
    assert(t.subrange(j, j + (end - i)) =~= s.subrange(i, end));
}

/// White space and comments are kept.
proof fn lemma_blank(s: Seq<char>, t: Seq<char>, i: int, j: int, k: nat)
    requires
        aligned(s, t, i, j, k),
    ensures
        aligned(s, t, skip_blank(s, i), skip_blank(t, j), k),
    decreases s.len() - i,
{
    lemma_first(s, t, i, j, k);
    if i < s.len() && is_space(s[i]) {
        lemma_inert(s, t, i, j, k);
        lemma_blank(s, t, i + 1, j + 1, k);
    } else if i < s.len() && s[i] == '#' {
        let keep = other_than('\n');
        let stop = scan(s, i + 1, keep);
        let end = comment_end(s, i + 1);
        let piece = s.subrange(i, end);
        lemma_scan_bounds(s, i + 1, keep);
        lemma_piece(s, t, i, j, k, end, piece);
        assert forall|x: int| i <= x < end implies t[j + (x - i)] == #[trigger] s[x] by {
            assert(piece[x - i] == s[x]);
        }
        lemma_blank(s, t, end, j + (end - i), k);
        if stop < s.len() {
            assert(t[j + (stop - i)] == s[stop]);
            assert forall|y: int| j + 1 <= y < j + (stop - i) implies keep(#[trigger] t[y]) by {
                assert(t[j + ((i + (y - j)) - i)] == s[i + (y - j)]);
            }
            lemma_run(t, j + 1, j + (stop - i), keep);
            assert(skip_blank(s, stop) == skip_blank(s, end));
            assert(skip_blank(t, j + (stop - i)) == skip_blank(t, j + (end - i)));
        } else {
            lemma_first(s, t, end, j + (end - i), k);
            assert forall|y: int| j + 1 <= y < t.len() implies keep(#[trigger] t[y]) by {
                assert(t[j + ((i + (y - j)) - i)] == s[i + (y - j)]);
            }
            lemma_scan_bounds(t, j + 1, keep);
        }
    }
}

/// The index after the piece of text at index `i` that marking takes at once.
pub open spec fn piece_end(s: Seq<char>, i: int) -> int {
    if s[i] == '"' || s[i] == '\'' {
        string_end(s, i + 1, s[i])
    } else if s[i] == '#' {
        comment_end(s, i + 1)
    } else if s[i] == '_' && char_at(s, i + 1, ':') {
        scan(s, i + 2, label_chars())
    } else {
        i + 1
    }
}

/// Marking that comes to index `i` comes to index `end` too: no string or comment that it leaves as
/// it is reaches past it.
pub open spec fn comes_to(s: Seq<char>, i: int, end: int) -> bool
    decreases end - i,
{
    if i >= end {
        i == end
    } else {
        i < piece_end(s, i) <= end && comes_to(s, piece_end(s, i), end)
    }
}

/// Marking puts nothing but letters, digits and underscores into a text.
proof fn lemma_walk(s: Seq<char>, t: Seq<char>, i: int, j: int, k: nat, end: int, not: char) -> (r:
    int)
    requires
        aligned(s, t, i, j, k),
        i <= end <= s.len(),
        comes_to(s, i, end),
        forall|x: int| i <= x < end ==> #[trigger] s[x] != not,
        !is_label_char(not) && not != ':',
    ensures
        j <= r <= t.len(),
        aligned(s, t, end, r, k),
        forall|y: int| j <= y < r ==> #[trigger] t[y] != not,
    decreases end - i,
{
    if i >= end {
        j
    } else {
        let next = piece_end(s, i);
        let piece = if s[i] == '_' && char_at(s, i + 1, ':') && next > i + 2 {
            marked_label(k, s.subrange(i + 2, next))
        } else {
            s.subrange(i, next)
        };
        lemma_comes_to(s, next, end);
        if s[i] == '"' || s[i] == '\'' {
            lemma_string_end(s, i + 1, s[i]);
        } else if s[i] == '#' {
            lemma_scan_bounds(s, i + 1, other_than('\n'));
        } else if s[i] == '_' && char_at(s, i + 1, ':') {
            lemma_scan_bounds(s, i + 2, label_chars());
        } else {
            assert(s.subrange(i, i + 1) =~= seq![s[i]]);
        }
        lemma_piece(s, t, i, j, k, next, piece);
        assert forall|x: int| 0 <= x < piece.len() implies #[trigger] piece[x] != not by {
            if s[i] == '_' && char_at(s, i + 1, ':') && next > i + 2 {
                reveal_strlit("_:m");
                reveal_strlit("_");
                lemma_decimal_nonempty(k);
                let n = decimal(k).len();
                if 3 <= x < 3 + n {
                    assert(piece[x] == decimal(k)[x - 3]);
                } else if x > 3 + n {
                    assert(piece[x] == s[i + 2 + (x - 4 - n)]);
                }
            } else {
                assert(piece[x] == s[i + x]);
            }
        }
        let r = lemma_walk(s, t, next, j + piece.len(), k, end, not);
        assert forall|y: int| j <= y < r implies #[trigger] t[y] != not by {
            if y < j + piece.len() {
                assert(t[j + (y - j)] == piece[y - j]);
            }
        }
        r
    }
}

proof fn lemma_comes_to(s: Seq<char>, i: int, end: int)
    requires
        comes_to(s, i, end),
    ensures
        i <= end,
    decreases end - i,
{
    if i < end {
        lemma_comes_to(s, piece_end(s, i), end);
    }
}

/// A string that is closed ends where marking takes it to end.
proof fn lemma_closed(s: Seq<char>, start: int, i: int, quote: char)
    requires
        0 <= start < i,
        start < s.len(),
        quote == '"' || quote == '\'',
        string_body(s, start, i, quote, 1) is Ok,
    ensures
        string_end(s, i, quote) == string_body(s, start, i, quote, 1)->Ok_0.1,
    decreases s.len() - i,
{
    lemma_string_body(s, start, i, quote, 1);
    if !closes_at(s, i, quote, 1) {
        if s[i] == '\\' {
            let (c, next) = escape_at(s, i)->0;
            lemma_closed(s, start, next, quote);
            lemma_string_body(s, start, next, quote, 1);
            if s[i + 1] == 'u' {
                lemma_hex_plain(s, i + 6, 4, quote);
            } else if s[i + 1] == 'U' {
                lemma_hex_plain(s, i + 10, 8, quote);
            }
        } else {
            lemma_closed(s, start, i + 1, quote);
        }
    }
}

/// Hexadecimal digits do not end a string.
proof fn lemma_hex_plain(s: Seq<char>, end: int, n: nat, quote: char)
    requires
        n < end <= s.len(),
        hex_number(s, end, n) is Some,
        quote == '"' || quote == '\'',
    ensures
        string_end(s, end - n, quote) == string_end(s, end, quote),
    decreases n,
{
    if n > 0 {
        lemma_hex_plain(s, end - 1, (n - 1) as nat, quote);
        assert(hex_value(s[end - 1]) is Some);
    }
}

/// Hexadecimal digits are the same where the text is.
proof fn lemma_same_hex(s: Seq<char>, t: Seq<char>, i: int, j: int, end: int, n: nat)
    requires
        0 <= j,
        j + (end - i) <= t.len(),
        0 <= i <= end - n,
        end <= s.len(),
        forall|x: int| i <= x < end ==> t[j + (x - i)] == #[trigger] s[x],
    ensures
        hex_number(t, j + (end - i), n) == hex_number(s, end, n),
    decreases n,
{
    if n > 0 {
        assert(t[j + (end - 1 - i)] == s[end - 1]);
        lemma_same_hex(s, t, i, j, end - 1, (n - 1) as nat);
    }
}

/// A string is the same where the text is.
proof fn lemma_same_string(
    s: Seq<char>,
    t: Seq<char>,
    start: int,
    to: int,
    i: int,
    j: int,
    quote: char,
    width: int,
)
    requires
        0 <= start < i,
        start < s.len(),
        0 <= j,
        width == 1 || width == 3,
        string_body(s, start, i, quote, width) is Ok,
        ({
            let end = string_body(s, start, i, quote, width)->Ok_0.1;
            &&& j + (end - i) <= t.len()
            &&& forall|x: int| i <= x < end ==> t[j + (x - i)] == #[trigger] s[x]
        }),
    ensures
        string_body(t, to, j, quote, width) == Ok::<(Seq<char>, int), ErrorView>(
            (
                string_body(s, start, i, quote, width)->Ok_0.0,
                j + (string_body(s, start, i, quote, width)->Ok_0.1 - i),
            ),
        ),
    decreases s.len() - i,
{
    lemma_string_body(s, start, i, quote, width);
    let end = string_body(s, start, i, quote, width)->Ok_0.1;
    assert(t[j + (i - i)] == s[i]);
    if closes_at(s, i, quote, width) {
        if width == 3 {
            assert(t[j + (i + 1 - i)] == s[i + 1]);
            assert(t[j + (i + 2 - i)] == s[i + 2]);
        }
    } else {
        let next = if s[i] == '\\' {
            let (c, after) = escape_at(s, i)->0;
            after
        } else {
            i + 1
        };
        lemma_string_body(s, start, next, quote, width);
        assert forall|x: int| next <= x < end implies t[j + (next - i) + (x - next)]
            == #[trigger] s[x] by {
            assert(t[j + (x - i)] == s[x]);
        }
        lemma_same_string(s, t, start, to, next, j + (next - i), quote, width);
        assert(closes_at(t, j, quote, width) == closes_at(s, i, quote, width)) by {
            if width == 3 {
                assert(t[j + (i + 1 - i)] == s[i + 1]);
                assert(t[j + (i + 2 - i)] == s[i + 2]);
            }
        }
        if s[i] == '\\' {
            assert(t[j + (i + 1 - i)] == s[i + 1]);
            if s[i + 1] == 'u' {
                lemma_same_hex(s, t, i, j, i + 6, 4);
            } else if s[i + 1] == 'U' {
                lemma_same_hex(s, t, i, j, i + 10, 8);
            }
        }
    }
}

/// A run of characters of a name belongs to the name.
proof fn lemma_name_run(s: Seq<char>, i: int, end: int)
    requires
        0 <= i <= end <= s.len(),
        forall|x: int| i <= x < end ==> is_name_char(#[trigger] s[x]),
    ensures
        name_end(s, i) == name_end(s, end),
    decreases end - i,
{
    if i < end {
        lemma_name_run(s, i + 1, end);
    }
}

/// The characters that a marked label consists of may stand in a name.
proof fn lemma_label_in_name(k: nat, label: Seq<char>, x: int)
    requires
        0 <= x < marked_label(k, label).len(),
        forall|y: int| 0 <= y < label.len() ==> is_label_char(#[trigger] label[y]),
    ensures
        is_name_char(marked_label(k, label)[x]),
        x >= 2 ==> is_label_char(marked_label(k, label)[x]),
{
    reveal_strlit("_:m");
    reveal_strlit("_");
    lemma_decimal_nonempty(k);
    let n = decimal(k).len();
    if 3 <= x < 3 + n {
        assert(marked_label(k, label)[x] == decimal(k)[x - 3]);
    } else if x > 3 + n {
        assert(marked_label(k, label)[x] == label[x - 4 - n]);
    }
}

proof fn lemma_marked_name(s: Seq<char>, t: Seq<char>, i: int, j: int, k: nat)
    requires
        aligned(s, t, i, j, k),
    ensures
        aligned(s, t, name_end(s, i), name_end(t, j), k),
    decreases s.len() - i,
{
    lemma_first(s, t, i, j, k);
    if i < s.len() && s[i] == '_' && char_at(s, i + 1, ':') {
        let end = scan(s, i + 2, label_chars());
        lemma_scan_bounds(s, i + 2, label_chars());
        let label = s.subrange(i + 2, end);
        let piece = if end > i + 2 {
            marked_label(k, label)
        } else {
            s.subrange(i, i + 2)
        };
        lemma_piece(s, t, i, j, k, end, piece);
        lemma_name_run(s, i, end);
        assert forall|y: int| j <= y < j + piece.len() implies is_name_char(#[trigger] t[y]) by {
            assert(t[j + (y - j)] == piece[y - j]);
            if end > i + 2 {
                lemma_label_in_name(k, label, y - j);
            }
        }
        lemma_name_run(t, j, j + piece.len());
        lemma_marked_name(s, t, end, j + piece.len(), k);
    } else if i < s.len() && (is_name_char(s[i]) || s[i] == '.') {
        lemma_inert(s, t, i, j, k);
        lemma_first(s, t, i + 1, j + 1, k);
        if is_name_char(s[i]) || i + 1 < s.len() && is_name_char(s[i + 1]) {
            lemma_marked_name(s, t, i + 1, j + 1, k);
        }
    }
}

proof fn lemma_marked_digits(s: Seq<char>, t: Seq<char>, i: int, j: int, k: nat)
    requires
        aligned(s, t, i, j, k),
    ensures
        aligned(s, t, scan(s, i, digits()), scan(t, j, digits()), k),
    decreases s.len() - i,
{
    lemma_first(s, t, i, j, k);
    if i < s.len() && is_digit(s[i]) {
        lemma_inert(s, t, i, j, k);
        lemma_marked_digits(s, t, i + 1, j + 1, k);
    }
}

proof fn lemma_marked_number(s: Seq<char>, t: Seq<char>, i: int, j: int, k: nat)
    requires
        aligned(s, t, i, j, k),
        digit_at(s, i),
    ensures
        digit_at(t, j),
        aligned(s, t, number_end(s, i), number_end(t, j), k),
{
    lemma_first(s, t, i, j, k);
    lemma_marked_digits(s, t, i, j, k);
    let whole = scan(s, i, digits());
    let whole_t = scan(t, j, digits());
    lemma_first(s, t, whole, whole_t, k);
    let point = char_at(s, whole, '.');
    if point {
        lemma_inert(s, t, whole, whole_t, k);
        lemma_first(s, t, whole + 1, whole_t + 1, k);
        lemma_marked_digits(s, t, whole + 1, whole_t + 1, k);
    }
    let (fraction, fraction_t) = if point && digit_at(s, whole + 1) {
        (scan(s, whole + 1, digits()), scan(t, whole_t + 1, digits()))
    } else {
        (whole, whole_t)
    };
    lemma_first(s, t, fraction, fraction_t, k);
    if char_at(s, fraction, 'e') || char_at(s, fraction, 'E') {
        let (a, b) = (fraction + 1, fraction_t + 1);
        lemma_inert(s, t, fraction, fraction_t, k);
        lemma_first(s, t, a, b, k);
        lemma_marked_digits(s, t, a, b, k);
        if char_at(s, a, '+') || char_at(s, a, '-') {
            lemma_inert(s, t, a, b, k);
            lemma_first(s, t, a + 1, b + 1, k);
            lemma_marked_digits(s, t, a + 1, b + 1, k);
        }
    }
}

/// What all labels of the message with number `k` begin with.
pub open spec fn own_mark(k: nat) -> Seq<char> {
    "m"@ + decimal(k) + "_"@
}

/// A kind that, if it is a blank node, has a label of the message with number `k`.
pub open spec fn owned(kind: KindView, k: nat) -> bool {
    kind matches KindView::Blank(label) ==> own_mark(k).is_prefix_of(label)
}

/// Index `i` of `s` has become index `j` of `t`, or stands at the colon of what marking takes for
/// the beginning of a label.
spec fn near(s: Seq<char>, t: Seq<char>, i: int, j: int, k: nat) -> bool {
    ||| aligned(s, t, i, j, k)
    ||| {
        &&& 1 <= i < s.len()
        &&& s[i - 1] == '_'
        &&& s[i] == ':'
        &&& 1 <= j
        &&& aligned(s, t, i - 1, j - 1, k)
    }
}

/// A token that marking does not tear apart: it comes to the closing bracket of an IRI, and takes a
/// string in triple quotes to end where it ends.
pub open spec fn whole_token(s: Seq<char>, i: int, next: int) -> bool {
    if s[i] == '<' && !char_at(s, i + 1, '=') {
        comes_to(s, i + 1, next - 1)
    } else if (s[i] == '"' || s[i] == '\'') && quote_width(s, i) == 3 {
        string_end(s, i + 3, s[i]) == next - 2
    } else {
        true
    }
}

proof fn lemma_marked_blank(s: Seq<char>, t: Seq<char>, i: int, j: int, k: nat)
    requires
        aligned(s, t, i, j, k),
        i < s.len(),
        s[i] == '_',
        char_at(s, i + 1, ':'),
        token_at(s, i) is Ok,
    ensures
        ({
            let (kind, next) = token_at(s, i)->Ok_0;
            token_at(t, j) matches Ok((kind_t, next_t)) && aligned(s, t, next, next_t, k) && owned(
                kind_t,
                k,
            )
        }),
{
    let end = scan(s, i + 2, label_chars());
    let label = s.subrange(i + 2, end);
    let piece = marked_label(k, label);
    lemma_scan_bounds(s, i + 2, label_chars());
    lemma_piece(s, t, i, j, k, end, piece);
    reveal_strlit("_:m");
    reveal_strlit("_");
    reveal_strlit("m");
    assert(t[j + 0] == piece[0] && t[j + 1] == piece[1]);
    let stop = j + piece.len();
    lemma_first(s, t, end, stop, k);
    assert forall|y: int| j + 2 <= y < stop implies label_chars()(#[trigger] t[y]) by {
        assert(t[j + (y - j)] == piece[y - j]);
        lemma_label_in_name(k, label, y - j);
    }
    lemma_scan_bounds(t, j + 2, label_chars());
    if end < s.len() {
        lemma_run(t, j + 2, stop, label_chars());
    }
    assert(scan(t, j + 2, label_chars()) == stop);
    let found = t.subrange(j + 2, stop);
    assert(found =~= own_mark(k) + label) by {
        assert(t.subrange(j, stop) == piece);
        assert(found =~= piece.subrange(2, piece.len() as int));
    }
    assert(found.subrange(0, own_mark(k).len() as int) =~= own_mark(k));
}

proof fn lemma_marked_string(s: Seq<char>, t: Seq<char>, i: int, j: int, k: nat)
    requires
        aligned(s, t, i, j, k),
        i < s.len(),
        s[i] == '"' || s[i] == '\'',
        token_at(s, i) is Ok,
        whole_token(s, i, token_at(s, i)->Ok_0.1),
    ensures
        ({
            let (kind, next) = token_at(s, i)->Ok_0;
            token_at(t, j) matches Ok((kind_t, next_t)) && aligned(s, t, next, next_t, k) && owned(
                kind_t,
                k,
            )
        }),
{
    let q = s[i];
    let w = quote_width(s, i);
    let next = token_at(s, i)->Ok_0.1;
    lemma_string_body(s, i, i + w, q, w);
    if w == 1 {
        lemma_closed(s, i, i + 1, q);
        lemma_piece(s, t, i, j, k, next, s.subrange(i, next));
    } else {
        let a = i + 2;
        let b = next - 2;
        lemma_ends_quoted(s, i, i + 3, q);
        lemma_string_end(s, i + 3, q);
        assert(string_end(s, i + 1, q) == a);
        assert(string_end(s, b + 1, q) == next);
        lemma_piece(s, t, i, j, k, a, s.subrange(i, a));
        lemma_piece(s, t, a, j + 2, k, b, s.subrange(a, b));
        lemma_piece(s, t, b, j + (b - i), k, next, s.subrange(b, next));
    }
    assert forall|x: int| i <= x < next implies t[j + (x - i)] == #[trigger] s[x] by {
        if w == 1 {
            assert(s.subrange(i, next)[x - i] == s[x]);
        } else if x < i + 2 {
            assert(s.subrange(i, i + 2)[x - i] == s[x]);
        } else if x < next - 2 {
            assert(s.subrange(i + 2, next - 2)[x - i - 2] == s[x]);
            assert(t[j + 2 + (x - i - 2)] == s[x]);
        } else {
            assert(s.subrange(next - 2, next)[x - (next - 2)] == s[x]);
            assert(t[j + (next - 2 - i) + (x - (next - 2))] == s[x]);
        }
    }
    lemma_first(s, t, next, j + (next - i), k);
    assert(t[j + (i - i)] == s[i] && t[j + (i + 1 - i)] == s[i + 1]);
    assert(quote_width(t, j) == w) by {
        if next > i + 2 {
            assert(t[j + (i + 2 - i)] == s[i + 2]);
        }
    }
    assert forall|x: int| i + w <= x < next implies t[j + w + (x - (i + w))] == #[trigger] s[x] by {
        assert(t[j + (x - i)] == s[x]);
    }
    lemma_same_string(s, t, i, j, i + w, j + w, q, w);
}

/// A string in triple quotes ends with three quotes.
proof fn lemma_ends_quoted(s: Seq<char>, start: int, i: int, quote: char)
    requires
        0 <= start < i,
        start < s.len(),
        string_body(s, start, i, quote, 3) is Ok,
    ensures
        ({
            let end = string_body(s, start, i, quote, 3)->Ok_0.1;
            &&& i + 3 <= end <= s.len()
            &&& s[end - 1] == quote && s[end - 2] == quote && s[end - 3] == quote
        }),
    decreases s.len() - i,
{
    lemma_string_body(s, start, i, quote, 3);
    if !closes_at(s, i, quote, 3) {
        if s[i] == '\\' {
            let (c, next) = escape_at(s, i)->0;
            lemma_ends_quoted(s, start, next, quote);
        } else {
            lemma_ends_quoted(s, start, i + 1, quote);
        }
    }
}

proof fn lemma_marked_iri(s: Seq<char>, t: Seq<char>, i: int, j: int, k: nat)
    requires
        aligned(s, t, i, j, k),
        i < s.len(),
        s[i] == '<',
        token_at(s, i) is Ok,
        whole_token(s, i, token_at(s, i)->Ok_0.1),
    ensures
        ({
            let (kind, next) = token_at(s, i)->Ok_0;
            token_at(t, j) matches Ok((kind_t, next_t)) && aligned(s, t, next, next_t, k) && owned(
                kind_t,
                k,
            )
        }),
{
    lemma_inert(s, t, i, j, k);
    lemma_first(s, t, i + 1, j + 1, k);
    if char_at(s, i + 1, '=') {
        lemma_inert(s, t, i + 1, j + 1, k);
    } else {
        let close = scan(s, i + 1, other_than('>'));
        lemma_scan_bounds(s, i + 1, other_than('>'));
        assert forall|x: int| i + 1 <= x < close implies #[trigger] s[x] != '>' by {
            assert(other_than('>')(s[x]));
        }
        let r = lemma_walk(s, t, i + 1, j + 1, k, close, '>');
        lemma_first(s, t, close, r, k);
        lemma_inert(s, t, close, r, k);
        assert forall|y: int| j + 1 <= y < r implies other_than('>')(#[trigger] t[y]) by {}
        lemma_run(t, j + 1, r, other_than('>'));
    }
}

/// A run of characters that ends at one of another sort is such a run in the marked text.
proof fn lemma_marked_run(
    s: Seq<char>,
    t: Seq<char>,
    i: int,
    j: int,
    k: nat,
    end: int,
    keep: spec_fn(char) -> bool,
)
    requires
        aligned(s, t, i, j, k),
        i <= end <= s.len(),
        forall|x: int| i <= x < end ==> #[trigger] inert(s, x) && keep(s[x]),
        end < s.len() ==> !keep(s[end]),
    ensures
        aligned(s, t, end, j + (end - i), k),
        scan(t, j, keep) == j + (end - i),
        t.subrange(j, j + (end - i)) == s.subrange(i, end),
{
    lemma_inert_run(s, t, i, j, k, end);
    let stop = j + (end - i);
    lemma_first(s, t, end, stop, k);
    assert forall|y: int| j <= y < stop implies keep(#[trigger] t[y]) by {
        assert(inert(s, i + (y - j)));
        assert(t[j + ((i + (y - j)) - i)] == s[i + (y - j)]);
    }
    if end < s.len() {
        lemma_run(t, j, stop, keep);
    } else {
        lemma_scan_bounds(t, j, keep);
    }
}

proof fn lemma_marked_var(s: Seq<char>, t: Seq<char>, i: int, j: int, k: nat)
    requires
        aligned(s, t, i, j, k),
        i < s.len(),
        s[i] == '?',
        token_at(s, i) is Ok,
    ensures
        ({
            let (kind, next) = token_at(s, i)->Ok_0;
            token_at(t, j) matches Ok((kind_t, next_t)) && near(s, t, next, next_t, k) && owned(
                kind_t,
                k,
            )
        }),
{
    let end = scan(s, i + 1, var_chars());
    lemma_scan_bounds(s, i + 1, var_chars());
    lemma_inert(s, t, i, j, k);
    assert(forall|x: int| i + 1 <= x < end ==> is_var_char(#[trigger] s[x])) by {
        assert forall|x: int| i + 1 <= x < end implies is_var_char(#[trigger] s[x]) by {
            assert(var_chars()(s[x]));
        }
    }
    if s[end - 1] == '_' && char_at(s, end, ':') {
        let last = end - 1;
        assert forall|x: int| i + 1 <= x < last implies #[trigger] inert(s, x) by {
            assert(is_var_char(s[x]) && is_var_char(s[x + 1]));
        }
        lemma_inert_run(s, t, i + 1, j + 1, k, last);
        let stop = j + 1 + (last - (i + 1));
        lemma_colon(s, t, last, stop, k);
        assert forall|y: int| j + 1 <= y < stop + 1 implies var_chars()(#[trigger] t[y]) by {
            if y < stop {
                assert(t[j + 1 + ((i + (y - j)) - (i + 1))] == s[i + (y - j)]);
            }
        }
        lemma_run(t, j + 1, stop + 1, var_chars());
    } else {
        assert forall|x: int| i + 1 <= x < end implies #[trigger] inert(s, x) && var_chars()(
            s[x],
        ) by {
            assert(is_var_char(s[x]));
            if x + 1 < end {
                assert(is_var_char(s[x + 1]));
            }
        }
        lemma_marked_run(s, t, i + 1, j + 1, k, end, var_chars());
    }
}

/// What marking takes for the beginning of a label keeps its underscore and its colon.
proof fn lemma_colon(s: Seq<char>, t: Seq<char>, i: int, j: int, k: nat)
    requires
        aligned(s, t, i, j, k),
        i < s.len(),
        s[i] == '_',
        char_at(s, i + 1, ':'),
    ensures
        j + 1 < t.len(),
        t[j] == '_',
        t[j + 1] == ':',
{
    let end = scan(s, i + 2, label_chars());
    lemma_scan_bounds(s, i + 2, label_chars());
    reveal_strlit("_:m");
    let piece = if end > i + 2 {
        marked_label(k, s.subrange(i + 2, end))
    } else {
        s.subrange(i, i + 2)
    };
    lemma_piece(s, t, i, j, k, end, piece);
    assert(t[j + 0] == piece[0] && t[j + 1] == piece[1]);
}

/// A token of a message becomes a token, and a blank node one with a label of the message.
proof fn lemma_marked_token(s: Seq<char>, t: Seq<char>, i: int, j: int, k: nat)
    requires
        near(s, t, i, j, k),
        i < s.len(),
        !is_space(s[i]) && s[i] != '#',
        token_at(s, i) is Ok,
        whole_token(s, i, token_at(s, i)->Ok_0.1),
    ensures
        j < t.len(),
        t[j] == s[i],
        ({
            let (kind, next) = token_at(s, i)->Ok_0;
            token_at(t, j) matches Ok((kind_t, next_t)) && near(s, t, next, next_t, k) && owned(
                kind_t,
                k,
            )
        }),
{
    let c = s[i];
    if !aligned(s, t, i, j, k) {
        lemma_colon(s, t, i - 1, j - 1, k);
        lemma_marked_name(s, t, i - 1, j - 1, k);
        lemma_name_run(s, i - 1, i);
        lemma_name_run(t, j - 1, j);
    } else {
        lemma_first(s, t, i, j, k);
        if inert(s, i) {
            lemma_inert(s, t, i, j, k);
            lemma_first(s, t, i + 1, j + 1, k);
        }
        if mark(c) is Some {
        } else if c == '=' || c == '^' {
            if char_at(s, i + 1, '>') || char_at(s, i + 1, '^') {
                lemma_inert(s, t, i + 1, j + 1, k);
            }
        } else if c == '<' {
            lemma_marked_iri(s, t, i, j, k);
        } else if c == '@' {
            let end = scan(s, i + 1, tag_chars());
            lemma_scan_bounds(s, i + 1, tag_chars());
            assert forall|x: int| i + 1 <= x < end implies #[trigger] inert(s, x) && tag_chars()(
                s[x],
            ) by {
                assert(tag_chars()(s[x]));
            }
            lemma_marked_run(s, t, i + 1, j + 1, k, end, tag_chars());
        } else if c == '?' {
            lemma_marked_var(s, t, i, j, k);
        } else if c == '"' || c == '\'' {
            lemma_marked_string(s, t, i, j, k);
        } else if c == '_' && char_at(s, i + 1, ':') {
            lemma_marked_blank(s, t, i, j, k);
        } else if is_digit(c) {
            lemma_marked_number(s, t, i, j, k);
        } else if (c == '+' || c == '-') && digit_at(s, i + 1) {
            lemma_marked_number(s, t, i + 1, j + 1, k);
        } else {
            lemma_marked_name(s, t, i, j, k);
        }
    }
}

/// Text from index `i` on whose tokens marking does not tear apart.
pub open spec fn whole_from(s: Seq<char>, i: int) -> bool
    decreases s.len() - i,
{
    let at = skip_blank(s, i);
    if at < i || at >= s.len() {
        true
    } else {
        match token_at(s, at) {
            Ok((kind, next)) => at < next <= s.len() && whole_token(s, at, next) && whole_from(
                s,
                next,
            ),
            Err(_) => false,
        }
    }
}

/// Tokens whose blank nodes all have labels of the message with number `k`.
pub open spec fn all_owned(ts: Seq<TokenView>, k: nat) -> bool {
    forall|x: int| 0 <= x < ts.len() ==> owned((#[trigger] ts[x]).kind, k)
}

proof fn lemma_marked_tokens(s: Seq<char>, t: Seq<char>, i: int, j: int, k: nat)
    requires
        near(s, t, i, j, k),
        whole_from(s, i),
    ensures
        lex_from(t, j) matches Ok(ts) && all_owned(ts, k),
    decreases s.len() - i,
{
    let at = skip_blank(s, i);
    let at_t = skip_blank(t, j);
    lemma_skip_blank(s, i);
    if aligned(s, t, i, j, k) {
        lemma_blank(s, t, i, j, k);
        lemma_first(s, t, at, at_t, k);
    } else {
        lemma_colon(s, t, i - 1, j - 1, k);
    }
    assert(near(s, t, at, at_t, k));
    lemma_skip_blank(t, j);
    if at < s.len() {
        lemma_not_blank(s, i);
        let (kind, next) = token_at(s, at)->Ok_0;
        lemma_marked_token(s, t, at, at_t, k);
        let (kind_t, next_t) = token_at(t, at_t)->Ok_0;
        lemma_token_at(t, at_t);
        lemma_marked_tokens(s, t, next, next_t, k);
        let rest = lex_from(t, next_t)->Ok_0;
        let all = seq![TokenView { kind: kind_t, offset: at_t }] + rest;
        assert(lex_from(t, j) == Ok::<Seq<TokenView>, ErrorView>(all));
        assert forall|x: int| 0 <= x < all.len() implies owned((#[trigger] all[x]).kind, k) by {
            if x > 0 {
                assert(all[x] == rest[x - 1]);
            }
        }
    }
}

/// What stands behind white space and comments is neither.
proof fn lemma_not_blank(s: Seq<char>, i: int)
    requires
        0 <= i <= s.len(),
    ensures
        skip_blank(s, i) < s.len() ==> !is_space(s[skip_blank(s, i)]) && s[skip_blank(s, i)]
            != '#',
    decreases s.len() - i,
{
    if i < s.len() && is_space(s[i]) {
        lemma_not_blank(s, i + 1);
    } else if i < s.len() && s[i] == '#' {
        lemma_scan_bounds(s, i + 1, other_than('\n'));
        lemma_not_blank(s, scan(s, i + 1, other_than('\n')));
    }
}

/// Where marking tears no token of a message apart, the marked message can be split into tokens,
/// and every blank node that is written in it has a label of the message.
pub proof fn law_marked_tokens_are_owned(message: Seq<char>, k: nat)
    requires
        whole_from(message, 0),
    ensures
        lex_text(marked(message, k)) matches Ok(ts) && all_owned(ts, k),
{
    let t = marked(message, k);
    assert(t.subrange(0, t.len() as int) =~= t);
    lemma_marked_tokens(message, t, 0, 0, k);
}

} // verus!
