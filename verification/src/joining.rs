//! Texts one behind the other.
use crate::ast::DocumentView;
use crate::error::ErrorView;
use crate::grammar::{content, document, n3, scope, statement, statements, Cursor};
use crate::labels::{lemma_undeclaring, unbracketed, undeclaring};
use crate::lexer::{
    char_at, closes_at, digit_at, digits, escape_at, hex_number, is_name_char, label_chars,
    lemma_lex_ends, lex_from, lex_text, name_end, number_end, quote_width, skip_blank, string_body,
    tag_chars, token_at, var_chars,
};
use crate::locality::{begins_with, lemma_goes_on};
use crate::moving::{ends_with, law_statements_move, moved_document, moved_error, moved_token};
use crate::reading_laws::{
    after, bare, law_statements_add, law_tokens_are_in_order, lemma_number_end, lemma_skip_blank,
    lemma_token_at,
};
use crate::text::{is_space, lemma_scan_bounds, other_than, scan};
use crate::token::{KindView, TokenView};
use crate::writing::{lemma_lexes_first, lemma_run, lemma_token_text, plain, token_text};
use vstd::prelude::*;

verus! {

/// Two texts with a line feed between them.
pub open spec fn joined(a: Seq<char>, b: Seq<char>) -> Seq<char> {
    a.push('\n') + b
}

/// The index behind a text and a line feed.
pub open spec fn behind(a: Seq<char>) -> int {
    a.len() as int + 1
}

/// The text `b` stands at the end of `s`, behind `p` characters.
spec fn tail(s: Seq<char>, b: Seq<char>, p: int) -> bool {
    &&& 0 <= p
    &&& s.len() == b.len() + p
    &&& forall|i: int| 0 <= i < b.len() ==> #[trigger] b[i] == s[i + p]
}

proof fn tail_scan(s: Seq<char>, b: Seq<char>, p: int, i: int, keep: spec_fn(char) -> bool)
    requires
        tail(s, b, p),
        0 <= i <= b.len(),
    ensures
        scan(s, i + p, keep) == scan(b, i, keep) + p,
        i <= scan(b, i, keep) <= b.len(),
    decreases b.len() - i,
{
    if i < b.len() && keep(b[i]) {
        tail_scan(s, b, p, i + 1, keep);
    }
}

proof fn tail_skip_blank(s: Seq<char>, b: Seq<char>, p: int, i: int)
    requires
        tail(s, b, p),
        0 <= i <= b.len(),
    ensures
        skip_blank(s, i + p) == skip_blank(b, i) + p,
    decreases b.len() - i,
{
    if i < b.len() && is_space(b[i]) {
        tail_skip_blank(s, b, p, i + 1);
    } else if i < b.len() && b[i] == '#' {
        tail_scan(s, b, p, i + 1, other_than('\n'));
        tail_skip_blank(s, b, p, scan(b, i + 1, other_than('\n')));
    }
}

proof fn tail_name_end(s: Seq<char>, b: Seq<char>, p: int, i: int)
    requires
        tail(s, b, p),
        0 <= i <= b.len(),
    ensures
        name_end(s, i + p) == name_end(b, i) + p,
        i <= name_end(b, i) <= b.len(),
    decreases b.len() - i,
{
    if i + 1 < b.len() {
        assert(b[i + 1] == s[i + 1 + p]);
    }
    if i < b.len() && (is_name_char(b[i]) || b[i] == '.') {
        tail_name_end(s, b, p, i + 1);
    }
}

proof fn tail_number_end(s: Seq<char>, b: Seq<char>, p: int, i: int)
    requires
        tail(s, b, p),
        digit_at(b, i),
    ensures
        number_end(s, i + p) == number_end(b, i) + p,
{
    let whole = scan(b, i, digits());
    tail_scan(s, b, p, i, digits());
    assert(forall|j: int, c: char| 0 <= j ==> #[trigger] char_at(b, j, c) == char_at(s, j + p, c));
    assert(forall|j: int| 0 <= j ==> #[trigger] digit_at(b, j) == digit_at(s, j + p));
    let fraction = if char_at(b, whole, '.') && digit_at(b, whole + 1) {
        tail_scan(s, b, p, whole + 1, digits());
        scan(b, whole + 1, digits())
    } else {
        whole
    };
    assert(char_at(b, fraction + 1, '+') == char_at(s, fraction + 1 + p, '+'));
    if digit_at(b, fraction + 1) {
        tail_scan(s, b, p, fraction + 1, digits());
    }
    if digit_at(b, fraction + 2) {
        tail_scan(s, b, p, fraction + 2, digits());
    }
}

proof fn tail_hex(s: Seq<char>, b: Seq<char>, p: int, end: int, n: nat)
    requires
        tail(s, b, p),
        n <= end,
    ensures
        hex_number(s, end + p, n) == hex_number(b, end, n),
    decreases n,
{
    if n > 0 {
        tail_hex(s, b, p, end - 1, (n - 1) as nat);
    }
}

proof fn tail_escape(s: Seq<char>, b: Seq<char>, p: int, i: int)
    requires
        tail(s, b, p),
        0 <= i < b.len(),
    ensures
        escape_at(s, i + p) == (match escape_at(b, i) {
            Some((c, next)) => Some((c, next + p)),
            None => None,
        }),
{
    if i + 1 < b.len() {
        assert(b[i + 1] == s[i + 1 + p]);
    }
    tail_hex(s, b, p, i + 6, 4);
    tail_hex(s, b, p, i + 10, 8);
}

proof fn tail_string(
    s: Seq<char>,
    b: Seq<char>,
    p: int,
    start: int,
    i: int,
    quote: char,
    width: int,
)
    requires
        tail(s, b, p),
        0 <= i,
        width == 1 || width == 3,
    ensures
        string_body(s, start + p, i + p, quote, width) == (match string_body(
            b,
            start,
            i,
            quote,
            width,
        ) {
            Ok((value, end)) => Ok::<(Seq<char>, int), ErrorView>((value, end + p)),
            Err(e) => Err(moved_error(e, p)),
        }),
    decreases b.len() - i,
{
    if i < b.len() {
        assert(closes_at(s, i + p, quote, width) == closes_at(b, i, quote, width)) by {
            assert(b[i] == s[i + p]);
            if i + 1 < b.len() {
                assert(b[i + 1] == s[i + 1 + p]);
            }
            if i + 2 < b.len() {
                assert(b[i + 2] == s[i + 2 + p]);
            }
        }
        if !closes_at(b, i, quote, width) {
            if b[i] == '\\' {
                tail_escape(s, b, p, i);
                if let Some((c, next)) = escape_at(b, i) {
                    tail_string(s, b, p, start, next, quote, width);
                }
            } else {
                tail_string(s, b, p, start, i + 1, quote, width);
            }
        }
    }
}

proof fn tail_token(s: Seq<char>, b: Seq<char>, p: int, i: int)
    requires
        tail(s, b, p),
        0 <= i < b.len(),
    ensures
        token_at(s, i + p) == (match token_at(b, i) {
            Ok((kind, next)) => Ok::<(KindView, int), ErrorView>((kind, next + p)),
            Err(e) => Err(moved_error(e, p)),
        }),
{
    let c = b[i];
    assert(s[i + p] == c);
    assert(forall|x: char| #[trigger] char_at(s, i + p + 1, x) == char_at(b, i + 1, x)) by {
        if i + 1 < b.len() {
            assert(b[i + 1] == s[i + 1 + p]);
        }
    }
    assert(forall|x: char| #[trigger] char_at(s, i + p + 2, x) == char_at(b, i + 2, x)) by {
        if i + 2 < b.len() {
            assert(b[i + 2] == s[i + 2 + p]);
        }
    }
    assert(digit_at(s, i + p + 1) == digit_at(b, i + 1)) by {
        if i + 1 < b.len() {
            assert(b[i + 1] == s[i + 1 + p]);
        }
    }
    assert forall|x: int, y: int| 0 <= x <= y <= b.len() implies #[trigger] b.subrange(x, y)
        == s.subrange(x + p, y + p) by {
        assert(b.subrange(x, y) =~= s.subrange(x + p, y + p));
    }
    if c == '<' {
        tail_scan(s, b, p, i + 1, other_than('>'));
    } else if c == '@' {
        tail_scan(s, b, p, i + 1, tag_chars());
    } else if c == '?' {
        tail_scan(s, b, p, i + 1, var_chars());
    } else if c == '"' || c == '\'' {
        assert(quote_width(s, i + p) == quote_width(b, i));
        tail_string(s, b, p, i, i + quote_width(b, i), c, quote_width(b, i));
    } else if c == '_' && char_at(b, i + 1, ':') {
        tail_scan(s, b, p, i + 2, label_chars());
    } else if digit_at(b, i) {
        tail_number_end(s, b, p, i);
        lemma_number_end(b, i);
    } else if (c == '+' || c == '-') && digit_at(b, i + 1) {
        tail_number_end(s, b, p, i + 1);
        lemma_number_end(b, i + 1);
    } else if is_name_char(c) {
        tail_name_end(s, b, p, i);
    }
}

/// Tokens, or an error, `k` characters further on.
pub open spec fn moved_tokens(r: Result<Seq<TokenView>, ErrorView>, k: int) -> Result<
    Seq<TokenView>,
    ErrorView,
> {
    match r {
        Ok(ts) => Ok(ts.map_values(|t: TokenView| moved_token(t, k))),
        Err(e) => Err(moved_error(e, k)),
    }
}

proof fn tail_lex(s: Seq<char>, b: Seq<char>, p: int, i: int)
    requires
        tail(s, b, p),
        0 <= i <= b.len(),
    ensures
        lex_from(s, i + p) == moved_tokens(lex_from(b, i), p),
    decreases b.len() - i,
{
    let move_it = |t: TokenView| moved_token(t, p);
    lemma_skip_blank(b, i);
    tail_skip_blank(s, b, p, i);
    let at = skip_blank(b, i);
    if at < b.len() {
        tail_token(s, b, p, at);
        if let Ok((kind, next)) = token_at(b, at) {
            lemma_token_at(b, at);
            tail_lex(s, b, p, next);
            if let Ok(rest) = lex_from(b, next) {
                let first = TokenView { kind, offset: at };
                assert((seq![first] + rest).map_values(move_it) =~= seq![moved_token(first, p)]
                    + rest.map_values(move_it));
            }
        }
    } else {
        let end = seq![TokenView { kind: KindView::Eof, offset: b.len() as int }];
        assert(end.map_values(move_it) =~= seq![
            TokenView { kind: KindView::Eof, offset: s.len() as int },
        ]);
    }
}

/// The text `s` begins with `a` and a line feed or a space.
spec fn head(s: Seq<char>, a: Seq<char>) -> bool {
    &&& a.len() < s.len()
    &&& s[a.len() as int] == '\n' || s[a.len() as int] == ' '
    &&& forall|i: int| 0 <= i < a.len() ==> #[trigger] a[i] == s[i]
}

proof fn head_scan(s: Seq<char>, a: Seq<char>, i: int, keep: spec_fn(char) -> bool)
    requires
        head(s, a),
        0 <= i <= a.len(),
        scan(a, i, keep) < a.len() || !keep(s[a.len() as int]),
    ensures
        scan(s, i, keep) == scan(a, i, keep),
        i <= scan(a, i, keep) <= a.len(),
    decreases a.len() - i,
{
    if i < a.len() && keep(a[i]) {
        head_scan(s, a, i + 1, keep);
    }
}

/// White space and comments end where they end in the first text, or go on behind the line feed;
/// a comment also goes on behind a space.
proof fn head_skip_blank(s: Seq<char>, a: Seq<char>, i: int)
    requires
        head(s, a),
        0 <= i <= a.len(),
        skip_blank(a, i) < a.len() || s[a.len() as int] == '\n' || i == a.len(),
    ensures
        skip_blank(s, i) == (if skip_blank(a, i) < a.len() {
            skip_blank(a, i)
        } else {
            skip_blank(s, behind(a))
        }),
    decreases a.len() - i,
{
    if i < a.len() && is_space(a[i]) {
        head_skip_blank(s, a, i + 1);
    } else if i < a.len() && a[i] == '#' {
        let end = scan(a, i + 1, other_than('\n'));
        lemma_scan_bounds(a, i + 1, other_than('\n'));
        assert(skip_blank(a, i) == skip_blank(a, end));
        assert(end == a.len() ==> skip_blank(a, end) == end);
        head_scan(s, a, i + 1, other_than('\n'));
        head_skip_blank(s, a, end);
    }
}

proof fn head_name_end(s: Seq<char>, a: Seq<char>, i: int)
    requires
        head(s, a),
        0 <= i <= a.len(),
    ensures
        name_end(s, i) == name_end(a, i),
        i <= name_end(a, i) <= a.len(),
    decreases a.len() - i,
{
    if i + 1 < a.len() {
        assert(a[i + 1] == s[i + 1]);
    }
    if i < a.len() && (is_name_char(a[i]) || a[i] == '.') {
        head_name_end(s, a, i + 1);
    }
}

proof fn head_number_end(s: Seq<char>, a: Seq<char>, i: int)
    requires
        head(s, a),
        digit_at(a, i),
    ensures
        number_end(s, i) == number_end(a, i),
{
    let whole = scan(a, i, digits());
    head_scan(s, a, i, digits());
    assert(forall|j: int| 0 <= j <= a.len() ==> #[trigger] digit_at(a, j) == digit_at(s, j));
    assert(forall|j: int, c: char|
        0 <= j <= a.len() && c != '\n' && c != ' ' ==> #[trigger] char_at(a, j, c) == char_at(
            s,
            j,
            c,
        ));
    let fraction = if char_at(a, whole, '.') && digit_at(a, whole + 1) {
        head_scan(s, a, whole + 1, digits());
        scan(a, whole + 1, digits())
    } else {
        whole
    };
    if digit_at(a, fraction + 1) {
        head_scan(s, a, fraction + 1, digits());
    }
    if digit_at(a, fraction + 2) {
        head_scan(s, a, fraction + 2, digits());
    }
}

proof fn head_hex(s: Seq<char>, a: Seq<char>, end: int, n: nat)
    requires
        head(s, a),
        hex_number(a, end, n) is Some,
    ensures
        hex_number(s, end, n) == hex_number(a, end, n),
    decreases n,
{
    if n > 0 {
        head_hex(s, a, end - 1, (n - 1) as nat);
    }
}

proof fn head_string(
    s: Seq<char>,
    a: Seq<char>,
    start: int,
    i: int,
    quote: char,
    width: int,
)
    requires
        head(s, a),
        0 <= i,
        width == 1 || width == 3,
        quote == '"' || quote == '\'',
        string_body(a, start, i, quote, width) is Ok,
    ensures
        string_body(s, start, i, quote, width) == string_body(a, start, i, quote, width),
    decreases a.len() - i,
{
    assert(closes_at(s, i, quote, width) == closes_at(a, i, quote, width)) by {
        if i + 1 < a.len() {
            assert(a[i + 1] == s[i + 1]);
        }
        if i + 2 < a.len() {
            assert(a[i + 2] == s[i + 2]);
        }
    }
    if !closes_at(a, i, quote, width) {
        if a[i] == '\\' {
            let (c, next) = escape_at(a, i)->0;
            assert(a[i + 1] == s[i + 1]);
            if a[i + 1] == 'u' {
                head_hex(s, a, i + 6, 4);
            } else if a[i + 1] == 'U' {
                head_hex(s, a, i + 10, 8);
            }
            head_string(s, a, start, next, quote, width);
        } else {
            head_string(s, a, start, i + 1, quote, width);
        }
    }
}

proof fn head_token(s: Seq<char>, a: Seq<char>, i: int)
    requires
        head(s, a),
        0 <= i < a.len(),
        token_at(a, i) is Ok,
    ensures
        token_at(s, i) == token_at(a, i),
{
    let c = a[i];
    assert(s[i] == c);
    assert(forall|x: char|
        x != '\n' && x != ' ' ==> #[trigger] char_at(s, i + 1, x) == char_at(a, i + 1, x)) by {
        if i + 1 < a.len() {
            assert(a[i + 1] == s[i + 1]);
        }
    }
    assert(digit_at(s, i + 1) == digit_at(a, i + 1)) by {
        if i + 1 < a.len() {
            assert(a[i + 1] == s[i + 1]);
        }
    }
    assert forall|x: int, y: int| 0 <= x <= y <= a.len() implies #[trigger] a.subrange(x, y)
        == s.subrange(x, y) by {
        assert(a.subrange(x, y) =~= s.subrange(x, y));
    }
    if c == '<' {
        if !char_at(a, i + 1, '=') {
            head_scan(s, a, i + 1, other_than('>'));
        }
    } else if c == '@' {
        head_scan(s, a, i + 1, tag_chars());
    } else if c == '?' {
        head_scan(s, a, i + 1, var_chars());
    } else if c == '"' || c == '\'' {
        assert(quote_width(s, i) == quote_width(a, i)) by {
            if i + 2 < a.len() {
                assert(a[i + 2] == s[i + 2]);
            }
        }
        head_string(s, a, i, i + quote_width(a, i), c, quote_width(a, i));
    } else if c == '_' && char_at(a, i + 1, ':') {
        head_scan(s, a, i + 2, label_chars());
    } else if digit_at(a, i) {
        head_number_end(s, a, i);
        lemma_number_end(a, i);
    } else if (c == '+' || c == '-') && digit_at(a, i + 1) {
        head_number_end(s, a, i + 1);
        lemma_number_end(a, i + 1);
    } else if is_name_char(c) {
        head_name_end(s, a, i);
    }
}

/// The tokens of the first text without its end, and those of the second one behind them.
pub open spec fn joined_tokens(
    first: Seq<TokenView>,
    second: Result<Seq<TokenView>, ErrorView>,
    k: int,
) -> Result<Seq<TokenView>, ErrorView> {
    match moved_tokens(second, k) {
        Ok(ts) => Ok(first.drop_last() + ts),
        Err(e) => Err(e),
    }
}

/// Whether the last token of a text is its last character.
pub open spec fn ends_tight(a: Seq<char>, ts: Seq<TokenView>) -> bool {
    ts.len() > 1 && ts[ts.len() - 2].offset == a.len() - 1
}

proof fn head_lex(s: Seq<char>, a: Seq<char>, b: Seq<char>, i: int)
    requires
        head(s, a),
        tail(s, b, behind(a)),
        0 <= i <= a.len(),
        lex_from(a, i) is Ok,
        s[a.len() as int] == '\n' || i == a.len() || ends_tight(a, lex_from(a, i)->Ok_0),
    ensures
        lex_from(s, i) == joined_tokens(lex_from(a, i)->Ok_0, lex_text(b), behind(a)),
    decreases a.len() - i,
{
    let k = behind(a);
    lemma_skip_blank(a, i);
    let at = skip_blank(a, i);
    let whole = lex_from(a, i)->Ok_0;
    head_skip_blank(s, a, i);
    if at < a.len() {
        let (kind, next) = token_at(a, at)->Ok_0;
        let first = TokenView { kind, offset: at };
        let rest = lex_from(a, next)->Ok_0;
        head_token(s, a, at);
        lemma_lex_ends(a, next);
        assert(whole == seq![first] + rest);
        if rest.len() > 1 {
            assert(whole[whole.len() - 2] == rest[rest.len() - 2]);
        } else {
            assert(whole[whole.len() - 2] == first);
        }
        head_lex(s, a, b, next);
        if let Ok(ts) = moved_tokens(lex_text(b), k) {
            assert(seq![first] + (rest.drop_last() + ts) =~= whole.drop_last() + ts);
        }
    } else {
        tail_lex(s, b, k, 0);
        lemma_skip_blank(s, k);
        assert(lex_from(s, i) == lex_from(s, k));
        if let Ok(ts) = moved_tokens(lex_text(b), k) {
            assert(whole.drop_last() + ts =~= ts);
        }
    }
}

/// The tokens of two texts with a line feed between them are those of the first text, if it has
/// any, and then those of the second one.
pub proof fn law_tokens_join(a: Seq<char>, b: Seq<char>)
    requires
        lex_text(a) is Ok,
    ensures
        lex_text(joined(a, b)) == joined_tokens(lex_text(a)->Ok_0, lex_text(b), behind(a)),
{
    head_lex(joined(a, b), a, b, 0);
}

/// Two texts with a space between them.
pub open spec fn spaced(a: Seq<char>, b: Seq<char>) -> Seq<char> {
    a.push(' ') + b
}

/// The same holds of a space between two texts, where the first one ends with a token of one
/// character, and so not with a comment.
pub proof fn law_tokens_join_at_space(a: Seq<char>, b: Seq<char>)
    requires
        lex_text(a) is Ok,
        ends_tight(a, lex_text(a)->Ok_0),
    ensures
        lex_text(spaced(a, b)) == joined_tokens(lex_text(a)->Ok_0, lex_text(b), behind(a)),
{
    head_lex(spaced(a, b), a, b, 0);
}

/// The tokens of a text behind a token and a space are that token and then those of the text.
pub proof fn law_tokens_join_behind(kind: KindView, b: Seq<char>)
    requires
        plain(kind),
    ensures
        lex_text(spaced(token_text(kind), b)) == (match moved_tokens(
            lex_text(b),
            behind(token_text(kind)),
        ) {
            Ok(ts) => Ok::<Seq<TokenView>, ErrorView>(
                seq![TokenView { kind, offset: 0 }] + ts,
            ),
            Err(e) => Err(e),
        }),
{
    let a = token_text(kind);
    let s = spaced(a, b);
    assert(s.subrange(0, a.len() as int) =~= a);
    lemma_lexes_first(s, 0, kind);
    assert(tail(s, b, behind(a)));
    tail_lex(s, b, behind(a), 0);
}

/// Reading goes on behind a text and a line feed from what the text says; an error in what follows
/// is reported where it stands. No labels have been made where the text has no brackets.
pub proof fn law_texts_join(a: Seq<char>, b: Seq<char>, base: Option<Seq<char>>) -> (blanks: nat)
    requires
        n3(a, base) is Ok,
    ensures
        n3(joined(a, b), base) == (match lex_text(b) {
            Ok(ts) => moved_document(
                statements(ts, n3(a, base)->Ok_0, Cursor { pos: 0, blanks }),
                behind(a),
            ),
            Err(e) => Err::<DocumentView, ErrorView>(moved_error(e, behind(a))),
        }),
        unbracketed(lex_text(a)->Ok_0) ==> blanks == 0,
{
    let k = behind(a);
    let first = lex_text(a)->Ok_0;
    let n = first.len() - 1;
    let start = DocumentView { base_iri: base, ..DocumentView::empty() };
    law_tokens_join(a, b);
    law_tokens_are_in_order(a);
    match lex_text(b) {
        Ok(second) => {
            let behind_it = second.map_values(|t: TokenView| moved_token(t, k));
            let all = first.drop_last() + behind_it;
            law_tokens_are_in_order(b);
            assert(all.last() == behind_it.last());
            assert(behind_it.last() == moved_token(second.last(), k));
            assert forall|i: int| 0 <= i < n implies #[trigger] first[i] == all[i]
                && !(first[i].kind is Eof) by {}
            assert(begins_with(all, first));
            assert forall|i: int| 0 <= i < second.len() implies moved_token(
                #[trigger] second[i],
                k,
            ) == all[i + n] by {
                assert(all[i + n] == behind_it[i]);
            }
            assert(ends_with(all, second, 0, n, k));
            let blanks = lemma_goes_on(first, all, start, Cursor { pos: 0, blanks: 0 });
            law_statements_move(
                second,
                all,
                0,
                n,
                k,
                n3(a, base)->Ok_0,
                Cursor { pos: 0, blanks },
            );
            blanks
        },
        Err(e) => 0,
    }
}

/// A text behind one that declares nothing and has no brackets says what it says on its own: two
/// such texts together say the facts and the rules of both in their order, with the declarations
/// of the second one; an error of the second one is reported where it stands.
pub proof fn law_texts_add(a: Seq<char>, b: Seq<char>, base: Option<Seq<char>>)
    requires
        n3(a, base) is Ok,
        unbracketed(lex_text(a)->Ok_0),
        undeclaring(lex_text(a)->Ok_0),
    ensures
        n3(joined(a, b), base) == moved_document(
            match n3(b, base) {
                Ok(said) => Ok::<DocumentView, ErrorView>(after(n3(a, base)->Ok_0, said)),
                Err(e) => Err(e),
            },
            behind(a),
        ),
{
    let first = lex_text(a)->Ok_0;
    let start = DocumentView { base_iri: base, ..DocumentView::empty() };
    let c = Cursor { pos: 0, blanks: 0 };
    let said = n3(a, base)->Ok_0;
    let blanks = law_texts_join(a, b, base);
    law_tokens_are_in_order(a);
    lemma_undeclaring(first, start, c);
    assert(bare(said) =~= start);
    if let Ok(ts) = lex_text(b) {
        law_statements_add(ts, said, c);
    }
}

/// The text of a declaration of a base.
pub open spec fn base_text(iri: Seq<char>) -> Seq<char> {
    seq!['@', 'b', 'a', 's', 'e', ' ', '<'] + iri + seq!['>', ' ', '.']
}

/// The tokens of a declaration of a base.
spec fn base_tokens(iri: Seq<char>) -> Seq<TokenView> {
    let end = base_text(iri).len() as int;
    seq![
        TokenView { kind: KindView::AtBase, offset: 0 },
        TokenView { kind: KindView::Iri(iri), offset: 6 },
        TokenView { kind: KindView::Dot, offset: end - 1 },
        TokenView { kind: KindView::Eof, offset: end },
    ]
}

proof fn lemma_base_keyword(s: Seq<char>)
    requires
        s.len() > 5,
        s[0] == '@' && s[1] == 'b' && s[2] == 'a' && s[3] == 's' && s[4] == 'e' && s[5] == ' ',
    ensures
        token_at(s, 0) == Ok::<(KindView, int), ErrorView>((KindView::AtBase, 5)),
{
    reveal_strlit("base");
    reveal_strlit("prefix");
    lemma_run(s, 1, 5, tag_chars());
    assert(s.subrange(1, 5) =~= "base"@);
}

proof fn lemma_base_tokens(iri: Seq<char>)
    requires
        plain(KindView::Iri(iri)),
    ensures
        lex_text(base_text(iri)) == Ok::<Seq<TokenView>, ErrorView>(base_tokens(iri)),
{
    let s = base_text(iri);
    let end = s.len() as int;
    let ts = base_tokens(iri);
    assert(s[0] == '@' && s[1] == 'b' && s[2] == 'a' && s[3] == 's' && s[4] == 'e' && s[5] == ' ');
    assert(s[end - 2] == ' ' && s[end - 1] == '.');
    lemma_base_keyword(s);
    assert(s.subrange(6, end - 2) =~= token_text(KindView::Iri(iri)));
    lemma_token_text(s, 6, KindView::Iri(iri));
    assert(token_at(s, end - 1) == Ok::<(KindView, int), ErrorView>((KindView::Dot, end)));
    assert(skip_blank(s, 0) == 0);
    assert(skip_blank(s, 5) == skip_blank(s, 6) && skip_blank(s, 6) == 6);
    assert(skip_blank(s, end - 2) == skip_blank(s, end - 1) && skip_blank(s, end - 1) == end - 1);
    assert(skip_blank(s, end) == end);
    assert(lex_from(s, end)->Ok_0 =~= seq![ts[3]]);
    assert(lex_from(s, end - 2)->Ok_0 =~= seq![ts[2], ts[3]]);
    assert(lex_from(s, 5)->Ok_0 =~= seq![ts[1], ts[2], ts[3]]);
    assert(lex_from(s, 0)->Ok_0 =~= ts);
}

proof fn lemma_base_statement(iri: Seq<char>, base: Option<Seq<char>>)
    ensures
        document(base_tokens(iri), base) == Ok::<DocumentView, ErrorView>(
            DocumentView { base_iri: Some(iri), ..DocumentView::empty() },
        ),
        unbracketed(base_tokens(iri)),
{
    let ts = base_tokens(iri);
    let start = DocumentView { base_iri: base, ..DocumentView::empty() };
    let told = DocumentView { base_iri: Some(iri), ..DocumentView::empty() };
    let c = Cursor { pos: 0, blanks: 0 };
    let d = Cursor { pos: 3, blanks: 0 };
    let s = scope(ts, start);
    assert(content(s, start, c) == Ok::<(DocumentView, Cursor), ErrorView>(
        (told, Cursor { pos: 2, blanks: 0 }),
    ));
    assert(statement(ts, start, c) == Ok::<(DocumentView, Cursor), ErrorView>((told, d)));
    assert(statements(ts, told, d) == Ok::<DocumentView, ErrorView>(told));
}

proof fn lemma_base_text(iri: Seq<char>, base: Option<Seq<char>>)
    requires
        plain(KindView::Iri(iri)),
    ensures
        n3(base_text(iri), base) == Ok::<DocumentView, ErrorView>(
            DocumentView { base_iri: Some(iri), ..DocumentView::empty() },
        ),
        unbracketed(lex_text(base_text(iri))->Ok_0),
{
    lemma_base_tokens(iri);
    lemma_base_statement(iri, base);
}

/// A text behind a declaration of a base is read as it is read with that base given; whatever
/// base is given has no effect.
pub proof fn law_leading_base(iri: Seq<char>, text: Seq<char>, base: Option<Seq<char>>)
    requires
        plain(KindView::Iri(iri)),
    ensures
        n3(joined(base_text(iri), text), base) == moved_document(
            n3(text, Some(iri)),
            behind(base_text(iri)),
        ),
{
    lemma_base_text(iri, base);
    let blanks = law_texts_join(base_text(iri), text, base);
}

} // verus!
