//! From text to tokens.
use crate::error::{ErrorView, EyeronError};
use crate::text::{
    char_is_digit, char_is_letter, char_is_space, find, is_ascii_letter, is_digit, is_space,
    lemma_scan_bounds, other_than, same_chars, same_ignoring_case, same_letters, scan, to_chars,
    to_text,
};
use crate::token::{tokens, KindView, Token, TokenKind, TokenView};
use vstd::arithmetic::power::{lemma_pow_increases, pow};
use vstd::prelude::*;
use vstd::slice::slice_subrange;

verus! {

/// Specifies `char::from_u32`: it gives the character with the code `i` where `i` is the code of
/// a character, which a surrogate and a number above `0x10ffff` are not.
pub assume_specification[ std::char::from_u32 ](i: u32) -> (r: Option<char>)
    ensures
        r == (if i <= 0xd7ff || 0xe000 <= i <= 0x10ffff {
            Some(i as char)
        } else {
            None
        }),
;

/// A character that a blank node label may hold.
pub open spec fn is_label_char(c: char) -> bool {
    is_ascii_letter(c) || is_digit(c) || c == '_' || c == '-'
}

/// A character that a name may hold anywhere.
pub open spec fn is_name_char(c: char) -> bool {
    is_label_char(c) || c == ':' || c == '%' || (c >= '\u{80}' && !is_space(c))
}

/// A character that a language tag may hold.
pub open spec fn is_tag_char(c: char) -> bool {
    is_ascii_letter(c) || is_digit(c) || c == '-'
}

/// A character that the name of a variable may hold.
pub open spec fn is_var_char(c: char) -> bool {
    is_name_char(c) && c != ':' && c != '%'
}

/// The characters of blank node labels.
pub open spec fn label_chars() -> spec_fn(char) -> bool {
    |c: char| is_label_char(c)
}

/// The characters of language tags.
pub open spec fn tag_chars() -> spec_fn(char) -> bool {
    |c: char| is_tag_char(c)
}

/// The characters of names of variables.
pub open spec fn var_chars() -> spec_fn(char) -> bool {
    |c: char| is_var_char(c)
}

/// The decimal digits.
pub open spec fn digits() -> spec_fn(char) -> bool {
    |c: char| is_digit(c)
}

/// Whether the character at index `i` is `c`.
pub open spec fn char_at(s: Seq<char>, i: int, c: char) -> bool {
    0 <= i < s.len() && s[i] == c
}

/// Whether the character at index `i` is a digit.
pub open spec fn digit_at(s: Seq<char>, i: int) -> bool {
    0 <= i < s.len() && is_digit(s[i])
}

/// The first index from `i` on that belongs neither to white space nor to a comment, which runs
/// from `#` to the end of the line.
pub open spec fn skip_blank(s: Seq<char>, i: int) -> int
    decreases s.len() - i,
{
    if i < 0 || i >= s.len() {
        i
    } else if is_space(s[i]) {
        skip_blank(s, i + 1)
    } else if s[i] == '#' {
        proof {
            lemma_scan_bounds(s, i, other_than('\n'));
        }
        skip_blank(s, scan(s, i + 1, other_than('\n')))
    } else {
        i
    }
}

/// The end of the name that runs through index `i`. A dot belongs to it only where a name
/// character follows.
pub open spec fn name_end(s: Seq<char>, i: int) -> int
    decreases s.len() - i,
{
    if 0 <= i < s.len() && (is_name_char(s[i]) || s[i] == '.' && i + 1 < s.len() && is_name_char(
        s[i + 1],
    )) {
        name_end(s, i + 1)
    } else {
        i
    }
}

/// The end of the number whose first digit stands at index `i`: digits, then a dot with digits
/// and an exponent, if there are any.
pub open spec fn number_end(s: Seq<char>, i: int) -> int {
    let whole = scan(s, i, digits());
    let fraction = if char_at(s, whole, '.') && digit_at(s, whole + 1) {
        scan(s, whole + 1, digits())
    } else {
        whole
    };
    if char_at(s, fraction, 'e') || char_at(s, fraction, 'E') {
        let sign = char_at(s, fraction + 1, '+') || char_at(s, fraction + 1, '-');
        let power = if sign {
            fraction + 2
        } else {
            fraction + 1
        };
        if digit_at(s, power) {
            scan(s, power, digits())
        } else {
            fraction
        }
    } else {
        fraction
    }
}

/// The value of a hexadecimal digit.
pub open spec fn hex_value(c: char) -> Option<int> {
    if is_digit(c) {
        Some(c as int - '0' as int)
    } else if 'a' <= c <= 'f' {
        Some(c as int - 'a' as int + 10)
    } else if 'A' <= c <= 'F' {
        Some(c as int - 'A' as int + 10)
    } else {
        None
    }
}

/// The value of the `n` hexadecimal digits that end before index `end`.
pub open spec fn hex_number(s: Seq<char>, end: int, n: nat) -> Option<int>
    decreases n,
{
    if n == 0 {
        Some(0)
    } else if !(1 <= end <= s.len()) {
        None
    } else {
        match (hex_number(s, end - 1, (n - 1) as nat), hex_value(s[end - 1])) {
            (Some(high), Some(low)) => Some(16 * high + low),
            _ => None,
        }
    }
}

/// The character that an escape with `n` hexadecimal digits from index `i` on stands for.
pub open spec fn coded_char(s: Seq<char>, i: int, n: nat) -> Option<(char, int)> {
    match hex_number(s, i + n, n) {
        Some(code) => if code <= 0xd7ff || 0xe000 <= code <= 0x10ffff {
            Some((code as char, i + n))
        } else {
            None
        },
        None => None,
    }
}

/// The character that the escape whose backslash stands at index `i` stands for, and the end of
/// the escape.
pub open spec fn escape_at(s: Seq<char>, i: int) -> Option<(char, int)> {
    if i + 1 >= s.len() {
        None
    } else {
        let c = s[i + 1];
        if c == 't' {
            Some(('\t', i + 2))
        } else if c == 'n' {
            Some(('\n', i + 2))
        } else if c == 'r' {
            Some(('\r', i + 2))
        } else if c == 'b' {
            Some(('\u{8}', i + 2))
        } else if c == 'f' {
            Some(('\u{c}', i + 2))
        } else if c == '"' || c == '\'' || c == '\\' {
            Some((c, i + 2))
        } else if c == 'u' {
            coded_char(s, i + 2, 4)
        } else if c == 'U' {
            coded_char(s, i + 2, 8)
        } else {
            None
        }
    }
}

/// Whether the string that began with `width` quotes ends at index `i`.
pub open spec fn closes_at(s: Seq<char>, i: int, quote: char, width: int) -> bool {
    &&& char_at(s, i, quote)
    &&& width == 3 ==> char_at(s, i + 1, quote) && char_at(s, i + 2, quote)
}

/// The contents of the string from index `i` on, up to its closing quotes, and the index after
/// them. The string began at index `start`.
pub open spec fn string_body(s: Seq<char>, start: int, i: int, quote: char, width: int) -> Result<
    (Seq<char>, int),
    ErrorView,
>
    decreases s.len() - i,
{
    if i < 0 || i >= s.len() {
        Err(ErrorView::located("unterminated string"@, start))
    } else if closes_at(s, i, quote, width) {
        Ok((Seq::empty(), i + width))
    } else if s[i] == '\\' {
        match escape_at(s, i) {
            Some((c, next)) => match string_body(s, start, next, quote, width) {
                Ok((rest, end)) => Ok((seq![c] + rest, end)),
                Err(e) => Err(e),
            },
            None => Err(ErrorView::located("unknown escape in string"@, i)),
        }
    } else {
        match string_body(s, start, i + 1, quote, width) {
            Ok((rest, end)) => Ok((seq![s[i]] + rest, end)),
            Err(e) => Err(e),
        }
    }
}

/// How many quotes open the string at index `i`: one or three.
pub open spec fn quote_width(s: Seq<char>, i: int) -> int {
    if char_at(s, i + 1, s[i]) && char_at(s, i + 2, s[i]) {
        3
    } else {
        1
    }
}

/// What a word stands for.
pub open spec fn word_kind(word: Seq<char>) -> KindView {
    if word == "a"@ {
        KindView::A
    } else if word == "true"@ {
        KindView::Boolean(true)
    } else if word == "false"@ {
        KindView::Boolean(false)
    } else if same_letters(word, "prefix"@) {
        KindView::Prefix
    } else if same_letters(word, "base"@) {
        KindView::Base
    } else {
        KindView::PName(word)
    }
}

/// What a word after an at sign stands for.
pub open spec fn at_kind(word: Seq<char>) -> KindView {
    if word == "prefix"@ {
        KindView::AtPrefix
    } else if word == "base"@ {
        KindView::AtBase
    } else {
        KindView::Lang(word)
    }
}

/// The punctuation mark that is one character.
pub open spec fn mark(c: char) -> Option<KindView> {
    if c == '{' {
        Some(KindView::LBrace)
    } else if c == '}' {
        Some(KindView::RBrace)
    } else if c == '[' {
        Some(KindView::LBracket)
    } else if c == ']' {
        Some(KindView::RBracket)
    } else if c == '(' {
        Some(KindView::LParen)
    } else if c == ')' {
        Some(KindView::RParen)
    } else if c == '.' {
        Some(KindView::Dot)
    } else if c == ',' {
        Some(KindView::Comma)
    } else if c == ';' {
        Some(KindView::Semicolon)
    } else {
        None
    }
}

/// The token that begins at index `i`, and the index after it.
pub open spec fn token_at(s: Seq<char>, i: int) -> Result<(KindView, int), ErrorView> {
    let c = s[i];
    if mark(c) is Some {
        Ok((mark(c)->0, i + 1))
    } else if c == '=' {
        if char_at(s, i + 1, '>') {
            Ok((KindView::Arrow, i + 2))
        } else {
            Ok((KindView::Equals, i + 1))
        }
    } else if c == '<' {
        if char_at(s, i + 1, '=') {
            Ok((KindView::BackArrow, i + 2))
        } else {
            let end = scan(s, i + 1, other_than('>'));
            if end < s.len() {
                Ok((KindView::Iri(s.subrange(i + 1, end)), end + 1))
            } else {
                Err(ErrorView::located("unterminated IRI"@, i))
            }
        }
    } else if c == '^' && char_at(s, i + 1, '^') {
        Ok((KindView::HatHat, i + 2))
    } else if c == '@' {
        let end = scan(s, i + 1, tag_chars());
        if end == i + 1 {
            Err(ErrorView::located("expected a word after '@'"@, i))
        } else {
            Ok((at_kind(s.subrange(i + 1, end)), end))
        }
    } else if c == '?' {
        let end = scan(s, i + 1, var_chars());
        if end == i + 1 {
            Err(ErrorView::located("expected a variable name after '?'"@, i))
        } else {
            Ok((KindView::Var(s.subrange(i + 1, end)), end))
        }
    } else if c == '"' || c == '\'' {
        match string_body(s, i, i + quote_width(s, i), c, quote_width(s, i)) {
            Ok((value, end)) => Ok((KindView::String(value), end)),
            Err(e) => Err(e),
        }
    } else if c == '_' && char_at(s, i + 1, ':') {
        let end = scan(s, i + 2, label_chars());
        if end == i + 2 {
            Err(ErrorView::located("expected a blank node label after '_:'"@, i))
        } else {
            Ok((KindView::Blank(s.subrange(i + 2, end)), end))
        }
    } else if is_digit(c) || (c == '+' || c == '-') && digit_at(s, i + 1) {
        let first = if is_digit(c) {
            i
        } else {
            i + 1
        };
        let end = number_end(s, first);
        Ok((KindView::Number(s.subrange(i, end)), end))
    } else if is_name_char(c) && c != '-' {
        let end = name_end(s, i);
        Ok((word_kind(s.subrange(i, end)), end))
    } else {
        Err(ErrorView::located("unexpected character"@, i))
    }
}

/// The tokens of the text from index `i` on. The last one is the end of the text.
pub open spec fn lex_from(s: Seq<char>, i: int) -> Result<Seq<TokenView>, ErrorView>
    decreases s.len() - i,
{
    let at = skip_blank(s, i);
    if at < i || at >= s.len() {
        Ok(seq![TokenView { kind: KindView::Eof, offset: s.len() as int }])
    } else {
        match token_at(s, at) {
            Ok((kind, next)) => if next <= at || next > s.len() {
                Err(ErrorView::located("empty token"@, at))
            } else {
                match lex_from(s, next) {
                    Ok(rest) => Ok(seq![TokenView { kind, offset: at }] + rest),
                    Err(e) => Err(e),
                }
            },
            Err(e) => Err(e),
        }
    }
}

/// The tokens of a text.
pub open spec fn lex_text(s: Seq<char>) -> Result<Seq<TokenView>, ErrorView> {
    lex_from(s, 0)
}

fn label_char(c: char) -> (r: bool)
    ensures
        r == is_label_char(c),
{
    char_is_letter(c) || char_is_digit(c) || c == '_' || c == '-'
}

fn name_char(c: char) -> (r: bool)
    ensures
        r == is_name_char(c),
{
    label_char(c) || c == ':' || c == '%' || (c >= '\u{80}' && !char_is_space(c))
}

fn tag_char(c: char) -> (r: bool)
    ensures
        r == is_tag_char(c),
{
    char_is_letter(c) || char_is_digit(c) || c == '-'
}

fn var_char(c: char) -> (r: bool)
    ensures
        r == is_var_char(c),
{
    name_char(c) && c != ':' && c != '%'
}

fn has_char(s: &[char], i: usize, c: char) -> (r: bool)
    ensures
        r == char_at(s@, i as int, c),
        r ==> i < usize::MAX,
{
    i < s.len() && s[i] == c
}

fn has_digit(s: &[char], i: usize) -> (r: bool)
    ensures
        r == digit_at(s@, i as int),
{
    i < s.len() && char_is_digit(s[i])
}

/// The end of the run of label characters from index `from` on.
pub fn end_of_label(s: &[char], from: usize) -> (r: usize)
    requires
        from <= s@.len(),
    ensures
        r == scan(s@, from as int, label_chars()),
        from <= r <= s@.len(),
{
    let mut i: usize = from;
    while i < s.len() && label_char(s[i])
        invariant
            from <= i <= s@.len(),
            scan(s@, from as int, label_chars()) == scan(s@, i as int, label_chars()),
        decreases s.len() - i,
    {
        i += 1;
    }
    i
}

fn end_of_tag(s: &[char], from: usize) -> (r: usize)
    requires
        from <= s@.len(),
    ensures
        r == scan(s@, from as int, tag_chars()),
        from <= r <= s@.len(),
{
    let mut i: usize = from;
    while i < s.len() && tag_char(s[i])
        invariant
            from <= i <= s@.len(),
            scan(s@, from as int, tag_chars()) == scan(s@, i as int, tag_chars()),
        decreases s.len() - i,
    {
        i += 1;
    }
    i
}

fn end_of_var(s: &[char], from: usize) -> (r: usize)
    requires
        from <= s@.len(),
    ensures
        r == scan(s@, from as int, var_chars()),
        from <= r <= s@.len(),
{
    let mut i: usize = from;
    while i < s.len() && var_char(s[i])
        invariant
            from <= i <= s@.len(),
            scan(s@, from as int, var_chars()) == scan(s@, i as int, var_chars()),
        decreases s.len() - i,
    {
        i += 1;
    }
    i
}

fn end_of_digits(s: &[char], from: usize) -> (r: usize)
    requires
        from <= s@.len(),
    ensures
        r == scan(s@, from as int, digits()),
        from <= r <= s@.len(),
        digit_at(s@, from as int) ==> from < r,
{
    let mut i: usize = from;
    while i < s.len() && char_is_digit(s[i])
        invariant
            from <= i <= s@.len(),
            scan(s@, from as int, digits()) == scan(s@, i as int, digits()),
        decreases s.len() - i,
    {
        i += 1;
    }
    i
}

fn end_of_blank(s: &[char], from: usize) -> (r: usize)
    requires
        from <= s@.len(),
    ensures
        r == skip_blank(s@, from as int),
        from <= r <= s@.len(),
{
    let mut i: usize = from;
    while i < s.len() && (char_is_space(s[i]) || s[i] == '#')
        invariant
            from <= i <= s@.len(),
            skip_blank(s@, from as int) == skip_blank(s@, i as int),
        decreases s.len() - i,
    {
        if char_is_space(s[i]) {
            i += 1;
        } else {
            i = find(s, i + 1, '\n');
        }
    }
    i
}

fn end_of_name(s: &[char], from: usize) -> (r: usize)
    requires
        from < s@.len(),
        is_name_char(s@[from as int]),
    ensures
        r == name_end(s@, from as int),
        from < r <= s@.len(),
{
    let n: usize = s.len();
    let mut i: usize = from + 1;
    while i < n && (name_char(s[i]) || (s[i] == '.' && i + 1 < n && name_char(s[i + 1])))
        invariant
            n == s@.len(),
            from < i <= s@.len(),
            name_end(s@, from as int) == name_end(s@, i as int),
        decreases s.len() - i,
    {
        i += 1;
    }
    i
}

fn end_of_number(s: &[char], from: usize) -> (r: usize)
    requires
        digit_at(s@, from as int),
    ensures
        r == number_end(s@, from as int),
        from < r <= s@.len(),
{
    let whole = end_of_digits(s, from);
    let fraction = if has_char(s, whole, '.') && has_digit(s, whole + 1) {
        end_of_digits(s, whole + 1)
    } else {
        whole
    };
    if has_char(s, fraction, 'e') || has_char(s, fraction, 'E') {
        let sign = has_char(s, fraction + 1, '+') || has_char(s, fraction + 1, '-');
        let power = if sign {
            fraction + 2
        } else {
            fraction + 1
        };
        if has_digit(s, power) {
            end_of_digits(s, power)
        } else {
            fraction
        }
    } else {
        fraction
    }
}

fn value_of_hex(c: char) -> (r: Option<u32>)
    ensures
        match r {
            Some(v) => hex_value(c) == Some(v as int) && v < 16,
            None => hex_value(c) is None,
        },
{
    if char_is_digit(c) {
        Some(c as u32 - 48)
    } else if 'a' <= c && c <= 'f' {
        Some(c as u32 - 97 + 10)
    } else if 'A' <= c && c <= 'F' {
        Some(c as u32 - 65 + 10)
    } else {
        None
    }
}

/// The value of the `n` hexadecimal digits that end before index `end`.
fn read_hex(s: &[char], end: usize, n: usize) -> (r: Option<u64>)
    requires
        n <= 8,
        n <= end,
    ensures
        match r {
            Some(v) => hex_number(s@, end as int, n as nat) == Some(v as int) && v
                <= 0xffff_ffff && (n == 0 || end <= s@.len()),
            None => hex_number(s@, end as int, n as nat) is None,
        },
{
    if n == 0 {
        return Some(0);
    }
    if end > s.len() {
        return None;
    }
    let mut value: u64 = 0;
    let mut k: usize = 0;
    let start = end - n;
    proof {
        lemma_hex_bound(0);
    }
    while k < n
        invariant
            n <= 8,
            end <= s@.len(),
            start + n == end,
            k <= n,
            hex_number(s@, start + k, k as nat) == Some(value as int),
            value < pow(16, k as nat),
        decreases n - k,
    {
        proof {
            lemma_hex_bound((k + 1) as nat);
        }
        match value_of_hex(s[start + k]) {
            Some(v) => {
                value = 16 * value + v as u64;
            },
            None => {
                proof {
                    lemma_hex_fails(s@, start as int, k as nat + 1, n as nat);
                }
                return None;
            },
        }
        k += 1;
    }
    proof {
        lemma_hex_bound(n as nat);
    }
    Some(value)
}

/// Eight hexadecimal digits fit into 32 bits.
proof fn lemma_hex_bound(k: nat)
    requires
        k <= 8,
    ensures
        pow(16, 0) == 1,
        0 < k ==> pow(16, k) == 16 * pow(16, (k - 1) as nat),
        pow(16, k) <= 0x1_0000_0000,
{
    reveal(pow);
    lemma_pow_increases(16, k, 8);
    assert(pow(16, 8) == 0x1_0000_0000) by {
        reveal_with_fuel(pow, 9);
    }
}

/// Where the first `k` characters from `start` on are no hexadecimal number, no longer run is one.
proof fn lemma_hex_fails(s: Seq<char>, start: int, k: nat, n: nat)
    requires
        0 <= start,
        start + n <= s.len(),
        k <= n,
        hex_number(s, start + k, k) is None,
    ensures
        hex_number(s, start + n, n) is None,
    decreases n,
{
    if k < n {
        lemma_hex_fails(s, start, k, (n - 1) as nat);
    }
}

fn read_coded_char(s: &[char], i: usize, n: usize) -> (r: Option<(char, usize)>)
    requires
        n == 4 || n == 8,
        i <= s@.len(),
    ensures
        match r {
            Some((c, next)) => coded_char(s@, i as int, n as nat) == Some((c, next as int)) && i
                < next <= s@.len(),
            None => coded_char(s@, i as int, n as nat) is None,
        },
{
    if n > s.len() - i {
        return None;
    }
    match read_hex(s, i + n, n) {
        Some(code) => match std::char::from_u32(code as u32) {
            Some(c) => Some((c, i + n)),
            None => None,
        },
        None => None,
    }
}

fn read_escape(s: &[char], i: usize) -> (r: Option<(char, usize)>)
    requires
        i < s@.len(),
    ensures
        match r {
            Some((c, next)) => escape_at(s@, i as int) == Some((c, next as int)) && i < next
                <= s@.len(),
            None => escape_at(s@, i as int) is None,
        },
{
    if s.len() - i < 2 {
        return None;
    }
    let c = s[i + 1];
    if c == 't' {
        Some(('\t', i + 2))
    } else if c == 'n' {
        Some(('\n', i + 2))
    } else if c == 'r' {
        Some(('\r', i + 2))
    } else if c == 'b' {
        Some(('\u{8}', i + 2))
    } else if c == 'f' {
        Some(('\u{c}', i + 2))
    } else if c == '"' || c == '\'' || c == '\\' {
        Some((c, i + 2))
    } else if c == 'u' {
        read_coded_char(s, i + 2, 4)
    } else if c == 'U' {
        read_coded_char(s, i + 2, 8)
    } else {
        None
    }
}

/// What comes before, put in front of what is still to be read of a string.
spec fn after_chars(
    front: Seq<char>,
    rest: Result<(Seq<char>, int), ErrorView>,
) -> Result<(Seq<char>, int), ErrorView> {
    match rest {
        Ok((chars, end)) => Ok((front + chars, end)),
        Err(e) => Err(e),
    }
}

/// The contents of the string that begins at index `start`, and the index after it.
fn read_string(s: &[char], start: usize, quote: char, width: usize) -> (r: Result<
    (String, usize),
    EyeronError,
>)
    requires
        width == 1 || width == 3,
        start + width <= s@.len(),
    ensures
        match r {
            Ok((value, end)) => string_body(
                s@,
                start as int,
                start + width,
                quote,
                width as int,
            ) == Ok::<(Seq<char>, int), ErrorView>((value@, end as int)) && start < end
                <= s@.len(),
            Err(e) => string_body(s@, start as int, start + width, quote, width as int) == Err::<
                (Seq<char>, int),
                ErrorView,
            >(e@),
        },
{
    let n: usize = s.len();
    let mut value = String::new();
    let mut i: usize = start + width;
    let ghost whole = string_body(s@, start as int, start + width, quote, width as int);
    assert(whole == after_chars(
        value@,
        string_body(s@, start as int, i as int, quote, width as int),
    )) by {
        if let Ok((chars, end)) = whole {
            assert(value@ + chars =~= chars);
        }
    }
    while i < n
        invariant
            n == s@.len(),
            width == 1 || width == 3,
            start < i <= n,
            whole == string_body(s@, start as int, start + width, quote, width as int),
            whole == after_chars(
                value@,
                string_body(s@, start as int, i as int, quote, width as int),
            ),
        decreases n - i,
    {
        let closed = has_char(s, i, quote) && (width == 1 || (has_char(s, i + 1, quote) && has_char(
            s,
            i + 2,
            quote,
        )));
        if closed {
            assert(value@ + Seq::<char>::empty() =~= value@);
            return Ok((value, i + width));
        }
        let ghost front = value@;
        let c: char;
        if s[i] == '\\' {
            match read_escape(s, i) {
                Some((escaped, next)) => {
                    c = escaped;
                    i = next;
                },
                None => {
                    return Err(EyeronError::at("unknown escape in string".to_owned(), i));
                },
            }
        } else {
            c = s[i];
            i += 1;
        }
        value.push(c);
        proof {
            let rest = string_body(s@, start as int, i as int, quote, width as int);
            if let Ok((chars, end)) = rest {
                assert(front + (seq![c] + chars) =~= value@ + chars);
            }
        }
    }
    Err(EyeronError::at("unterminated string".to_owned(), start))
}

fn read_mark(c: char) -> (r: Option<TokenKind>)
    ensures
        match r {
            Some(kind) => mark(c) == Some(kind@),
            None => mark(c) is None,
        },
{
    match c {
        '{' => Some(TokenKind::LBrace),
        '}' => Some(TokenKind::RBrace),
        '[' => Some(TokenKind::LBracket),
        ']' => Some(TokenKind::RBracket),
        '(' => Some(TokenKind::LParen),
        ')' => Some(TokenKind::RParen),
        '.' => Some(TokenKind::Dot),
        ',' => Some(TokenKind::Comma),
        ';' => Some(TokenKind::Semicolon),
        _ => None,
    }
}

fn kind_of_word(word: &[char]) -> (r: TokenKind)
    ensures
        r@ == word_kind(word@),
{
    if same_chars(word, to_chars("a").as_slice()) {
        TokenKind::A
    } else if same_chars(word, to_chars("true").as_slice()) {
        TokenKind::Boolean(true)
    } else if same_chars(word, to_chars("false").as_slice()) {
        TokenKind::Boolean(false)
    } else if same_ignoring_case(word, to_chars("prefix").as_slice()) {
        TokenKind::Prefix
    } else if same_ignoring_case(word, to_chars("base").as_slice()) {
        TokenKind::Base
    } else {
        TokenKind::PName(to_text(word))
    }
}

fn kind_after_at(word: &[char]) -> (r: TokenKind)
    ensures
        r@ == at_kind(word@),
{
    if same_chars(word, to_chars("prefix").as_slice()) {
        TokenKind::AtPrefix
    } else if same_chars(word, to_chars("base").as_slice()) {
        TokenKind::AtBase
    } else {
        TokenKind::Lang(to_text(word))
    }
}

/// The token that begins at index `i`, and the index after it.
fn read_token(s: &[char], i: usize) -> (r: Result<(TokenKind, usize), EyeronError>)
    requires
        i < s@.len(),
    ensures
        match r {
            Ok((kind, next)) => token_at(s@, i as int) == Ok::<(KindView, int), ErrorView>(
                (kind@, next as int),
            ) && i < next <= s@.len(),
            Err(e) => token_at(s@, i as int) == Err::<(KindView, int), ErrorView>(e@),
        },
{
    let n: usize = s.len();
    let c = s[i];
    if let Some(kind) = read_mark(c) {
        return Ok((kind, i + 1));
    }
    if c == '=' {
        if has_char(s, i + 1, '>') {
            Ok((TokenKind::Arrow, i + 2))
        } else {
            Ok((TokenKind::Equals, i + 1))
        }
    } else if c == '<' {
        if has_char(s, i + 1, '=') {
            Ok((TokenKind::BackArrow, i + 2))
        } else {
            let end = find(s, i + 1, '>');
            if end < n {
                Ok((TokenKind::Iri(to_text(slice_subrange(s, i + 1, end))), end + 1))
            } else {
                Err(EyeronError::at("unterminated IRI".to_owned(), i))
            }
        }
    } else if c == '^' && has_char(s, i + 1, '^') {
        Ok((TokenKind::HatHat, i + 2))
    } else if c == '@' {
        let end = end_of_tag(s, i + 1);
        if end == i + 1 {
            Err(EyeronError::at("expected a word after '@'".to_owned(), i))
        } else {
            Ok((kind_after_at(slice_subrange(s, i + 1, end)), end))
        }
    } else if c == '?' {
        let end = end_of_var(s, i + 1);
        if end == i + 1 {
            Err(EyeronError::at("expected a variable name after '?'".to_owned(), i))
        } else {
            Ok((TokenKind::Var(to_text(slice_subrange(s, i + 1, end))), end))
        }
    } else if c == '"' || c == '\'' {
        let width: usize = if has_char(s, i + 1, c) && has_char(s, i + 2, c) {
            3
        } else {
            1
        };
        match read_string(s, i, c, width) {
            Ok((value, end)) => Ok((TokenKind::String(value), end)),
            Err(e) => Err(e),
        }
    } else if c == '_' && has_char(s, i + 1, ':') {
        let end = end_of_label(s, i + 2);
        if end == i + 2 {
            Err(EyeronError::at("expected a blank node label after '_:'".to_owned(), i))
        } else {
            Ok((TokenKind::Blank(to_text(slice_subrange(s, i + 2, end))), end))
        }
    } else if char_is_digit(c) || ((c == '+' || c == '-') && has_digit(s, i + 1)) {
        let first = if char_is_digit(c) {
            i
        } else {
            i + 1
        };
        let end = end_of_number(s, first);
        Ok((TokenKind::Number(to_text(slice_subrange(s, i, end))), end))
    } else if name_char(c) && c != '-' {
        let end = end_of_name(s, i);
        Ok((kind_of_word(slice_subrange(s, i, end)), end))
    } else {
        Err(EyeronError::at("unexpected character".to_owned(), i))
    }
}

/// What comes before, put in front of the tokens still to be read.
spec fn after_tokens(
    front: Seq<TokenView>,
    rest: Result<Seq<TokenView>, ErrorView>,
) -> Result<Seq<TokenView>, ErrorView> {
    match rest {
        Ok(rest) => Ok(front + rest),
        Err(e) => Err(e),
    }
}

/// The tokens of a text end with the end of the text, and it occurs nowhere else among them.
pub proof fn lemma_lex_ends(s: Seq<char>, i: int)
    ensures
        match lex_from(s, i) {
            Ok(ts) => {
                &&& ts.len() > 0
                &&& ts.last().kind is Eof
                &&& forall|k: int| 0 <= k < ts.len() - 1 ==> !((#[trigger] ts[k]).kind is Eof)
            },
            Err(_) => true,
        },
    decreases s.len() - i,
{
    let at = skip_blank(s, i);
    if i <= at < s.len() {
        if let Ok((kind, next)) = token_at(s, at) {
            if at < next <= s.len() {
                lemma_lex_ends(s, next);
            }
        }
    }
}

/// Splits a text into tokens.
pub fn lex(input: &str) -> (r: Result<Vec<Token>, EyeronError>)
    ensures
        match r {
            Ok(ts) => lex_text(input@) == Ok::<Seq<TokenView>, ErrorView>(tokens(ts@))
                && ts@.len() > 0 && ts@.last().kind is Eof,
            Err(e) => lex_text(input@) == Err::<Seq<TokenView>, ErrorView>(e@),
        },
{
    let chars = to_chars(input);
    let s = chars.as_slice();
    let n: usize = s.len();
    let mut out: Vec<Token> = Vec::new();
    let mut i: usize = 0;
    assert(lex_text(s@) == after_tokens(tokens(out@), lex_from(s@, 0))) by {
        if let Ok(ts) = lex_from(s@, 0) {
            assert(tokens(out@) + ts =~= ts);
        }
    }
    loop
        invariant
            n == s@.len(),
            s@ == input@,
            i <= n,
            lex_text(s@) == after_tokens(tokens(out@), lex_from(s@, i as int)),
        decreases n - i,
    {
        let at = end_of_blank(s, i);
        let ghost front = tokens(out@);
        if at >= n {
            out.push(Token { kind: TokenKind::Eof, offset: n });
            assert(tokens(out@) =~= front + seq![
                TokenView { kind: KindView::Eof, offset: n as int },
            ]);
            return Ok(out);
        }
        match read_token(s, at) {
            Ok((kind, next)) => {
                let ghost token = TokenView { kind: kind@, offset: at as int };
                out.push(Token { kind, offset: at });
                assert(tokens(out@) =~= front.push(token));
                proof {
                    if let Ok(rest) = lex_from(s@, next as int) {
                        assert(front + (seq![token] + rest) =~= tokens(out@) + rest);
                    }
                }
                i = next;
            },
            Err(e) => {
                return Err(e);
            },
        }
    }
}

} // verus!
