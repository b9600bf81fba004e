//! What holds of texts: white space around them, their lines, letters of either case, numerals.
use crate::text::{
    decimal, digit, is_digit, is_space, lemma_decimal_nonempty, lemma_scan_bounds, lines,
    lines_from, other_than, same_letter, same_letters, scan, trim, trim_end, trim_start,
};
use vstd::prelude::*;

verus! {

/// A text of white space.
pub open spec fn all_space(s: Seq<char>) -> bool {
    forall|i: int| 0 <= i < s.len() ==> is_space(#[trigger] s[i])
}

/// White space before a text is no part of what is left of it.
pub proof fn law_trim_start(before: Seq<char>, s: Seq<char>)
    requires
        all_space(before),
        s.len() > 0 ==> !is_space(s[0]),
    ensures
        trim_start(before + s) == s,
    decreases before.len(),
{
    if before.len() == 0 {
        assert(before + s =~= s);
    } else {
        let rest = before.subrange(1, before.len() as int);
        assert forall|i: int| 0 <= i < rest.len() implies is_space(#[trigger] rest[i]) by {
            assert(rest[i] == before[i + 1]);
        }
        assert((before + s)[0] == before[0]);
        assert((before + s).subrange(1, (before + s).len() as int) =~= rest + s);
        law_trim_start(rest, s);
    }
}

proof fn lemma_trim_end(s: Seq<char>, behind: Seq<char>)
    requires
        all_space(behind),
        s.len() > 0 ==> !is_space(s.last()),
    ensures
        trim_end(s + behind) == s,
    decreases behind.len(),
{
    if behind.len() == 0 {
        assert(s + behind =~= s);
    } else {
        let rest = behind.drop_last();
        assert forall|i: int| 0 <= i < rest.len() implies is_space(#[trigger] rest[i]) by {
            assert(rest[i] == behind[i]);
        }
        assert((s + behind).last() == behind[behind.len() - 1]);
        assert((s + behind).drop_last() =~= s + rest);
        lemma_trim_end(s, rest);
    }
}

/// White space around a text is no part of what is left of it, and nothing else is taken away.
pub proof fn law_trim(before: Seq<char>, s: Seq<char>, behind: Seq<char>)
    requires
        all_space(before),
        all_space(behind),
        s.len() > 0 ==> !is_space(s[0]) && !is_space(s.last()),
    ensures
        trim(before + s + behind) == s,
{
    if s.len() == 0 {
        let all = before + s + behind;
        assert forall|i: int| 0 <= i < all.len() implies is_space(#[trigger] all[i]) by {
            if i < before.len() {
                assert(all[i] == before[i]);
            } else {
                assert(all[i] == behind[i - before.len()]);
            }
        }
        assert(all + Seq::<char>::empty() =~= all);
        law_trim_start(all, Seq::empty());
        assert(s =~= Seq::empty());
    } else {
        assert(before + s + behind =~= before + (s + behind));
        law_trim_start(before, s + behind);
        lemma_trim_end(s, behind);
    }
}

/// What is left of a text has no white space at its ends, and stands in the text with none but
/// white space around it.
pub proof fn law_trimmed(s: Seq<char>) -> (r: (Seq<char>, Seq<char>))
    ensures
        all_space(r.0),
        all_space(r.1),
        s == r.0 + trim(s) + r.1,
        trim(s).len() > 0 ==> !is_space(trim(s)[0]) && !is_space(trim(s).last()),
{
    let before = lemma_trimmed_start(s);
    let behind = lemma_trimmed_end(trim_start(s));
    assert(s =~= before + trim(s) + behind);
    (before, behind)
}

proof fn lemma_trimmed_start(s: Seq<char>) -> (before: Seq<char>)
    ensures
        all_space(before),
        s == before + trim_start(s),
        trim_start(s).len() > 0 ==> !is_space(trim_start(s)[0]),
    decreases s.len(),
{
    if s.len() > 0 && is_space(s[0]) {
        let rest = lemma_trimmed_start(s.subrange(1, s.len() as int));
        let before = seq![s[0]] + rest;
        assert forall|i: int| 0 <= i < before.len() implies is_space(#[trigger] before[i]) by {
            if i > 0 {
                assert(before[i] == rest[i - 1]);
            }
        }
        assert(s =~= seq![s[0]] + s.subrange(1, s.len() as int));
        assert(s =~= before + trim_start(s));
        before
    } else {
        assert(s =~= Seq::empty() + s);
        Seq::empty()
    }
}

proof fn lemma_trimmed_end(s: Seq<char>) -> (behind: Seq<char>)
    ensures
        all_space(behind),
        s == trim_end(s) + behind,
        trim_end(s).len() > 0 ==> !is_space(trim_end(s).last()) && trim_end(s)[0] == s[0],
    decreases s.len(),
{
    if s.len() > 0 && is_space(s.last()) {
        let rest = lemma_trimmed_end(s.drop_last());
        let behind = rest.push(s.last());
        assert forall|i: int| 0 <= i < behind.len() implies is_space(#[trigger] behind[i]) by {
            if i < rest.len() {
                assert(behind[i] == rest[i]);
            }
        }
        assert(s =~= s.drop_last().push(s.last()));
        assert(s =~= trim_end(s) + behind);
        behind
    } else {
        assert(s =~= s + Seq::empty());
        Seq::empty()
    }
}

proof fn lemma_line_end(s: Seq<char>, i: int, end: int)
    requires
        0 <= i <= end <= s.len(),
        forall|j: int| i <= j < end ==> #[trigger] s[j] != '\n',
        end < s.len() ==> s[end] == '\n',
    ensures
        scan(s, i, other_than('\n')) == end,
{
    lemma_scan_bounds(s, i, other_than('\n'));
    let found = scan(s, i, other_than('\n'));
    if found < end {
        assert(s[found] == '\n');
    }
}

proof fn lemma_lines_behind(s: Seq<char>, b: Seq<char>, p: int, i: int)
    requires
        0 <= p,
        s.len() == b.len() + p,
        forall|j: int| 0 <= j < b.len() ==> #[trigger] b[j] == s[j + p],
        0 <= i <= b.len(),
    ensures
        lines_from(s, i + p) == lines_from(b, i),
    decreases b.len() - i,
{
    if i < b.len() {
        lemma_scan_bounds(b, i, other_than('\n'));
        let end = scan(b, i, other_than('\n'));
        assert forall|j: int| i + p <= j < end + p implies #[trigger] s[j] != '\n' by {
            assert(b[j - p] == s[j]);
        }
        assert(end < b.len() ==> b[end] == s[end + p]);
        lemma_line_end(s, i + p, end + p);
        assert(s.subrange(i + p, end + p) =~= b.subrange(i, end));
        if end < b.len() {
            lemma_lines_behind(s, b, p, end + 1);
        }
    }
}

/// A text without a line feed is one line, or none if it is empty. A line feed ends a line, and a
/// carriage return before it is no part of the line either; behind it the next line begins.
pub proof fn law_lines(line: Seq<char>, rest: Seq<char>)
    requires
        !line.contains('\n'),
    ensures
        lines(Seq::empty()) == Seq::<Seq<char>>::empty(),
        line.len() > 0 ==> lines(line) == seq![line],
        lines(line + seq!['\r', '\n'] + rest) == seq![line] + lines(rest),
        !(line.len() > 0 && line.last() == '\r') ==> lines(line + seq!['\n'] + rest) == seq![line]
            + lines(rest),
{
    let n = line.len() as int;
    assert forall|j: int| 0 <= j < n implies #[trigger] line[j] != '\n' by {
        assert(line.contains(line[j]));
    }
    lemma_line_end(line, 0, n);
    assert(line.subrange(0, n) =~= line);
    let s = line + seq!['\n'] + rest;
    assert forall|j: int| 0 <= j < n implies #[trigger] s[j] != '\n' by {
        assert(s[j] == line[j]);
    }
    assert(s[n] == '\n');
    lemma_line_end(s, 0, n);
    assert(s.subrange(0, n) =~= line);
    lemma_lines_behind(s, rest, n + 1, 0);
    let t = line + seq!['\r', '\n'] + rest;
    assert forall|j: int| 0 <= j < n + 1 implies #[trigger] t[j] != '\n' by {
        if j < n {
            assert(t[j] == line[j]);
        }
    }
    assert(t[n + 1] == '\n');
    lemma_line_end(t, 0, n + 1);
    assert(t.subrange(0, n + 1) =~= line.push('\r'));
    assert(line.push('\r').drop_last() =~= line);
    lemma_lines_behind(t, rest, n + 2, 0);
}

/// A letter `A` to `Z` as a small one; any other character as it is.
pub open spec fn lowered(c: char) -> char {
    if 'A' <= c <= 'Z' {
        (c as int + 32) as char
    } else {
        c
    }
}

/// Two texts are the same up to the case of ASCII letters exactly if they are the same with small
/// letters for capital ones.
pub proof fn law_case(a: Seq<char>, b: Seq<char>)
    ensures
        same_letters(a, b) <==> a.map_values(|c: char| lowered(c)) == b.map_values(
            |c: char| lowered(c),
        ),
{
    let x = a.map_values(|c: char| lowered(c));
    let y = b.map_values(|c: char| lowered(c));
    assert(forall|c: char, d: char| same_letter(c, d) <==> #[trigger] lowered(c) == #[trigger]
        lowered(d));
    if same_letters(a, b) {
        assert forall|i: int| 0 <= i < x.len() implies x[i] == y[i] by {
            assert(same_letter(a[i], b[i]));
            assert(lowered(a[i]) == lowered(b[i]));
        }
        assert(x =~= y);
    }
    if x == y {
        assert(a.len() == x.len() && b.len() == y.len());
        assert forall|i: int| 0 <= i < a.len() implies same_letter(#[trigger] a[i], b[i]) by {
            assert(x[i] == lowered(a[i]) && y[i] == lowered(b[i]));
        }
    }
}

/// The number that decimal digits stand for.
pub open spec fn value_of(digits: Seq<char>) -> int
    decreases digits.len(),
{
    if digits.len() == 0 {
        0
    } else {
        10 * value_of(digits.drop_last()) + (digits.last() as int - '0' as int)
    }
}

/// A numeral consists of digits that stand for its number, and begins with a zero only if it is
/// the numeral of zero.
pub proof fn law_numerals(n: nat)
    ensures
        decimal(n).len() > 0,
        forall|i: int| 0 <= i < decimal(n).len() ==> '0' <= #[trigger] decimal(n)[i] <= '9',
        value_of(decimal(n)) == n,
        n > 0 ==> decimal(n)[0] != '0',
    decreases n,
{
    lemma_decimal_nonempty(n);
    assert forall|i: int| 0 <= i < decimal(n).len() implies '0' <= #[trigger] decimal(n)[i]
        <= '9' by {
        assert(is_digit(decimal(n)[i]));
    }
    let low = digit((n % 10) as int);
    assert(low as int == '0' as int + n % 10);
    if n >= 10 {
        let high = decimal(n / 10);
        law_numerals(n / 10);
        assert(high.push(low).drop_last() =~= high);
        assert(high.push(low).last() == low);
        assert(value_of(decimal(n)) == 10 * (n / 10) as int + n % 10);
        assert(decimal(n)[0] == high[0]);
    } else {
        assert(decimal(n).drop_last() =~= Seq::empty());
        assert(value_of(Seq::<char>::empty()) == 0);
    }
}

} // verus!
