//! What IRIs, prefixed names, numbers and truth values mean.
use crate::ast::{LiteralView, TermView};
use crate::error::ErrorView;
use crate::grammar::{boolean, expand, is_absolute, number, resolve};
use crate::text::{contains_text, lemma_scan_bounds, occurs_at, other_than, scan};
use vstd::prelude::*;

verus! {

/// `://` stands somewhere in a text.
pub open spec fn has_authority(iri: Seq<char>) -> bool {
    exists|i: int|
        0 <= i < iri.len() - 2 && #[trigger] iri[i] == ':' && iri[i + 1] == '/' && iri[i + 2] == '/'
}

/// An IRI is absolute exactly if it holds `://` or begins with `urn:` or `mailto:`.
pub proof fn law_absolute_iris(iri: Seq<char>)
    ensures
        is_absolute(iri) <==> {
            ||| has_authority(iri)
            ||| iri.len() >= 4 && iri.take(4) == seq!['u', 'r', 'n', ':']
            ||| iri.len() >= 7 && iri.take(7) == seq!['m', 'a', 'i', 'l', 't', 'o', ':']
        },
{
    reveal_strlit("://");
    reveal_strlit("urn:");
    reveal_strlit("mailto:");
    if has_authority(iri) {
        let i = choose|i: int|
            0 <= i < iri.len() - 2 && #[trigger] iri[i] == ':' && iri[i + 1] == '/' && iri[i + 2]
                == '/';
        assert(iri.subrange(i, i + 3) =~= "://"@);
        assert(occurs_at(iri, "://"@, i));
    }
    if contains_text(iri, "://"@) {
        let i = choose|i: int| #[trigger] occurs_at(iri, "://"@, i);
        let found = iri.subrange(i, i + 3);
        assert(found[0] == iri[i] && found[1] == iri[i + 1] && found[2] == iri[i + 2]);
    }
    assert("urn:"@ =~= seq!['u', 'r', 'n', ':']);
    assert("mailto:"@ =~= seq!['m', 'a', 'i', 'l', 't', 'o', ':']);
    if iri.len() >= 4 {
        assert(iri.take(4) =~= iri.subrange(0, 4));
    }
    if iri.len() >= 7 {
        assert(iri.take(7) =~= iri.subrange(0, 7));
    }
}

/// Where no base holds every IRI stays as it is written, and an absolute one does under every base.
pub proof fn law_bases_leave_absolute_iris(base: Seq<char>, iri: Seq<char>)
    ensures
        resolve(None, iri) == iri,
        has_authority(iri) ==> resolve(Some(base), iri) == iri,
        resolve(Some(base), seq!['u', 'r', 'n', ':'] + iri) == seq!['u', 'r', 'n', ':'] + iri,
        resolve(Some(base), seq!['m', 'a', 'i', 'l', 't', 'o', ':'] + iri) == seq![
            'm',
            'a',
            'i',
            'l',
            't',
            'o',
            ':',
        ] + iri,
{
    let urn = seq!['u', 'r', 'n', ':'];
    let mailto = seq!['m', 'a', 'i', 'l', 't', 'o', ':'];
    law_absolute_iris(iri);
    law_absolute_iris(urn + iri);
    law_absolute_iris(mailto + iri);
    assert((urn + iri).take(4) =~= urn);
    assert((mailto + iri).take(7) =~= mailto);
}

/// Under a base whose last slash is followed by something that does not end with a number sign, an
/// IRI that is not absolute and does not begin with a number sign takes the place of what follows
/// the slash.
pub proof fn law_iri_replaces_the_last_segment(
    front: Seq<char>,
    segment: Seq<char>,
    iri: Seq<char>,
)
    requires
        segment.len() > 0,
        !segment.contains('/'),
        segment.last() != '#',
        !is_absolute(iri),
        iri.len() > 0 ==> iri[0] != '#',
    ensures
        resolve(Some(front.push('/') + segment), iri) == front.push('/') + iri,
{
    let base = front.push('/') + segment;
    let n = front.len() as int;
    assert(base[n] == '/');
    assert(base.last() == segment.last());
    base.index_of_last_ensures('/');
    assert(segment.last() != '/') by {
        assert(segment[segment.len() - 1] == segment.last());
    }
    assert(base.index_of_last('/') == Some(n)) by {
        let i = base.index_of_last('/')->0;
        if i > n {
            assert(segment[i - n - 1] == base[i]);
        }
    }
    assert(base.subrange(0, n + 1) =~= front.push('/'));
}

/// Under a base without a slash that does not end with a number sign, an IRI that is not absolute
/// stands behind all of the base.
pub proof fn law_iri_extends_a_flat_base(base: Seq<char>, iri: Seq<char>)
    requires
        !base.contains('/'),
        !is_absolute(iri),
    ensures
        resolve(Some(base), iri) == base + iri,
{
    base.index_of_last_ensures('/');
}

/// An IRI that begins with a number sign and is not absolute stands behind all of the base.
pub proof fn law_fragment_extends_the_base(base: Seq<char>, fragment: Seq<char>)
    requires
        !is_absolute(seq!['#'] + fragment),
    ensures
        resolve(Some(base), seq!['#'] + fragment) == base + (seq!['#'] + fragment),
{
}

/// Under a base that ends with a slash or a number sign, an IRI that is not absolute stands behind
/// all of the base.
pub proof fn law_iri_extends_an_open_base(base: Seq<char>, iri: Seq<char>)
    requires
        !is_absolute(iri),
    ensures
        resolve(Some(base.push('/')), iri) == base.push('/') + iri,
        resolve(Some(base.push('#')), iri) == base.push('#') + iri,
{
    assert(base.push('/').last() == '/');
    assert(base.push('#').last() == '#');
}

/// A name is split at its first colon: before it stands the prefix, and what follows it, further
/// colons included, stands behind the IRI of the prefix. A prefix that is not declared, and a name
/// without a colon, are refused.
pub proof fn law_names_are_split_at_the_first_colon(
    prefixes: Map<Seq<char>, Seq<char>>,
    prefix: Seq<char>,
    local: Seq<char>,
    offset: int,
)
    requires
        !prefix.contains(':'),
    ensures
        prefixes.contains_key(prefix) ==> expand(prefixes, prefix.push(':') + local, offset)
            == Ok::<Seq<char>, ErrorView>(prefixes[prefix] + local),
        !prefixes.contains_key(prefix) ==> expand(prefixes, prefix.push(':') + local, offset)
            == Err::<Seq<char>, ErrorView>(
            ErrorView { message: "unknown prefix '"@ + prefix + ":'"@, offset: Some(offset) },
        ),
        expand(prefixes, prefix, offset) == Err::<Seq<char>, ErrorView>(
            ErrorView {
                message: "unknown bare name '"@ + prefix + "'; use a prefix or <IRI>"@,
                offset: Some(offset),
            },
        ),
{
    let name = prefix.push(':') + local;
    lemma_scan_bounds(name, 0, other_than(':'));
    lemma_scan_bounds(prefix, 0, other_than(':'));
    let colon = scan(name, 0, other_than(':'));
    assert(name[prefix.len() as int] == ':');
    assert(forall|i: int| 0 <= i < prefix.len() ==> #[trigger] name[i] == prefix[i]);
    if colon < prefix.len() {
        assert(prefix[colon] == ':');
    }
    assert(colon == prefix.len());
    assert(name.subrange(0, colon) =~= prefix);
    assert(name.subrange(colon + 1, name.len() as int) =~= local);
    let end = scan(prefix, 0, other_than(':'));
    if end < prefix.len() {
        assert(prefix[end] == ':');
    }
}

/// A number keeps its spelling. It is an integer if it has neither a dot nor an exponent, and else
/// a decimal.
pub proof fn law_numbers(value: Seq<char>)
    ensures
        number(value) matches TermView::Literal(l) && {
            &&& l.value == value
            &&& l.language is None
            &&& (exists|i: int|
                0 <= i < value.len() && ((#[trigger] value[i]) == '.' || value[i] == 'e' || value[i]
                    == 'E')) ==> l.datatype == Some("http://www.w3.org/2001/XMLSchema#decimal"@)
            &&& (forall|i: int|
                0 <= i < value.len() ==> (#[trigger] value[i]) != '.' && value[i] != 'e' && value[i]
                    != 'E') ==> l.datatype == Some("http://www.w3.org/2001/XMLSchema#integer"@)
        },
{
}

/// A truth value is a literal with its word and the datatype of truth values.
pub proof fn law_truth_values()
    ensures
        boolean(true) == TermView::Literal(
            LiteralView {
                value: "true"@,
                datatype: Some("http://www.w3.org/2001/XMLSchema#boolean"@),
                language: None,
            },
        ),
        boolean(false) == TermView::Literal(
            LiteralView {
                value: "false"@,
                datatype: Some("http://www.w3.org/2001/XMLSchema#boolean"@),
                language: None,
            },
        ),
{
}

} // verus!
