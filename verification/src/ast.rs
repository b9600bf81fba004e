//! Terms, triples, rules and documents.
use crate::prefixes::PrefixMap;
use vstd::prelude::*;

verus! {

pub const RDF_TYPE: &'static str = "http://www.w3.org/1999/02/22-rdf-syntax-ns#type";

pub const OWL_SAME_AS: &'static str = "http://www.w3.org/2002/07/owl#sameAs";

pub const LOG_IMPLIES: &'static str = "http://www.w3.org/2000/10/swap/log#implies";

pub const LOG_IMPLIED_BY: &'static str = "http://www.w3.org/2000/10/swap/log#impliedBy";

pub const LOG_QUERY: &'static str = "http://www.w3.org/2000/10/swap/log#query";

/// Subject and predicate of the triple that stands for "the contents of this formula".
pub const EYERON_UNQUOTE: &'static str = "urn:eyeron:unquote";

/// A literal: its lexical value with a datatype or a language tag, if any.
#[derive(Debug, PartialEq, Eq)]
pub struct Literal {
    pub value: String,
    pub datatype: Option<String>,
    pub language: Option<String>,
}

/// A term of a triple.
#[derive(Debug, PartialEq, Eq)]
pub enum Term {
    Iri(String),
    Var(String),
    Blank(String),
    Literal(Literal),
    List(Vec<Term>),
    Formula(Vec<Triple>),
}

/// A subject, a predicate and an object.
#[derive(Debug, PartialEq, Eq)]
pub struct Triple {
    pub subject: Term,
    pub predicate: Term,
    pub object: Term,
}

/// A rule. A forward rule adds its conclusion once its premise holds; a backward rule answers a
/// goal that matches its conclusion by asking for its premise.
#[derive(Debug, PartialEq, Eq)]
pub struct Rule {
    pub premise: Vec<Triple>,
    pub conclusion: Vec<Triple>,
    pub is_forward: bool,
}

/// What a text says: the prefixes and the base that it declares, its triples and its rules.
#[derive(Debug, PartialEq, Eq)]
pub struct Document {
    pub prefixes: PrefixMap,
    pub base_iri: Option<String>,
    pub facts: Vec<Triple>,
    pub rules: Vec<Rule>,
}

/// The value of a [`Literal`].
pub struct LiteralView {
    pub value: Seq<char>,
    pub datatype: Option<Seq<char>>,
    pub language: Option<Seq<char>>,
}

/// The value of a [`Term`].
pub enum TermView {
    Iri(Seq<char>),
    Var(Seq<char>),
    Blank(Seq<char>),
    Literal(LiteralView),
    List(Seq<TermView>),
    Formula(Seq<TripleView>),
}

/// The value of a [`Triple`].
pub struct TripleView {
    pub subject: TermView,
    pub predicate: TermView,
    pub object: TermView,
}

/// The value of a [`Rule`].
pub struct RuleView {
    pub premise: Seq<TripleView>,
    pub conclusion: Seq<TripleView>,
    pub is_forward: bool,
}

/// The value of a [`Document`].
#[verifier::ext_equal]
pub struct DocumentView {
    pub prefixes: Map<Seq<char>, Seq<char>>,
    pub base_iri: Option<Seq<char>>,
    pub facts: Seq<TripleView>,
    pub rules: Seq<RuleView>,
}

/// The characters of an optional string.
pub open spec fn text_of(s: Option<String>) -> Option<Seq<char>> {
    match s {
        Some(s) => Some(s@),
        None => None,
    }
}

/// The characters of an optional string slice.
pub open spec fn str_of(s: Option<&str>) -> Option<Seq<char>> {
    match s {
        Some(s) => Some(s@),
        None => None,
    }
}

impl View for Literal {
    type V = LiteralView;

    open spec fn view(&self) -> LiteralView {
        LiteralView {
            value: self.value@,
            datatype: text_of(self.datatype),
            language: text_of(self.language),
        }
    }
}

impl View for Term {
    type V = TermView;

    open spec fn view(&self) -> TermView
        decreases self,
    {
        match self {
            Term::Iri(s) => TermView::Iri(s@),
            Term::Var(s) => TermView::Var(s@),
            Term::Blank(s) => TermView::Blank(s@),
            Term::Literal(l) => TermView::Literal(l@),
            Term::List(items) => TermView::List(terms(items@)),
            Term::Formula(items) => TermView::Formula(triples(items@)),
        }
    }
}

impl View for Triple {
    type V = TripleView;

    open spec fn view(&self) -> TripleView
        decreases self,
    {
        TripleView {
            subject: self.subject.view(),
            predicate: self.predicate.view(),
            object: self.object.view(),
        }
    }
}

/// The values of a sequence of terms.
pub open spec fn terms(items: Seq<Term>) -> Seq<TermView>
    decreases items,
{
    if items.len() == 0 {
        Seq::empty()
    } else {
        terms(items.subrange(0, items.len() - 1)).push(items[items.len() - 1].view())
    }
}

/// The values of a sequence of triples.
pub open spec fn triples(items: Seq<Triple>) -> Seq<TripleView>
    decreases items,
{
    if items.len() == 0 {
        Seq::empty()
    } else {
        triples(items.subrange(0, items.len() - 1)).push(items[items.len() - 1].view())
    }
}

/// The values of a sequence of rules.
pub open spec fn rules(items: Seq<Rule>) -> Seq<RuleView> {
    Seq::new(items.len(), |i: int| items[i]@)
}

impl View for Rule {
    type V = RuleView;

    open spec fn view(&self) -> RuleView {
        RuleView {
            premise: triples(self.premise@),
            conclusion: triples(self.conclusion@),
            is_forward: self.is_forward,
        }
    }
}

impl View for Document {
    type V = DocumentView;

    open spec fn view(&self) -> DocumentView {
        DocumentView {
            prefixes: self.prefixes@,
            base_iri: text_of(self.base_iri),
            facts: triples(self.facts@),
            rules: rules(self.rules@),
        }
    }
}

/// The triple with the given parts.
pub open spec fn triple(subject: TermView, predicate: TermView, object: TermView) -> TripleView {
    TripleView { subject, predicate, object }
}

/// The values of the terms stand in the order of the terms.
pub broadcast proof fn lemma_terms(items: Seq<Term>)
    ensures
        (#[trigger] terms(items)).len() == items.len(),
        forall|i: int| 0 <= i < items.len() ==> #[trigger] terms(items)[i] == items[i]@,
    decreases items.len(),
{
    reveal_with_fuel(terms, 2);
    if items.len() > 0 {
        lemma_terms(items.subrange(0, items.len() - 1));
    }
}

/// The values of the triples stand in the order of the triples.
pub broadcast proof fn lemma_triples(items: Seq<Triple>)
    ensures
        (#[trigger] triples(items)).len() == items.len(),
        forall|i: int| 0 <= i < items.len() ==> #[trigger] triples(items)[i] == items[i]@,
    decreases items.len(),
{
    reveal_with_fuel(triples, 3);
    if items.len() > 0 {
        lemma_triples(items.subrange(0, items.len() - 1));
    }
}

/// The value of a term stands last if the term does.
pub broadcast proof fn lemma_terms_push(items: Seq<Term>, item: Term)
    ensures
        #[trigger] terms(items.push(item)) == terms(items).push(item@),
{
    lemma_terms(items);
    lemma_terms(items.push(item));
    assert(terms(items.push(item)) =~= terms(items).push(item@));
}

/// The value of a triple stands last if the triple does.
pub broadcast proof fn lemma_triples_push(items: Seq<Triple>, item: Triple)
    ensures
        #[trigger] triples(items.push(item)) == triples(items).push(item@),
{
    lemma_triples(items);
    lemma_triples(items.push(item));
    assert(triples(items.push(item)) =~= triples(items).push(item@));
}

/// The values of triples one behind the other stand one behind the other.
pub broadcast proof fn lemma_triples_add(a: Seq<Triple>, b: Seq<Triple>)
    ensures
        #[trigger] triples(a + b) == triples(a) + triples(b),
{
    lemma_triples(a);
    lemma_triples(b);
    lemma_triples(a + b);
    assert(triples(a + b) =~= triples(a) + triples(b));
}

/// There are as many values as triples.
pub broadcast proof fn lemma_triples_len(items: Seq<Triple>)
    ensures
        #[trigger] triples(items).len() == items.len(),
{
    lemma_triples(items);
}

/// How sequences of terms, triples and rules relate to the sequences of their values.
pub broadcast group group_values {
    lemma_terms_push,
    lemma_triples_push,
    lemma_triples_add,
    lemma_triples_len,
}

impl Literal {
    /// A literal without datatype and language.
    pub fn plain(value: String) -> (r: Literal)
        ensures
            r@ == (LiteralView { value: value@, datatype: None, language: None }),
    {
        Literal { value, datatype: None, language: None }
    }
}

impl Clone for Literal {
    fn clone(&self) -> (r: Literal)
        ensures
            r@ == self@,
    {
        Literal {
            value: self.value.clone(),
            datatype: self.datatype.clone(),
            language: self.language.clone(),
        }
    }
}

impl Term {
    pub fn iri(iri: String) -> (r: Term)
        ensures
            r@ == TermView::Iri(iri@),
    {
        Term::Iri(iri)
    }

    pub fn var(name: String) -> (r: Term)
        ensures
            r@ == TermView::Var(name@),
    {
        Term::Var(name)
    }

    pub fn blank(label: String) -> (r: Term)
        ensures
            r@ == TermView::Blank(label@),
    {
        Term::Blank(label)
    }

    pub fn list(items: Vec<Term>) -> (r: Term)
        ensures
            r@ == TermView::List(terms(items@)),
    {
        Term::List(items)
    }

    pub fn formula(items: Vec<Triple>) -> (r: Term)
        ensures
            r@ == TermView::Formula(triples(items@)),
    {
        Term::Formula(items)
    }
}

impl Clone for Term {
    fn clone(&self) -> (r: Term)
        ensures
            r@ == self@,
        decreases self,
    {
        match self {
            Term::Iri(s) => Term::Iri(s.clone()),
            Term::Var(s) => Term::Var(s.clone()),
            Term::Blank(s) => Term::Blank(s.clone()),
            Term::Literal(l) => Term::Literal(l.clone()),
            Term::List(items) => Term::List(clone_terms(items)),
            Term::Formula(items) => Term::Formula(clone_triples(items)),
        }
    }
}

pub fn clone_terms(items: &Vec<Term>) -> (r: Vec<Term>)
    ensures
        terms(r@) == terms(items@),
    decreases items,
{
    broadcast use lemma_terms;
    let mut copy: Vec<Term> = Vec::new();
    for i in 0..items.len()
        invariant
            copy@.len() == i,
            forall|j: int| 0 <= j < i ==> (#[trigger] copy@[j])@ == items@[j]@,
    {
        let item = items[i].clone();
        copy.push(item);
    }
    assert(terms(copy@) =~= terms(items@));
    copy
}

pub fn clone_triples(items: &Vec<Triple>) -> (r: Vec<Triple>)
    ensures
        triples(r@) == triples(items@),
    decreases items,
{
    broadcast use lemma_triples;
    let mut copy: Vec<Triple> = Vec::new();
    for i in 0..items.len()
        invariant
            copy@.len() == i,
            forall|j: int| 0 <= j < i ==> (#[trigger] copy@[j])@ == items@[j]@,
    {
        let item = items[i].clone();
        copy.push(item);
    }
    assert(triples(copy@) =~= triples(items@));
    copy
}

impl Triple {
    pub fn new(subject: Term, predicate: Term, object: Term) -> (r: Triple)
        ensures
            r@ == triple(subject@, predicate@, object@),
    {
        Triple { subject, predicate, object }
    }
}

impl Clone for Triple {
    fn clone(&self) -> (r: Triple)
        ensures
            r@ == self@,
        decreases self,
    {
        Triple {
            subject: self.subject.clone(),
            predicate: self.predicate.clone(),
            object: self.object.clone(),
        }
    }
}

impl DocumentView {
    /// The document that says nothing.
    pub open spec fn empty() -> DocumentView {
        DocumentView {
            prefixes: Map::empty(),
            base_iri: None,
            facts: Seq::empty(),
            rules: Seq::empty(),
        }
    }

    /// What both documents say. Where both declare a prefix the second one counts; where both
    /// have a base the first one counts.
    pub open spec fn merge(self, other: DocumentView) -> DocumentView {
        DocumentView {
            prefixes: self.prefixes.union_prefer_right(other.prefixes),
            base_iri: if self.base_iri is Some {
                self.base_iri
            } else {
                other.base_iri
            },
            facts: self.facts + other.facts,
            rules: self.rules + other.rules,
        }
    }
}

impl Document {
    pub fn new() -> (r: Document)
        ensures
            r@ == DocumentView::empty(),
    {
        let doc = Document {
            prefixes: PrefixMap::new(),
            base_iri: None,
            facts: Vec::new(),
            rules: Vec::new(),
        };
        assert(doc@ =~= DocumentView::empty());
        doc
    }

    /// Adds what `other` says.
    pub fn merge(&mut self, other: Document)
        ensures
            final(self)@ == old(self)@.merge(other@),
    {
        broadcast use group_values;
        let ghost added = other@;
        let mut other = other;
        self.prefixes.extend(&other.prefixes);
        if self.base_iri.is_none() {
            self.base_iri = other.base_iri;
        }
        self.facts.append(&mut other.facts);
        self.rules.append(&mut other.rules);
        assert(self@ =~= old(self)@.merge(added));
    }
}

} // verus!
