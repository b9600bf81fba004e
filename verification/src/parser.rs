//! Reading a Notation3 document.
use crate::ast::{
    str_of, terms, triples, Document, DocumentView, Literal, Rule, RuleView, Term, TermView, Triple,
    TripleView, EYERON_UNQUOTE, LOG_IMPLIED_BY, LOG_IMPLIES, LOG_QUERY, OWL_SAME_AS, RDF_TYPE,
};
use crate::error::{ErrorView, EyeronError};
use crate::grammar::{Cursor, Nested, NestedItems, Reading, Scope};
use crate::halting::{
    base_halt, content_halt, end_or, formula_content_halt, formula_halt, formula_items_halt,
    forward_conclusion_halt, list_halt, literal_halt, objects_halt, predicates_halt, prefix_halt,
    property_list_halt, statement_triples_halt, term_halt, true_halt, verb_halt,
};
use crate::lexer::lex;
pub use crate::message_log::{is_rdf_message_log, parse_rdf_message_log};
use crate::show::{push_kind, push_term};
use crate::text::{
    find, has_prefix, includes, push_chars, push_decimal, same_text, to_chars, to_text,
};
use crate::token::{like, same_variant, tokens, KindView, Token, TokenKind, TokenView};
use vstd::prelude::*;
use vstd::slice::slice_subrange;

verus! {

broadcast use crate::ast::group_values;

/// The literal for a number as it is written.
pub fn number_literal(value: String) -> (r: Term)
    ensures
        r@ == crate::grammar::number(value@),
{
    let chars = to_chars(value.as_str());
    let s = chars.as_slice();
    let n: usize = s.len();
    let mut decimal = false;
    for i in 0..n
        invariant
            n == s@.len(),
            decimal == exists|j: int|
                0 <= j < i && ((#[trigger] s@[j]) == '.' || s@[j] == 'e' || s@[j] == 'E'),
    {
        decimal = decimal || s[i] == '.' || s[i] == 'e' || s[i] == 'E';
    }
    let datatype = if decimal {
        "http://www.w3.org/2001/XMLSchema#decimal"
    } else {
        "http://www.w3.org/2001/XMLSchema#integer"
    };
    Term::Literal(Literal { value, datatype: Some(datatype.to_owned()), language: None })
}

/// The literal for `true` or `false`.
pub fn boolean_literal(value: bool) -> (r: Term)
    ensures
        r@ == crate::grammar::boolean(value),
{
    Term::Literal(
        Literal {
            value: (if value {
                "true"
            } else {
                "false"
            }).to_owned(),
            datatype: Some("http://www.w3.org/2001/XMLSchema#boolean".to_owned()),
            language: None,
        },
    )
}

/// Whether a term is the literal for `true`.
pub fn is_boolean_true_term(term: &Term) -> (r: bool)
    ensures
        r == (term@ == crate::grammar::boolean(true)),
{
    match term {
        Term::Literal(lit) => same_text(lit.value.as_str(), "true") && lit.language.is_none()
            && match &lit.datatype {
            Some(datatype) => same_text(
                datatype.as_str(),
                "http://www.w3.org/2001/XMLSchema#boolean",
            ),
            None => false,
        },
        _ => false,
    }
}

/// A reader at some place among the tokens of a text, with what it has read so far.
pub struct Parser {
    /// The tokens, of which the last one is the end of the text.
    pub tokens: Vec<Token>,
    /// The index of the token that comes next.
    pub pos: usize,
    /// What has been read so far.
    pub doc: Document,
    /// How many blank nodes got a label so far.
    pub blank_counter: usize,
}

/// Whether reading triples gave what was expected, or stopped where it was expected.
pub open spec fn reads_triples(
    r: Result<Vec<Triple>, EyeronError>,
    after: Parser,
    expected: Reading<Seq<TripleView>>,
    halt: Cursor,
) -> bool {
    match r {
        Ok(items) => expected == Ok::<(Seq<TripleView>, Cursor), ErrorView>(
            (triples(items@), after.cursor()),
        ),
        Err(e) => expected == Err::<(Seq<TripleView>, Cursor), ErrorView>(e@) && after.cursor()
            == halt,
    }
}

/// Whether reading a term gave what was expected, or stopped where it was expected.
pub open spec fn reads_nested(
    r: Result<(Term, Vec<Triple>), EyeronError>,
    after: Parser,
    expected: Reading<Nested>,
    halt: Cursor,
) -> bool {
    match r {
        Ok((term, items)) => expected == Ok::<(Nested, Cursor), ErrorView>(
            (Nested { term: term@, triples: triples(items@) }, after.cursor()),
        ),
        Err(e) => expected == Err::<(Nested, Cursor), ErrorView>(e@) && after.cursor() == halt,
    }
}

/// What a document says after a statement was tried of which `content` stands before the dot: that
/// content where all of it could be read, else what the document said before.
pub open spec fn left_by(doc: DocumentView, content: Reading<DocumentView>) -> DocumentView {
    match content {
        Ok((said, _)) => said,
        Err(_) => doc,
    }
}

/// Whether reading a statement with the given content gave what was expected, and left the
/// document that was expected, at the place that was expected: where its content stops, or where
/// the dot is missing.
pub open spec fn reads_statement(
    r: Result<(), EyeronError>,
    before: Parser,
    after: Parser,
    content: Reading<DocumentView>,
    halt: Cursor,
) -> bool {
    let expected = crate::grammar::ended(before.scope(), content);
    match r {
        Ok(_) => expected == Ok::<(DocumentView, Cursor), ErrorView>(
            (after.doc@, after.cursor()),
        ),
        Err(e) => {
            &&& expected == Err::<(DocumentView, Cursor), ErrorView>(e@)
            &&& after.doc@ == left_by(before.doc@, content)
            &&& after.cursor() == end_or(content, halt)
        },
    }
}

impl Parser {
    /// What terms are read against.
    pub open spec fn scope(self) -> Scope {
        crate::grammar::scope(tokens(self.tokens@), self.doc@)
    }

    /// The place, with the number of blank nodes that got a label so far.
    pub open spec fn cursor(self) -> Cursor {
        Cursor { pos: self.pos as int, blanks: self.blank_counter as nat }
    }

    /// The tokens end with the end of the text, the place is one of theirs, and a label can be
    /// counted for each token that is left.
    pub open spec fn wf(self) -> bool {
        &&& self.pos < self.tokens@.len()
        &&& self.tokens@.last().kind is Eof
        &&& self.blank_counter + (self.tokens@.len() - self.pos) <= usize::MAX
    }

    /// There is a token that can be read.
    pub open spec fn ready(self) -> bool {
        self.wf() && self.tokens@.len() >= 2
    }

    /// The tokens and the document are the same.
    pub open spec fn same(self, other: Parser) -> bool {
        self.tokens == other.tokens && self.doc == other.doc
    }

    /// The tokens are those of `old`, and neither the place nor the count of labels fell.
    pub open spec fn comes_after(self, old: Parser) -> bool {
        &&& self.wf()
        &&& self.tokens == old.tokens
        &&& old.pos <= self.pos
        &&& old.blank_counter <= self.blank_counter
    }

    /// Nothing but the place and the count of labels changed since `old`, and neither fell.
    pub open spec fn keeps(self, old: Parser) -> bool {
        self.comes_after(old) && self.same(old)
    }

    /// The place is a later one than that of `old`, unless that was the last one.
    pub open spec fn further(self, old: Parser) -> bool {
        old.pos < old.tokens@.len() - 1 ==> old.pos < self.pos
    }

    /// The token that comes next.
    pub fn peek(&self) -> (r: &Token)
        requires
            self.wf(),
        ensures
            r@ == self.scope().tokens[self.pos as int],
            *r == self.tokens@[self.pos as int],
    {
        &self.tokens[self.pos]
    }

    /// The kind of the token that comes next.
    pub fn peek_kind(&self) -> (r: &TokenKind)
        requires
            self.wf(),
        ensures
            r@ == self.scope().peek(self.cursor()),
            r is Eof <==> self.scope().peek(self.cursor()) is Eof,
    {
        &self.peek().kind
    }

    /// Whether the token that comes next is of the same sort as `expected`.
    pub fn check(&self, expected: &TokenKind) -> (r: bool)
        requires
            self.wf(),
        ensures
            r == like(self.scope().peek(self.cursor()), expected@),
    {
        same_variant(self.peek_kind(), expected)
    }

    /// Reads a token. At the end of the text the token before it is read once more.
    pub fn advance(&mut self) -> (r: Token)
        requires
            old(self).ready(),
        ensures
            r@ == old(self).scope().read(old(self).cursor()),
            final(self).cursor() == old(self).scope().step(old(self).cursor()),
            final(self).keeps(*old(self)),
            final(self).further(*old(self)),
    {
        if self.pos < self.tokens.len() - 1 {
            self.pos += 1;
            self.tokens[self.pos - 1].clone()
        } else {
            self.tokens[self.pos - 1].clone()
        }
    }

    /// Reads a token of the expected sort.
    pub fn expect(&mut self, expected: TokenKind) -> (r: Result<(), EyeronError>)
        requires
            old(self).ready(),
        ensures
            match r {
                Ok(_) => crate::grammar::expect(
                    old(self).scope(),
                    old(self).cursor(),
                    expected@,
                ) == Ok::<((), Cursor), ErrorView>(((), final(self).cursor())),
                Err(e) => crate::grammar::expect(
                    old(self).scope(),
                    old(self).cursor(),
                    expected@,
                ) == Err::<((), Cursor), ErrorView>(e@) && *final(self) == *old(self),
            },
            final(self).keeps(*old(self)),
            r is Ok ==> final(self).further(*old(self)),
    {
        if self.check(&expected) {
            self.advance();
            Ok(())
        } else {
            let mut message = "expected ".to_owned();
            push_kind(&mut message, &expected);
            message.append(", got ");
            push_kind(&mut message, self.peek_kind());
            Err(EyeronError::at(message, self.peek().offset))
        }
    }

    /// Reads the dot that ends a statement.
    pub fn expect_dot(&mut self) -> (r: Result<(), EyeronError>)
        requires
            old(self).ready(),
        ensures
            match r {
                Ok(_) => crate::grammar::closed(
                    old(self).scope(),
                    old(self).doc@,
                    old(self).cursor(),
                ) == Ok::<(DocumentView, Cursor), ErrorView>(
                    (final(self).doc@, final(self).cursor()),
                ),
                Err(e) => crate::grammar::closed(
                    old(self).scope(),
                    old(self).doc@,
                    old(self).cursor(),
                ) == Err::<(DocumentView, Cursor), ErrorView>(e@) && *final(self) == *old(self),
            },
            final(self).keeps(*old(self)),
            r is Ok ==> final(self).further(*old(self)),
    {
        self.expect(TokenKind::Dot)
    }

    /// An IRI as it is meant under the base that holds.
    pub fn resolve_iri(&self, iri: &str) -> (r: String)
        ensures
            r@ == crate::grammar::resolve(self.doc@.base_iri, iri@),
    {
        let chars = to_chars(iri);
        if includes(chars.as_slice(), "://") || has_prefix(chars.as_slice(), "urn:") || has_prefix(
            chars.as_slice(),
            "mailto:",
        ) {
            return iri.to_owned();
        }
        match &self.doc.base_iri {
            None => iri.to_owned(),
            Some(base) => {
                let base = to_chars(base.as_str());
                let n: usize = base.len();
                let fragment = chars.len() > 0 && chars[0] == '#';
                let open = n > 0 && (base[n - 1] == '/' || base[n - 1] == '#');
                let mut end: usize = n;
                if !fragment && !open {
                    let slash = last_slash(&base);
                    if let Some(i) = slash {
                        end = i + 1;
                    }
                }
                let mut out = to_text(slice_subrange(base.as_slice(), 0, end));
                assert(base@.subrange(0, n as int) =~= base@);
                out.append(iri);
                out
            },
        }
    }

    /// The IRI that a prefixed name stands for.
    pub fn expand_pname(&self, pname: &str, offset: usize) -> (r: Result<String, EyeronError>)
        ensures
            match r {
                Ok(iri) => crate::grammar::expand(self.doc@.prefixes, pname@, offset as int)
                    == Ok::<Seq<char>, ErrorView>(iri@),
                Err(e) => crate::grammar::expand(self.doc@.prefixes, pname@, offset as int)
                    == Err::<Seq<char>, ErrorView>(e@),
            },
    {
        let chars = to_chars(pname);
        let s = chars.as_slice();
        let colon = find(s, 0, ':');
        if colon >= s.len() {
            let mut message = "unknown bare name '".to_owned();
            message.append(pname);
            message.append("'; use a prefix or <IRI>");
            return Err(EyeronError::at(message, offset));
        }
        let prefix = to_text(slice_subrange(s, 0, colon));
        match self.doc.prefixes.get(&prefix) {
            Some(base) => {
                let mut iri = base.clone();
                push_chars(&mut iri, slice_subrange(s, colon + 1, s.len()));
                Ok(iri)
            },
            None => {
                let mut message = "unknown prefix '".to_owned();
                message.append(prefix.as_str());
                message.append(":'");
                Err(EyeronError::at(message, offset))
            },
        }
    }

    /// A blank node with a label of its own.
    pub fn fresh_blank(&mut self, prefix: &str) -> (r: Term)
        requires
            old(self).blank_counter < usize::MAX,
        ensures
            final(self).same(*old(self)),
            final(self).pos == old(self).pos,
            final(self).blank_counter == old(self).blank_counter + 1,
            r@ == TermView::Blank(
                prefix@ + crate::text::decimal(final(self).blank_counter as nat),
            ),
    {
        self.blank_counter += 1;
        let mut label = prefix.to_owned();
        push_decimal(&mut label, self.blank_counter);
        Term::blank(label)
    }
}

/// What was read before, put in front of the triples still to be read.
spec fn after_triples(
    front: Seq<TripleView>,
    rest: Reading<Seq<TripleView>>,
) -> Reading<Seq<TripleView>> {
    match rest {
        Ok((items, c)) => Ok((front + items, c)),
        Err(e) => Err(e),
    }
}

/// What was read before, put in front of the items still to be read.
spec fn after_items(
    items: Seq<TermView>,
    triples: Seq<TripleView>,
    rest: Reading<NestedItems>,
) -> Reading<NestedItems> {
    match rest {
        Ok((more, c)) => Ok(
            (NestedItems { items: items + more.items, triples: triples + more.triples }, c),
        ),
        Err(e) => Err(e),
    }
}

proof fn lemma_after_nothing(rest: Reading<Seq<TripleView>>)
    ensures
        after_triples(triples(Seq::<Triple>::empty()), rest) == rest,
{
    if let Ok((items, c)) = rest {
        assert(triples(Seq::<Triple>::empty()) + items =~= items);
    }
}

proof fn lemma_after_more(
    front: Seq<TripleView>,
    first: Seq<TripleView>,
    rest: Reading<Seq<TripleView>>,
)
    ensures
        after_triples(front, after_triples(first, rest)) == after_triples(front + first, rest),
{
    if let Ok((items, c)) = rest {
        assert(front + (first + items) =~= (front + first) + items);
    }
}

impl Parser {
    /// Reads the datatype or the language that follows the value of a literal.
    pub fn finish_literal(&mut self, value: String) -> (r: Result<(Term, Vec<Triple>), EyeronError>)
        requires
            old(self).ready(),
        ensures
            reads_nested(
                r,
                *final(self),
                crate::grammar::literal(old(self).scope(), old(self).cursor(), value@),
                literal_halt(old(self).scope(), old(self).cursor()),
            ),
            final(self).keeps(*old(self)),
        decreases old(self).tokens@.len() - old(self).pos, 0nat,
    {
        let mut lit = Literal::plain(value);
        if self.check(&TokenKind::HatHat) {
            self.advance();
            let (dt, generated) = self.parse_term()?;
            if generated.len() > 0 {
                return Err(EyeronError::new("datatype cannot generate triples".to_owned()));
            }
            match dt {
                Term::Iri(i) => {
                    lit.datatype = Some(i);
                },
                _ => {
                    return Err(EyeronError::new("datatype must be an IRI".to_owned()));
                },
            }
        } else {
            let mut language: Option<String> = None;
            if let TokenKind::Lang(lang) = self.peek_kind() {
                language = Some(lang.clone());
            }
            if language.is_some() {
                lit.language = language;
                self.advance();
            }
        }
        Ok((Term::Literal(lit), Vec::new()))
    }

    fn parse_term_at_end(&mut self) -> (r: Result<(Term, Vec<Triple>), EyeronError>)
        requires
            old(self).ready(),
            old(self).pos == old(self).tokens@.len() - 1,
        ensures
            reads_nested(
                r,
                *final(self),
                crate::grammar::term_at_end(old(self).scope(), old(self).cursor()),
                old(self).cursor(),
            ),
            final(self).keeps(*old(self)),
            r is Ok ==> final(self).further(*old(self)),
    {
        let tok = self.advance();
        match tok.kind {
            TokenKind::String(value) => Ok((Term::Literal(Literal::plain(value)), Vec::new())),
            TokenKind::LBrace => match self.expect(TokenKind::RBrace) {
                Ok(_) => Ok((Term::formula(Vec::new()), Vec::new())),
                Err(e) => Err(e),
            },
            TokenKind::LParen => match self.expect(TokenKind::RParen) {
                Ok(_) => Ok((Term::list(Vec::new()), Vec::new())),
                Err(e) => Err(e),
            },
            TokenKind::LBracket => Err(
                EyeronError::at("unterminated blank node property list".to_owned(), tok.offset),
            ),
            kind => self.token_term(kind, tok.offset),
        }
    }

    /// The term that a token is on its own.
    fn token_term(&self, kind: TokenKind, offset: usize) -> (r: Result<
        (Term, Vec<Triple>),
        EyeronError,
    >)
        ensures
            reads_nested(
                r,
                *self,
                crate::grammar::token_term(
                    self.scope(),
                    TokenView { kind: kind@, offset: offset as int },
                    self.cursor(),
                ),
                self.cursor(),
            ),
    {
        match kind {
            TokenKind::Iri(i) => Ok((Term::iri(self.resolve_iri(i.as_str())), Vec::new())),
            TokenKind::PName(p) => Ok(
                (Term::iri(self.expand_pname(p.as_str(), offset)?), Vec::new()),
            ),
            TokenKind::Var(v) => Ok((Term::var(v), Vec::new())),
            TokenKind::Blank(b) => Ok((Term::blank(b), Vec::new())),
            TokenKind::Number(value) => Ok((number_literal(value), Vec::new())),
            TokenKind::Boolean(value) => Ok((boolean_literal(value), Vec::new())),
            TokenKind::A => Ok((Term::iri(RDF_TYPE.to_owned()), Vec::new())),
            other => {
                let mut message = "expected term, got ".to_owned();
                push_kind(&mut message, &other);
                Err(EyeronError::at(message, offset))
            },
        }
    }

    /// Reads a term, with the triples that stand inside it.
    pub fn parse_term(&mut self) -> (r: Result<(Term, Vec<Triple>), EyeronError>)
        requires
            old(self).ready(),
        ensures
            reads_nested(
                r,
                *final(self),
                crate::grammar::term(old(self).scope(), old(self).cursor()),
                term_halt(old(self).scope(), old(self).cursor()),
            ),
            final(self).keeps(*old(self)),
            r is Ok ==> final(self).further(*old(self)),
        decreases old(self).tokens@.len() - old(self).pos, 2nat,
    {
        if self.pos >= self.tokens.len() - 1 {
            return self.parse_term_at_end();
        }
        if self.check(&TokenKind::LBrace) {
            let items = self.parse_formula()?;
            return Ok((Term::formula(items), Vec::new()));
        }
        let tok = self.advance();
        match tok.kind {
            TokenKind::String(value) => self.finish_literal(value),
            TokenKind::LBracket => self.parse_blank_node_property_list(),
            TokenKind::LParen => self.parse_list(),
            kind => self.token_term(kind, tok.offset),
        }
    }

    /// Reads a list of which the opening parenthesis was read already.
    pub fn parse_list(&mut self) -> (r: Result<(Term, Vec<Triple>), EyeronError>)
        requires
            old(self).ready(),
        ensures
            reads_nested(
                r,
                *final(self),
                match crate::grammar::list_items(old(self).scope(), old(self).cursor()) {
                    Ok((list, d)) => match crate::grammar::expect(
                        old(self).scope(),
                        d,
                        KindView::RParen,
                    ) {
                        Ok((_, d)) => Ok(
                            (Nested { term: TermView::List(list.items), triples: list.triples }, d),
                        ),
                        Err(e) => Err(e),
                    },
                    Err(e) => Err(e),
                },
                list_halt(old(self).scope(), old(self).cursor()),
            ),
            final(self).keeps(*old(self)),
        decreases old(self).tokens@.len() - old(self).pos, 7nat,
    {
        let ghost s = self.scope();
        let ghost whole = crate::grammar::list_items(s, self.cursor());
        let mut items: Vec<Term> = Vec::new();
        let mut found: Vec<Triple> = Vec::new();
        proof {
            if let Ok((list, c)) = whole {
                assert(terms(items@) + list.items =~= list.items);
                assert(triples(found@) + list.triples =~= list.triples);
            }
        }
        while !self.check(&TokenKind::RParen) && !self.check(&TokenKind::Eof)
            invariant
                self.ready(),
                self.keeps(*old(self)),
                s == self.scope(),
                whole == crate::grammar::list_items(s, old(self).cursor()),
                list_halt(s, old(self).cursor()) == list_halt(s, self.cursor()),
                whole == after_items(
                    terms(items@),
                    triples(found@),
                    crate::grammar::list_items(s, self.cursor()),
                ),
            decreases self.tokens@.len() - self.pos,
        {
            let ghost front = terms(items@);
            let ghost inner = triples(found@);
            let (item, mut generated) = self.parse_term()?;
            let ghost first = Nested { term: item@, triples: triples(generated@) };
            items.push(item);
            found.append(&mut generated);
            proof {
                if let Ok((list, c)) = crate::grammar::list_items(s, self.cursor()) {
                    assert(front + (seq![first.term] + list.items) =~= terms(items@) + list.items);
                    assert(inner + (first.triples + list.triples) =~= triples(found@)
                        + list.triples);
                }
            }
        }
        proof {
            assert(terms(items@) + Seq::<TermView>::empty() =~= terms(items@));
            assert(triples(found@) + Seq::<TripleView>::empty() =~= triples(found@));
        }
        self.expect(TokenKind::RParen)?;
        Ok((Term::list(items), found))
    }

    /// Reads a blank node in brackets, of which the opening one was read already.
    pub fn parse_blank_node_property_list(&mut self) -> (r: Result<
        (Term, Vec<Triple>),
        EyeronError,
    >)
        requires
            old(self).ready(),
            old(self).blank_counter + (old(self).tokens@.len() - old(self).pos) < usize::MAX,
        ensures
            reads_nested(
                r,
                *final(self),
                crate::grammar::property_list(old(self).scope(), old(self).cursor()),
                property_list_halt(old(self).scope(), old(self).cursor()),
            ),
            final(self).keeps(*old(self)),
        decreases old(self).tokens@.len() - old(self).pos, 7nat,
    {
        let blank = self.fresh_blank("b");
        if self.check(&TokenKind::RBracket) {
            self.advance();
            return Ok((blank, Vec::new()));
        }
        let items = self.parse_predicate_object_list(&blank)?;
        self.expect(TokenKind::RBracket)?;
        Ok((blank, items))
    }

    /// Reads a predicate.
    pub fn parse_verb(&mut self) -> (r: Result<Term, EyeronError>)
        requires
            old(self).ready(),
        ensures
            match r {
                Ok(predicate) => crate::grammar::verb(old(self).scope(), old(self).cursor())
                    == Ok::<(TermView, Cursor), ErrorView>((predicate@, final(self).cursor())),
                Err(e) => crate::grammar::verb(old(self).scope(), old(self).cursor()) == Err::<
                    (TermView, Cursor),
                    ErrorView,
                >(e@) && final(self).cursor() == verb_halt(old(self).scope(), old(self).cursor()),
            },
            final(self).keeps(*old(self)),
            r is Ok ==> final(self).further(*old(self)),
        decreases old(self).tokens@.len() - old(self).pos, 4nat,
    {
        if self.check(&TokenKind::A) {
            self.advance();
            return Ok(Term::iri(RDF_TYPE.to_owned()));
        }
        if self.check(&TokenKind::Equals) {
            self.advance();
            return Ok(Term::iri(OWL_SAME_AS.to_owned()));
        }
        if self.check(&TokenKind::Arrow) {
            self.advance();
            return Ok(Term::iri(LOG_IMPLIES.to_owned()));
        }
        if self.check(&TokenKind::BackArrow) {
            self.advance();
            return Ok(Term::iri(LOG_IMPLIED_BY.to_owned()));
        }
        let (term, generated) = self.parse_term()?;
        if generated.len() > 0 {
            return Err(
                EyeronError::new(
                    "generated blank/list triples cannot be used as predicates".to_owned(),
                ),
            );
        }
        Ok(term)
    }

    fn parse_objects(&mut self, subject: &Term, predicate: &Term) -> (r: Result<
        Vec<Triple>,
        EyeronError,
    >)
        requires
            old(self).ready(),
        ensures
            reads_triples(
                r,
                *final(self),
                crate::grammar::objects(
                    old(self).scope(),
                    old(self).cursor(),
                    subject@,
                    predicate@,
                ),
                objects_halt(old(self).scope(), old(self).cursor()),
            ),
            final(self).keeps(*old(self)),
            r is Ok ==> final(self).further(*old(self)),
        decreases old(self).tokens@.len() - old(self).pos, 3nat,
    {
        let ghost s = self.scope();
        let ghost whole = crate::grammar::objects(s, self.cursor(), subject@, predicate@);
        let mut found: Vec<Triple> = Vec::new();
        proof {
            lemma_after_nothing(whole);
        }
        loop
            invariant
                self.ready(),
                self.keeps(*old(self)),
                s == self.scope(),
                whole == crate::grammar::objects(s, old(self).cursor(), subject@, predicate@),
                objects_halt(s, old(self).cursor()) == objects_halt(s, self.cursor()),
                whole == after_triples(
                    triples(found@),
                    crate::grammar::objects(s, self.cursor(), subject@, predicate@),
                ),
            decreases self.tokens@.len() - self.pos,
        {
            let ghost front = triples(found@);
            let (object, mut generated) = self.parse_term()?;
            let ghost first = seq![
                crate::ast::triple(subject@, predicate@, object@),
            ] + triples(generated@);
            found.push(Triple::new(subject.clone(), predicate.clone(), object));
            found.append(&mut generated);
            assert(triples(found@) =~= front + first);
            if !self.check(&TokenKind::Comma) {
                return Ok(found);
            }
            self.advance();
            proof {
                lemma_after_more(
                    front,
                    first,
                    crate::grammar::objects(s, self.cursor(), subject@, predicate@),
                );
            }
        }
    }

    /// Reads the predicates of a subject with their objects.
    pub fn parse_predicate_object_list(&mut self, subject: &Term) -> (r: Result<
        Vec<Triple>,
        EyeronError,
    >)
        requires
            old(self).ready(),
        ensures
            reads_triples(
                r,
                *final(self),
                crate::grammar::predicates(old(self).scope(), old(self).cursor(), subject@),
                predicates_halt(old(self).scope(), old(self).cursor(), subject@),
            ),
            final(self).keeps(*old(self)),
        decreases old(self).tokens@.len() - old(self).pos, 5nat,
    {
        let ghost s = self.scope();
        let ghost whole = crate::grammar::predicates(s, self.cursor(), subject@);
        let mut found: Vec<Triple> = Vec::new();
        proof {
            lemma_after_nothing(whole);
        }
        loop
            invariant
                self.ready(),
                self.keeps(*old(self)),
                s == self.scope(),
                whole == crate::grammar::predicates(s, old(self).cursor(), subject@),
                predicates_halt(s, old(self).cursor(), subject@) == predicates_halt(
                    s,
                    self.cursor(),
                    subject@,
                ),
                whole == after_triples(
                    triples(found@),
                    crate::grammar::predicates(s, self.cursor(), subject@),
                ),
            decreases self.tokens@.len() - self.pos,
        {
            let ghost front = triples(found@);
            if matches!(
                self.peek_kind(),
                TokenKind::Dot | TokenKind::RBrace | TokenKind::RBracket
            ) {
                assert(front + Seq::<TripleView>::empty() =~= front);
                return Ok(found);
            }
            let predicate = self.parse_verb()?;
            let mut first = self.parse_objects(subject, &predicate)?;
            let ghost items = triples(first@);
            found.append(&mut first);
            if !self.check(&TokenKind::Semicolon) {
                return Ok(found);
            }
            self.skip_semicolons();
            proof {
                lemma_after_more(
                    front,
                    items,
                    crate::grammar::predicates(s, self.cursor(), subject@),
                );
            }
        }
    }

    fn skip_semicolons(&mut self)
        requires
            old(self).ready(),
        ensures
            final(self).cursor() == crate::grammar::skip_semicolons(
                old(self).scope(),
                old(self).cursor(),
            ),
            final(self).ready(),
            final(self).keeps(*old(self)),
            old(self).scope().peek(old(self).cursor()) is Semicolon ==> final(self).pos > old(
                self,
            ).pos,
    {
        while self.check(&TokenKind::Semicolon)
            invariant
                self.ready(),
                self.keeps(*old(self)),
                old(self).scope().peek(old(self).cursor()) is Semicolon && self.pos == old(
                    self,
                ).pos ==> self.cursor() == old(self).cursor(),
                crate::grammar::skip_semicolons(old(self).scope(), old(self).cursor())
                    == crate::grammar::skip_semicolons(self.scope(), self.cursor()),
            decreases self.tokens@.len() - self.pos,
        {
            self.advance();
        }
    }

    /// Reads a subject with its predicates and objects, or an implication between two terms.
    pub fn parse_triples_sequence(&mut self) -> (r: Result<Vec<Triple>, EyeronError>)
        requires
            old(self).ready(),
        ensures
            reads_triples(
                r,
                *final(self),
                crate::grammar::statement_triples(old(self).scope(), old(self).cursor()),
                statement_triples_halt(old(self).scope(), old(self).cursor()),
            ),
            final(self).keeps(*old(self)),
            r is Ok ==> final(self).further(*old(self)),
        decreases old(self).tokens@.len() - old(self).pos, 6nat,
    {
        let (subject, mut generated) = self.parse_term()?;
        let ghost inner = triples(generated@);
        let mut found: Vec<Triple> = Vec::new();
        found.append(&mut generated);
        assert(triples(found@) =~= inner);
        // An implication can be a statement inside a quoted formula. It is a triple whose subject
        // and object are the two sides as they are written; the predicate tells the direction.
        if self.check(&TokenKind::Arrow) || self.check(&TokenKind::BackArrow) {
            let backward = self.check(&TokenKind::BackArrow);
            self.advance();
            let (object, mut object_generated) = self.parse_term()?;
            let ghost meant = crate::grammar::implied(object@);
            let object = if is_boolean_true_term(&object) {
                Term::formula(Vec::new())
            } else {
                object
            };
            assert(object@ == meant);
            let ghost inner_object = triples(object_generated@);
            found.append(&mut object_generated);
            let predicate = if backward {
                LOG_IMPLIED_BY
            } else {
                LOG_IMPLIES
            };
            found.push(Triple::new(subject, Term::iri(predicate.to_owned()), object));
            assert(triples(found@) =~= inner + inner_object + seq![
                crate::ast::triple(subject@, TermView::Iri(predicate@), meant),
            ]);
            return Ok(found);
        }
        let mut items = self.parse_predicate_object_list(&subject)?;
        found.append(&mut items);
        Ok(found)
    }

    /// Reads a formula in braces.
    pub fn parse_formula(&mut self) -> (r: Result<Vec<Triple>, EyeronError>)
        requires
            old(self).ready(),
        ensures
            reads_triples(
                r,
                *final(self),
                crate::grammar::formula(old(self).scope(), old(self).cursor()),
                formula_halt(old(self).scope(), old(self).cursor()),
            ),
            final(self).keeps(*old(self)),
            r is Ok ==> final(self).further(*old(self)),
        decreases old(self).tokens@.len() - old(self).pos, 1nat,
    {
        self.expect(TokenKind::LBrace)?;
        let ghost s = self.scope();
        let ghost opened = *self;
        let ghost whole = crate::grammar::formula_items(s, self.cursor());
        let mut found: Vec<Triple> = Vec::new();
        proof {
            lemma_after_nothing(whole);
        }
        while !self.check(&TokenKind::RBrace) && !self.check(&TokenKind::Eof)
            invariant
                self.ready(),
                self.keeps(*old(self)),
                s == self.scope(),
                self.pos > old(self).pos,
                opened.pos > old(self).pos,
                crate::grammar::expect(s, old(self).cursor(), KindView::LBrace) == Ok::<
                    ((), Cursor),
                    ErrorView,
                >(((), opened.cursor())),
                whole == after_triples(
                    triples(found@),
                    crate::grammar::formula_items(s, self.cursor()),
                ),
                whole == crate::grammar::formula_items(s, opened.cursor()),
                formula_items_halt(s, opened.cursor()) == formula_items_halt(s, self.cursor()),
            decreases self.tokens@.len() - self.pos,
        {
            if self.check(&TokenKind::Dot) {
                self.advance();
            } else {
                let ghost front = triples(found@);
                let mut first = self.parse_triples_sequence()?;
                let ghost items = triples(first@);
                found.append(&mut first);
                if self.check(&TokenKind::Dot) {
                    self.advance();
                } else if !self.check(&TokenKind::RBrace) {
                    return Err(
                        EyeronError::at(
                            "expected '.' or '}' in formula".to_owned(),
                            self.peek().offset,
                        ),
                    );
                }
                proof {
                    lemma_after_more(
                        front,
                        items,
                        crate::grammar::formula_items(s, self.cursor()),
                    );
                }
            }
        }
        assert(triples(found@) + Seq::<TripleView>::empty() =~= triples(found@));
        self.expect(TokenKind::RBrace)?;
        Ok(found)
    }
}

impl Parser {
    /// Reads a formula in braces, or `true` for the empty one.
    pub fn parse_formula_or_true(&mut self) -> (r: Result<Vec<Triple>, EyeronError>)
        requires
            old(self).ready(),
        ensures
            reads_triples(
                r,
                *final(self),
                crate::grammar::formula_or_true(old(self).scope(), old(self).cursor()),
                formula_halt(old(self).scope(), old(self).cursor()),
            ),
            final(self).keeps(*old(self)),
            r is Ok ==> final(self).further(*old(self)),
    {
        if matches!(self.peek_kind(), TokenKind::Boolean(true)) {
            self.advance();
            return Ok(Vec::new());
        }
        self.parse_formula()
    }

    /// Reads the conclusion of a forward rule.
    pub fn parse_forward_rule_rhs(&mut self) -> (r: Result<Vec<Triple>, EyeronError>)
        requires
            old(self).ready(),
        ensures
            reads_triples(
                r,
                *final(self),
                crate::grammar::forward_conclusion(old(self).scope(), old(self).cursor()),
                forward_conclusion_halt(old(self).scope(), old(self).cursor()),
            ),
            final(self).keeps(*old(self)),
            r is Ok ==> final(self).further(*old(self)),
    {
        if matches!(self.peek_kind(), TokenKind::Boolean(true)) {
            self.advance();
            return Ok(Vec::new());
        }
        if matches!(self.peek_kind(), TokenKind::LBrace) {
            return self.parse_formula();
        }
        // The conclusion can also be a term that resolves to a quoted formula, as in
        // `{ :a :b ?F } => ?F .`; the triple says that its contents are meant.

        let (term, generated) = self.parse_term()?;
        if generated.len() > 0 {
            return Err(
                EyeronError::new(
                    "generated triples cannot appear around an unquoted RHS term".to_owned(),
                ),
            );
        }
        let mut found: Vec<Triple> = Vec::new();
        found.push(
            Triple::new(
                Term::iri(EYERON_UNQUOTE.to_owned()),
                Term::iri(EYERON_UNQUOTE.to_owned()),
                term,
            ),
        );
        assert(triples(found@) =~= crate::grammar::unquoted(term@));
        Ok(found)
    }

    /// Adds a rule and reads the dot that ends it.
    fn finish_rule(
        &mut self,
        premise: Vec<Triple>,
        conclusion: Vec<Triple>,
        is_forward: bool,
    ) -> (r: Result<(), EyeronError>)
        requires
            old(self).ready(),
        ensures
            reads_statement(
                r,
                *old(self),
                *final(self),
                crate::grammar::with_rule(
                    old(self).doc@,
                    RuleView {
                        premise: triples(premise@),
                        conclusion: triples(conclusion@),
                        is_forward,
                    },
                    old(self).cursor(),
                ),
                old(self).cursor(),
            ),
            final(self).comes_after(*old(self)),
            r is Ok ==> final(self).further(*old(self)),
    {
        let ghost before = self.doc@;
        let ghost rule = RuleView {
            premise: triples(premise@),
            conclusion: triples(conclusion@),
            is_forward,
        };
        self.doc.rules.push(Rule { premise, conclusion, is_forward });
        assert(self.doc@ =~= DocumentView { rules: before.rules.push(rule), ..before });
        self.expect_dot()
    }

    /// Reads the declaration of a prefix.
    pub fn parse_prefix(&mut self) -> (r: Result<(), EyeronError>)
        requires
            old(self).ready(),
        ensures
            reads_statement(
                r,
                *old(self),
                *final(self),
                crate::grammar::prefix_content(
                    old(self).scope(),
                    old(self).doc@,
                    old(self).cursor(),
                ),
                prefix_halt(old(self).scope(), old(self).cursor()),
            ),
            final(self).comes_after(*old(self)),
            r is Ok ==> final(self).further(*old(self)),
    {
        let ghost before = self.doc@;
        self.advance();
        let t = self.advance();
        let name = match t.kind {
            TokenKind::PName(p) => {
                let chars = to_chars(p.as_str());
                let n: usize = chars.len();
                let end = if n > 0 && chars[n - 1] == ':' {
                    n - 1
                } else {
                    n
                };
                let kept = slice_subrange(chars.as_slice(), 0, end);
                assert(kept@ =~= crate::grammar::without_colon(p@));
                to_text(kept)
            },
            _ => {
                return Err(EyeronError::at("expected prefix name".to_owned(), t.offset));
            },
        };
        let iri_tok = self.advance();
        let iri = match iri_tok.kind {
            TokenKind::Iri(i) => i,
            _ => {
                return Err(EyeronError::at("expected prefix IRI".to_owned(), iri_tok.offset));
            },
        };
        let ghost key = name@;
        let ghost value = iri@;
        self.doc.prefixes.insert(name, iri);
        assert(self.doc@ =~= DocumentView {
            prefixes: before.prefixes.insert(key, value),
            ..before
        });
        self.expect_dot()
    }

    /// Reads the declaration of a base.
    pub fn parse_base(&mut self) -> (r: Result<(), EyeronError>)
        requires
            old(self).ready(),
        ensures
            reads_statement(
                r,
                *old(self),
                *final(self),
                crate::grammar::base_content(
                    old(self).scope(),
                    old(self).doc@,
                    old(self).cursor(),
                ),
                base_halt(old(self).scope(), old(self).cursor()),
            ),
            final(self).comes_after(*old(self)),
            r is Ok ==> final(self).further(*old(self)),
    {
        self.advance();
        let iri_tok = self.advance();
        let iri = match iri_tok.kind {
            TokenKind::Iri(i) => i,
            _ => {
                return Err(EyeronError::at("expected base IRI".to_owned(), iri_tok.offset));
            },
        };
        self.doc.base_iri = Some(iri);
        self.expect_dot()
    }

    /// Reads a rule whose left side is `true`.
    pub fn parse_true_formula_statement(&mut self) -> (r: Result<(), EyeronError>)
        requires
            old(self).ready(),
        ensures
            reads_statement(
                r,
                *old(self),
                *final(self),
                crate::grammar::true_content(
                    old(self).scope(),
                    old(self).doc@,
                    old(self).cursor(),
                ),
                true_halt(old(self).scope(), old(self).cursor()),
            ),
            final(self).comes_after(*old(self)),
            r is Ok ==> final(self).further(*old(self)),
    {
        self.advance();
        if self.check(&TokenKind::Arrow) {
            self.advance();
            let rhs = self.parse_forward_rule_rhs()?;
            self.finish_rule(Vec::new(), rhs, true)
        } else if self.check(&TokenKind::BackArrow) {
            self.advance();
            let rhs = self.parse_formula_or_true()?;
            self.finish_rule(rhs, Vec::new(), false)
        } else {
            Err(EyeronError::at("expected => or <= after true".to_owned(), self.peek().offset))
        }
    }

    /// Reads a rule whose left side is a formula.
    pub fn parse_formula_statement(&mut self) -> (r: Result<(), EyeronError>)
        requires
            old(self).ready(),
        ensures
            reads_statement(
                r,
                *old(self),
                *final(self),
                crate::grammar::formula_content(
                    old(self).scope(),
                    old(self).doc@,
                    old(self).cursor(),
                ),
                formula_content_halt(old(self).scope(), old(self).cursor()),
            ),
            final(self).comes_after(*old(self)),
            r is Ok ==> final(self).further(*old(self)),
    {
        let lhs = self.parse_formula()?;
        if self.check(&TokenKind::Arrow) {
            self.advance();
            let rhs = self.parse_forward_rule_rhs()?;
            self.finish_rule(lhs, rhs, true)
        } else if self.check(&TokenKind::BackArrow) {
            self.advance();
            let rhs = self.parse_formula_or_true()?;
            // `{ head } <= { body }` answers a goal that matches `head`.
            self.finish_rule(rhs, lhs, false)
        } else {
            let predicate = self.parse_verb()?;
            let query = match &predicate {
                Term::Iri(iri) => same_text(iri.as_str(), LOG_QUERY),
                _ => false,
            };
            if query {
                let rhs = self.parse_formula_or_true()?;
                self.finish_rule(lhs, rhs, true)
            } else {
                let mut message = "expected =>, <=, or log:query after formula, got ".to_owned();
                push_term(&mut message, &predicate);
                Err(EyeronError::at(message, self.peek().offset))
            }
        }
    }

    fn parse_facts(&mut self) -> (r: Result<(), EyeronError>)
        requires
            old(self).ready(),
        ensures
            reads_statement(
                r,
                *old(self),
                *final(self),
                crate::grammar::fact_content(
                    old(self).scope(),
                    old(self).doc@,
                    old(self).cursor(),
                ),
                statement_triples_halt(old(self).scope(), old(self).cursor()),
            ),
            final(self).comes_after(*old(self)),
            r is Ok ==> final(self).further(*old(self)),
    {
        let ghost before = self.doc@;
        let mut facts = self.parse_triples_sequence()?;
        let ghost items = triples(facts@);
        self.doc.facts.append(&mut facts);
        assert(self.doc@ =~= DocumentView { facts: before.facts + items, ..before });
        self.expect_dot()
    }

    fn parse_statement(&mut self) -> (r: Result<(), EyeronError>)
        requires
            old(self).ready(),
        ensures
            reads_statement(
                r,
                *old(self),
                *final(self),
                crate::grammar::content(old(self).scope(), old(self).doc@, old(self).cursor()),
                content_halt(old(self).scope(), old(self).cursor()),
            ),
            final(self).comes_after(*old(self)),
            r is Ok ==> final(self).further(*old(self)),
    {
        match self.peek_kind() {
            TokenKind::AtPrefix | TokenKind::Prefix => self.parse_prefix(),
            TokenKind::AtBase | TokenKind::Base => self.parse_base(),
            TokenKind::LBrace => self.parse_formula_statement(),
            TokenKind::Boolean(true) => self.parse_true_formula_statement(),
            TokenKind::Dot => {
                self.advance();
                Ok(())
            },
            _ => self.parse_facts(),
        }
    }

    /// A reader at the first of the tokens. `base_iri` is the base that holds until the text
    /// declares one.
    pub fn new(tokens: Vec<Token>, base_iri: Option<&str>) -> (r: Parser)
        requires
            tokens@.len() > 0,
            tokens@.last().kind is Eof,
        ensures
            r.wf(),
            r.tokens == tokens,
            r.cursor() == (Cursor { pos: 0, blanks: 0 }),
            r.doc@ == (DocumentView { base_iri: str_of(base_iri), ..DocumentView::empty() }),
    {
        let mut doc = Document::new();
        doc.base_iri = match base_iri {
            Some(base) => Some(base.to_owned()),
            None => None,
        };
        assert(tokens.len() <= usize::MAX);
        Parser { tokens, pos: 0, doc, blank_counter: 0 }
    }

    /// Reads all statements that are left.
    pub fn parse_document(self) -> (r: Result<Document, EyeronError>)
        requires
            self.wf(),
        ensures
            match r {
                Ok(doc) => crate::grammar::statements(
                    tokens(self.tokens@),
                    self.doc@,
                    self.cursor(),
                ) == Ok::<DocumentView, ErrorView>(doc@),
                Err(e) => crate::grammar::statements(
                    tokens(self.tokens@),
                    self.doc@,
                    self.cursor(),
                ) == Err::<DocumentView, ErrorView>(e@),
            },
    {
        let mut parser = self;
        let ghost ts = tokens(self.tokens@);
        while !parser.check(&TokenKind::Eof)
            invariant
                parser.wf(),
                parser.tokens == self.tokens,
                ts == tokens(self.tokens@),
                crate::grammar::statements(ts, self.doc@, self.cursor())
                    == crate::grammar::statements(ts, parser.doc@, parser.cursor()),
            decreases parser.tokens@.len() - parser.pos,
        {
            parser.parse_statement()?;
        }
        Ok(parser.doc)
    }
}

/// Reads a Notation3 text. `base_iri` is the base that holds until the text declares one.
pub fn parse_n3(input: &str, base_iri: Option<&str>) -> (r: Result<Document, EyeronError>)
    ensures
        match r {
            Ok(doc) => crate::grammar::n3(input@, str_of(base_iri)) == Ok::<
                DocumentView,
                ErrorView,
            >(doc@),
            Err(e) => crate::grammar::n3(input@, str_of(base_iri)) == Err::<
                DocumentView,
                ErrorView,
            >(e@),
        },
{
    let tokens = lex(input)?;
    Parser::new(tokens, base_iri).parse_document()
}

/// The index of the last slash.
fn last_slash(s: &Vec<char>) -> (r: Option<usize>)
    ensures
        match r {
            Some(i) => s@.index_of_last('/') == Some(i as int) && i < s@.len(),
            None => s@.index_of_last('/') is None,
        },
{
    proof {
        s@.index_of_last_ensures('/');
    }
    let mut n: usize = s.len();
    while n > 0
        invariant
            n <= s@.len(),
            forall|j: int| n <= j < s@.len() ==> s@[j] != '/',
            match s@.index_of_last('/') {
                Some(i) => s@.contains('/') && 0 <= i < s@.len() && s@[i] == '/' && forall|j: int|
                    i < j < s@.len() ==> s@[j] != '/',
                None => !s@.contains('/'),
            },
        decreases n,
    {
        n -= 1;
        if s[n] == '/' {
            return Some(n);
        }
    }
    None
}

} // verus!
