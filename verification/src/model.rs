//! RDF terms as the store and the query evaluator exchange them.

use crate::fx::FxKey;
use vstd::prelude::*;

verus! {

/// A string, as its UTF-8 bytes.
pub struct Text {
    pub bytes: Vec<u8>,
}

impl View for Text {
    type V = Seq<u8>;

    open spec fn view(&self) -> Seq<u8> {
        self.bytes@
    }
}

impl Text {
    pub fn new(bytes: Vec<u8>) -> (text: Self)
        ensures
            text@ == bytes@,
    {
        Text { bytes }
    }

    pub fn same(&self, other: &Text) -> (result: bool)
        ensures
            result == (self@ == other@),
    {
        if self.bytes.len() != other.bytes.len() {
            return false;
        }
        let mut next: usize = 0;
        while next < self.bytes.len()
            invariant
                self.bytes@.len() == other.bytes@.len(),
                next <= self.bytes@.len(),
                forall|i: int| 0 <= i < next ==> self.bytes@[i] == other.bytes@[i],
            decreases self.bytes@.len() - next,
        {
            if self.bytes[next] != other.bytes[next] {
                return false;
            }
            next = next + 1;
        }
        assert(self@ =~= other@);
        true
    }

    pub fn duplicate(&self) -> (text: Self)
        ensures
            text@ == self@,
    {
        let mut bytes: Vec<u8> = Vec::new();
        let mut next: usize = 0;
        while next < self.bytes.len()
            invariant
                next <= self.bytes@.len(),
                bytes@ == self.bytes@.take(next as int),
            decreases self.bytes@.len() - next,
        {
            bytes.push(self.bytes[next]);
            next = next + 1;
        }
        assert(bytes@ =~= self.bytes@);
        Text { bytes }
    }

    /// Appends the words that stand for the string when it is hashed.
    pub fn push_words(&self, words: &mut Vec<u64>)
        ensures
            final(words)@ == old(words)@ + text_words(self@),
    {
        let ghost before = words@;
        let mut next: usize = 0;
        while next < self.bytes.len()
            invariant
                next <= self.bytes@.len(),
                words@ == before + text_words(self@).take(next as int),
            decreases self.bytes@.len() - next,
        {
            words.push(self.bytes[next] as u64);
            next = next + 1;
            assert(words@ =~= before + text_words(self@).take(next as int));
        }
        words.push(256);
        assert(words@ =~= before + text_words(self@));
    }
}

/// The words that stand for a string when it is hashed: its bytes and an end mark.
pub open spec fn text_words(text: Seq<u8>) -> Seq<u64> {
    text.map_values(|byte: u8| byte as u64).push(256u64)
}

/// A term named by an IRI.
pub struct NamedNode {
    pub iri: Text,
}

impl View for NamedNode {
    type V = Seq<u8>;

    open spec fn view(&self) -> Seq<u8> {
        self.iri@
    }
}

impl NamedNode {
    pub fn same(&self, other: &NamedNode) -> (result: bool)
        ensures
            result == (self@ == other@),
    {
        self.iri.same(&other.iri)
    }

    pub fn duplicate(&self) -> (node: Self)
        ensures
            node@ == self@,
    {
        NamedNode { iri: self.iri.duplicate() }
    }
}

/// A blank node, by its label or by its number.
pub enum BlankNode {
    Named(Text),
    Anonymous(u128),
}

pub enum BlankNodeView {
    Named(Seq<u8>),
    Anonymous(u128),
}

impl View for BlankNode {
    type V = BlankNodeView;

    open spec fn view(&self) -> BlankNodeView {
        match self {
            BlankNode::Named(label) => BlankNodeView::Named(label@),
            BlankNode::Anonymous(id) => BlankNodeView::Anonymous(*id),
        }
    }
}

impl FxKey for BlankNode {
    type Model = BlankNodeView;

    open spec fn model(&self) -> BlankNodeView {
        self@
    }

    open spec fn words(model: BlankNodeView) -> Seq<u64> {
        match model {
            BlankNodeView::Named(label) => seq![0u64] + text_words(label),
            BlankNodeView::Anonymous(id) => seq![1u64] + u128_words(id),
        }
    }

    fn same(&self, other: &Self) -> (result: bool) {
        match (self, other) {
            (BlankNode::Named(a), BlankNode::Named(b)) => a.same(b),
            (BlankNode::Anonymous(a), BlankNode::Anonymous(b)) => *a == *b,
            _ => false,
        }
    }

    fn duplicate(&self) -> (result: Self) {
        match self {
            BlankNode::Named(label) => BlankNode::Named(label.duplicate()),
            BlankNode::Anonymous(id) => BlankNode::Anonymous(*id),
        }
    }

    fn to_words(&self) -> (words: Vec<u64>) {
        let mut words: Vec<u64> = Vec::new();
        match self {
            BlankNode::Named(label) => {
                words.push(0);
                label.push_words(&mut words);
            },
            BlankNode::Anonymous(id) => {
                words.push(1);
                push_u128(&mut words, *id);
            },
        }
        assert(words@ =~= Self::words(self@));
        words
    }
}

/// The two halves of a 128-bit number, the high one first.
pub open spec fn u128_words(value: u128) -> Seq<u64> {
    seq![(value >> 64) as u64, value as u64]
}

/// Appends the two halves of a 128-bit number.
pub fn push_u128(words: &mut Vec<u64>, value: u128)
    ensures
        final(words)@ == old(words)@ + u128_words(value),
{
    let ghost before = words@;
    words.push((value >> 64) as u64);
    words.push(value as u64);
    assert(words@ =~= before + u128_words(value));
}

/// A variable of a query.
pub struct Variable {
    pub name: Text,
}

impl View for Variable {
    type V = Seq<u8>;

    open spec fn view(&self) -> Seq<u8> {
        self.name@
    }
}

impl Variable {
    pub fn same(&self, other: &Variable) -> (result: bool)
        ensures
            result == (self@ == other@),
    {
        self.name.same(&other.name)
    }

    pub fn duplicate(&self) -> (variable: Self)
        ensures
            variable@ == self@,
    {
        Variable { name: self.name.duplicate() }
    }
}

/// The names of a list of variables.
pub open spec fn names(variables: Seq<Variable>) -> Seq<Seq<u8>> {
    variables.map_values(|variable: Variable| variable@)
}

/// Copies a list of variables.
pub fn duplicate_variables(variables: &Vec<Variable>) -> (copy: Vec<Variable>)
    ensures
        names(copy@) == names(variables@),
{
    let mut copy: Vec<Variable> = Vec::new();
    let mut next: usize = 0;
    while next < variables.len()
        invariant
            next <= variables@.len(),
            copy@.len() == next,
            forall|i: int| 0 <= i < next ==> (#[trigger] copy@[i])@ == variables@[i]@,
        decreases variables@.len() - next,
    {
        copy.push(variables[next].duplicate());
        next = next + 1;
    }
    assert(names(copy@) =~= names(variables@));
    copy
}

/// A point on the time line in units of 10^-18 seconds, with a time zone in minutes.
#[derive(Clone, Copy, PartialEq, Eq, Structural, Debug)]
pub struct Timestamp {
    pub value: i128,
    pub timezone_offset: Option<i16>,
}

/// The value of a literal of a datatype with a value space of its own. Floating-point
/// numbers stand as their bits, decimals and seconds in units of 10^-18.
#[derive(Clone, Copy, PartialEq, Eq, Structural, Debug)]
pub enum NativeLiteral {
    Boolean(bool),
    Float(u32),
    Double(u64),
    Integer(i64),
    Decimal(i128),
    DateTime(Timestamp),
    Time(Timestamp),
    Date(Timestamp),
    GYearMonth(Timestamp),
    GYear(Timestamp),
    GMonthDay(Timestamp),
    GDay(Timestamp),
    GMonth(Timestamp),
    Duration { months: i64, seconds: i128 },
    YearMonthDuration(i64),
    DayTimeDuration(i128),
}

/// The kind of a native value and the words of its contents.
pub open spec fn native_words(value: NativeLiteral) -> Seq<u64> {
    match value {
        NativeLiteral::Boolean(v) => seq![0u64, if v { 1u64 } else { 0u64 }],
        NativeLiteral::Float(v) => seq![1u64, v as u64],
        NativeLiteral::Double(v) => seq![2u64, v],
        NativeLiteral::Integer(v) => seq![3u64, v as u64],
        NativeLiteral::Decimal(v) => seq![4u64] + u128_words(v as u128),
        NativeLiteral::DateTime(t) => seq![5u64] + timestamp_words(t),
        NativeLiteral::Time(t) => seq![6u64] + timestamp_words(t),
        NativeLiteral::Date(t) => seq![7u64] + timestamp_words(t),
        NativeLiteral::GYearMonth(t) => seq![8u64] + timestamp_words(t),
        NativeLiteral::GYear(t) => seq![9u64] + timestamp_words(t),
        NativeLiteral::GMonthDay(t) => seq![10u64] + timestamp_words(t),
        NativeLiteral::GDay(t) => seq![11u64] + timestamp_words(t),
        NativeLiteral::GMonth(t) => seq![12u64] + timestamp_words(t),
        NativeLiteral::Duration { months, seconds } => seq![13u64, months as u64] + u128_words(
            seconds as u128,
        ),
        NativeLiteral::YearMonthDuration(v) => seq![14u64, v as u64],
        NativeLiteral::DayTimeDuration(v) => seq![15u64] + u128_words(v as u128),
    }
}

pub open spec fn timestamp_words(timestamp: Timestamp) -> Seq<u64> {
    u128_words(timestamp.value as u128).push(
        match timestamp.timezone_offset {
            Some(offset) => offset as u16 as u64,
            None => 65536u64,
        },
    )
}

fn push_timestamp(words: &mut Vec<u64>, timestamp: Timestamp)
    ensures
        final(words)@ == old(words)@ + timestamp_words(timestamp),
{
    let ghost before = words@;
    push_u128(words, timestamp.value as u128);
    match timestamp.timezone_offset {
        Some(offset) => {
            words.push(offset as u16 as u64);
        },
        None => {
            words.push(65536);
        },
    }
    assert(words@ =~= before + timestamp_words(timestamp));
}

/// Appends the words of a native value.
pub fn push_native(words: &mut Vec<u64>, value: NativeLiteral)
    ensures
        final(words)@ == old(words)@ + native_words(value),
{
    let ghost before = words@;
    match value {
        NativeLiteral::Boolean(v) => {
            words.push(0);
            words.push(if v { 1 } else { 0 });
        },
        NativeLiteral::Float(v) => {
            words.push(1);
            words.push(v as u64);
        },
        NativeLiteral::Double(v) => {
            words.push(2);
            words.push(v);
        },
        NativeLiteral::Integer(v) => {
            words.push(3);
            words.push(v as u64);
        },
        NativeLiteral::Decimal(v) => {
            words.push(4);
            push_u128(words, v as u128);
        },
        NativeLiteral::DateTime(t) => {
            words.push(5);
            push_timestamp(words, t);
        },
        NativeLiteral::Time(t) => {
            words.push(6);
            push_timestamp(words, t);
        },
        NativeLiteral::Date(t) => {
            words.push(7);
            push_timestamp(words, t);
        },
        NativeLiteral::GYearMonth(t) => {
            words.push(8);
            push_timestamp(words, t);
        },
        NativeLiteral::GYear(t) => {
            words.push(9);
            push_timestamp(words, t);
        },
        NativeLiteral::GMonthDay(t) => {
            words.push(10);
            push_timestamp(words, t);
        },
        NativeLiteral::GDay(t) => {
            words.push(11);
            push_timestamp(words, t);
        },
        NativeLiteral::GMonth(t) => {
            words.push(12);
            push_timestamp(words, t);
        },
        NativeLiteral::Duration { months, seconds } => {
            words.push(13);
            words.push(months as u64);
            push_u128(words, seconds as u128);
        },
        NativeLiteral::YearMonthDuration(v) => {
            words.push(14);
            words.push(v as u64);
        },
        NativeLiteral::DayTimeDuration(v) => {
            words.push(15);
            push_u128(words, v as u128);
        },
    }
    assert(words@ =~= before + native_words(value));
}

/// An RDF term.
pub enum Term {
    NamedNode(NamedNode),
    BlankNode(BlankNode),
    StringLiteral(Text),
    LangStringLiteral { value: Text, language: Text },
    OtherTypedLiteral { value: Text, datatype: NamedNode },
    NativeLiteral(NativeLiteral),
}

/// A term as expressions compute with it.
pub type ExpressionTerm = Term;

pub enum TermView {
    NamedNode(Seq<u8>),
    BlankNode(BlankNodeView),
    StringLiteral(Seq<u8>),
    LangStringLiteral { value: Seq<u8>, language: Seq<u8> },
    OtherTypedLiteral { value: Seq<u8>, datatype: Seq<u8> },
    NativeLiteral(NativeLiteral),
}

impl View for Term {
    type V = TermView;

    open spec fn view(&self) -> TermView {
        match self {
            Term::NamedNode(node) => TermView::NamedNode(node@),
            Term::BlankNode(node) => TermView::BlankNode(node@),
            Term::StringLiteral(value) => TermView::StringLiteral(value@),
            Term::LangStringLiteral { value, language } => TermView::LangStringLiteral {
                value: value@,
                language: language@,
            },
            Term::OtherTypedLiteral { value, datatype } => TermView::OtherTypedLiteral {
                value: value@,
                datatype: datatype@,
            },
            Term::NativeLiteral(value) => TermView::NativeLiteral(*value),
        }
    }
}

/// The kind of a term and the words of its contents.
pub open spec fn term_words(term: TermView) -> Seq<u64> {
    match term {
        TermView::NamedNode(iri) => seq![0u64] + text_words(iri),
        TermView::BlankNode(node) => seq![1u64] + <BlankNode as FxKey>::words(node),
        TermView::StringLiteral(value) => seq![2u64] + text_words(value),
        TermView::LangStringLiteral { value, language } => seq![3u64] + text_words(value)
            + text_words(language),
        TermView::OtherTypedLiteral { value, datatype } => seq![4u64] + text_words(value)
            + text_words(datatype),
        TermView::NativeLiteral(value) => seq![5u64] + native_words(value),
    }
}

impl Term {
    pub fn same(&self, other: &Term) -> (result: bool)
        ensures
            result == (self@ == other@),
    {
        match (self, other) {
            (Term::NamedNode(a), Term::NamedNode(b)) => a.same(b),
            (Term::BlankNode(a), Term::BlankNode(b)) => a.same(b),
            (Term::StringLiteral(a), Term::StringLiteral(b)) => a.same(b),
            (
                Term::LangStringLiteral { value: a, language: l },
                Term::LangStringLiteral { value: b, language: m },
            ) => a.same(b) && l.same(m),
            (
                Term::OtherTypedLiteral { value: a, datatype: d },
                Term::OtherTypedLiteral { value: b, datatype: e },
            ) => a.same(b) && d.same(e),
            (Term::NativeLiteral(a), Term::NativeLiteral(b)) => *a == *b,
            _ => false,
        }
    }

    pub fn duplicate(&self) -> (term: Self)
        ensures
            term@ == self@,
    {
        match self {
            Term::NamedNode(node) => Term::NamedNode(node.duplicate()),
            Term::BlankNode(node) => Term::BlankNode(node.duplicate()),
            Term::StringLiteral(value) => Term::StringLiteral(value.duplicate()),
            Term::LangStringLiteral { value, language } => Term::LangStringLiteral {
                value: value.duplicate(),
                language: language.duplicate(),
            },
            Term::OtherTypedLiteral { value, datatype } => Term::OtherTypedLiteral {
                value: value.duplicate(),
                datatype: datatype.duplicate(),
            },
            Term::NativeLiteral(value) => Term::NativeLiteral(*value),
        }
    }

    /// Appends the words that stand for the term when it is hashed.
    pub fn push_words(&self, words: &mut Vec<u64>)
        ensures
            final(words)@ == old(words)@ + term_words(self@),
    {
        let ghost before = words@;
        match self {
            Term::NamedNode(node) => {
                words.push(0);
                node.iri.push_words(words);
            },
            Term::BlankNode(node) => {
                words.push(1);
                let mut node_words = node.to_words();
                words.append(&mut node_words);
            },
            Term::StringLiteral(value) => {
                words.push(2);
                value.push_words(words);
            },
            Term::LangStringLiteral { value, language } => {
                words.push(3);
                value.push_words(words);
                language.push_words(words);
            },
            Term::OtherTypedLiteral { value, datatype } => {
                words.push(4);
                value.push_words(words);
                datatype.iri.push_words(words);
            },
            Term::NativeLiteral(value) => {
                words.push(5);
                push_native(words, *value);
            },
        }
        assert(words@ =~= before + term_words(self@));
    }
}

/// A term that can name a graph or stand as a subject.
pub enum NamedOrBlankNode {
    NamedNode(NamedNode),
    BlankNode(BlankNode),
}

impl View for NamedOrBlankNode {
    type V = TermView;

    open spec fn view(&self) -> TermView {
        match self {
            NamedOrBlankNode::NamedNode(node) => TermView::NamedNode(node@),
            NamedOrBlankNode::BlankNode(node) => TermView::BlankNode(node@),
        }
    }
}

impl NamedOrBlankNode {
    pub fn into_term(self) -> (term: Term)
        ensures
            term@ == self@,
    {
        match self {
            NamedOrBlankNode::NamedNode(node) => Term::NamedNode(node),
            NamedOrBlankNode::BlankNode(node) => Term::BlankNode(node),
        }
    }

    pub fn duplicate(&self) -> (node: Self)
        ensures
            node@ == self@,
    {
        match self {
            NamedOrBlankNode::NamedNode(node) => NamedOrBlankNode::NamedNode(node.duplicate()),
            NamedOrBlankNode::BlankNode(node) => NamedOrBlankNode::BlankNode(node.duplicate()),
        }
    }

    pub fn same(&self, other: &Self) -> (result: bool)
        ensures
            result == (self@ == other@),
    {
        match (self, other) {
            (NamedOrBlankNode::NamedNode(a), NamedOrBlankNode::NamedNode(b)) => a.same(b),
            (NamedOrBlankNode::BlankNode(a), NamedOrBlankNode::BlankNode(b)) => a.same(b),
            _ => false,
        }
    }
}

/// The name of a graph of a dataset.
pub enum GraphName {
    Node(NamedOrBlankNode),
    DefaultGraph,
}

impl View for GraphName {
    type V = Option<TermView>;

    /// `None` for the default graph.
    open spec fn view(&self) -> Option<TermView> {
        match self {
            GraphName::Node(node) => Some(node@),
            GraphName::DefaultGraph => None,
        }
    }
}

/// An RDF triple.
pub struct Triple {
    pub subject: NamedOrBlankNode,
    pub predicate: NamedNode,
    pub object: Term,
}

pub struct TripleView {
    pub subject: TermView,
    pub predicate: Seq<u8>,
    pub object: TermView,
}

impl View for Triple {
    type V = TripleView;

    open spec fn view(&self) -> TripleView {
        TripleView { subject: self.subject@, predicate: self.predicate@, object: self.object@ }
    }
}

impl FxKey for Triple {
    type Model = TripleView;

    open spec fn model(&self) -> TripleView {
        self@
    }

    open spec fn words(model: TripleView) -> Seq<u64> {
        term_words(model.subject) + text_words(model.predicate) + term_words(model.object)
    }

    fn same(&self, other: &Self) -> (result: bool) {
        self.subject.same(&other.subject) && self.predicate.same(&other.predicate)
            && self.object.same(&other.object)
    }

    fn duplicate(&self) -> (result: Self) {
        Triple {
            subject: self.subject.duplicate(),
            predicate: self.predicate.duplicate(),
            object: self.object.duplicate(),
        }
    }

    fn to_words(&self) -> (words: Vec<u64>) {
        let mut words: Vec<u64> = Vec::new();
        self.subject.duplicate().into_term().push_words(&mut words);
        self.predicate.iri.push_words(&mut words);
        self.object.push_words(&mut words);
        assert(words@ =~= Self::words(self@));
        words
    }
}

/// An RDF quad: a triple in a graph.
pub struct Quad {
    pub subject: NamedOrBlankNode,
    pub predicate: NamedNode,
    pub object: Term,
    pub graph_name: GraphName,
}

/// The names of variables are those of the variables, one for one.
pub proof fn law_names_are_those_of_the_variables(variables: Seq<Variable>)
    ensures
        names(variables).len() == variables.len(),
        forall|i: int| 0 <= i < variables.len() ==> (#[trigger] names(variables)[i]) == variables[i]@,
{
}

} // verus!
