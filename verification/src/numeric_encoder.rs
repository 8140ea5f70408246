//! Terms in the fixed-size form in which the store keeps and compares them.
//!
//! Long strings are replaced by a 128-bit hash; the store keeps a dictionary from these
//! hashes to the strings.

use crate::error::CorruptionError;
use crate::fx::FxKey;
use crate::model::{
    native_words, push_native, push_u128, u128_words, BlankNode, BlankNodeView, GraphName,
    NamedNode, NamedOrBlankNode, NativeLiteral, Quad, Term, TermView, Text, Timestamp,
};
use siphasher::sip128::SipHasher24;
use vstd::prelude::*;

verus! {

/// The key under which the dictionary keeps a string.
#[derive(Clone, Copy, PartialEq, Eq, Structural, Debug)]
pub struct StrHash {
    pub hash: u128,
}

/// The 128-bit SipHash-2-4 of a byte string, with both keys zero.
pub uninterp spec fn sip128(bytes: Seq<u8>) -> u128;

/// Calls `hash` of `siphasher::sip128::SipHasher24`, unkeyed, and puts the two halves of its
/// result together as numbers: the result is a function of
/// the bytes alone.
#[verifier::external_body]
fn sip_hash(bytes: &Vec<u8>) -> (hash: u128)
    ensures
        hash == sip128(bytes@),
{
    u128::from(SipHasher24::new().hash(bytes))
}

/// The dictionary key of a string.
pub open spec fn str_hash(text: Seq<u8>) -> StrHash {
    StrHash { hash: sip128(text) }
}

impl StrHash {
    pub fn new(value: &Text) -> (hash: Self)
        ensures
            hash == str_hash(value@),
    {
        StrHash { hash: sip_hash(&value.bytes) }
    }
}

impl FxKey for StrHash {
    type Model = StrHash;

    open spec fn model(&self) -> StrHash {
        *self
    }

    open spec fn words(model: StrHash) -> Seq<u64> {
        u128_words(model.hash)
    }

    fn same(&self, other: &Self) -> (result: bool) {
        *self == *other
    }

    fn duplicate(&self) -> (result: Self) {
        *self
    }

    fn to_words(&self) -> (words: Vec<u64>) {
        let mut words: Vec<u64> = Vec::new();
        push_u128(&mut words, self.hash);
        assert(words@ =~= Self::words(*self));
        words
    }
}

/// The longest string that is kept inline.
pub const SMALL_STRING_MAX: usize = 15;

/// A string of at most [`SMALL_STRING_MAX`] bytes, packed into a number.
#[derive(Clone, Copy, PartialEq, Eq, Structural, Debug)]
pub struct SmallString {
    pub packed: u128,
}

/// The number whose digits to the base 256 are a leading one and the bytes.
pub open spec fn packed(bytes: Seq<u8>) -> nat
    decreases bytes.len(),
{
    if bytes.len() == 0 {
        1
    } else {
        packed(bytes.drop_last()) * 256 + bytes.last() as nat
    }
}

/// The bytes of a packed number.
pub open spec fn unpacked(value: nat) -> Seq<u8>
    decreases value,
{
    if value <= 1 {
        Seq::empty()
    } else {
        unpacked(value / 256).push((value % 256) as u8)
    }
}

pub open spec fn power_of_256(exponent: nat) -> nat
    decreases exponent,
{
    if exponent == 0 {
        1
    } else {
        256 * power_of_256((exponent - 1) as nat)
    }
}

proof fn lemma_packed_bounds(bytes: Seq<u8>)
    ensures
        1 <= packed(bytes) < 2 * power_of_256(bytes.len()),
        bytes.len() > 0 ==> packed(bytes) >= 256,
    decreases bytes.len(),
{
    if bytes.len() > 0 {
        lemma_packed_bounds(bytes.drop_last());
    }
}

proof fn lemma_power_monotonic(a: nat, b: nat)
    requires
        a <= b,
    ensures
        power_of_256(a) <= power_of_256(b),
    decreases b,
{
    if a < b {
        lemma_power_monotonic(a, (b - 1) as nat);
    }
}

proof fn lemma_power_limit()
    ensures
        2 * power_of_256(15) <= u128::MAX,
{
    reveal_with_fuel(power_of_256, 16);
}

/// Unpacking a packed string gives the string back.
pub proof fn law_unpack_of_pack(bytes: Seq<u8>)
    ensures
        unpacked(packed(bytes)) == bytes,
    decreases bytes.len(),
{
    if bytes.len() > 0 {
        lemma_packed_bounds(bytes);
        lemma_packed_bounds(bytes.drop_last());
        law_unpack_of_pack(bytes.drop_last());
        let front = packed(bytes.drop_last());
        let last = bytes.last() as nat;
        assert((front * 256 + last) / 256 == front);
        assert((front * 256 + last) % 256 == last);
        assert(bytes.drop_last().push(bytes.last()) =~= bytes);
    }
}

impl SmallString {
    /// The string, as bytes.
    pub open spec fn text(self) -> Seq<u8> {
        unpacked(self.packed as nat)
    }

    /// Packs a string that is short enough.
    pub fn try_new(value: &Text) -> (small: Option<Self>)
        ensures
            match small {
                Some(small) => value@.len() <= SMALL_STRING_MAX && small.packed == packed(value@)
                    && small.text() == value@,
                None => value@.len() > SMALL_STRING_MAX,
            },
    {
        if value.bytes.len() > SMALL_STRING_MAX {
            return None;
        }
        let mut number: u128 = 1;
        let mut next: usize = 0;
        while next < value.bytes.len()
            invariant
                next <= value@.len() <= 15,
                number == packed(value@.take(next as int)),
            decreases value@.len() - next,
        {
            proof {
                let longer = value@.take(next + 1);
                assert(longer.drop_last() =~= value@.take(next as int));
                lemma_packed_bounds(longer);
                lemma_power_monotonic(longer.len(), 15);
                lemma_power_limit();
            }
            number = number * 256 + value.bytes[next] as u128;
            next = next + 1;
        }
        proof {
            assert(value@.take(next as int) =~= value@);
            law_unpack_of_pack(value@);
        }
        Some(SmallString { packed: number })
    }

    pub fn is_empty(&self) -> (result: bool)
        ensures
            result == (self.text().len() == 0),
    {
        self.packed <= 1
    }

    pub fn to_text(&self) -> (text: Text)
        ensures
            text@ == self.text(),
    {
        Text { bytes: unpack(self.packed) }
    }
}

fn unpack(value: u128) -> (bytes: Vec<u8>)
    ensures
        bytes@ == unpacked(value as nat),
    decreases value,
{
    if value <= 1 {
        Vec::new()
    } else {
        let mut bytes = unpack(value / 256);
        bytes.push((value % 256) as u8);
        bytes
    }
}

/// A string as part of an encoded term: inline, or by its dictionary key.
#[derive(Clone, Copy, PartialEq, Eq, Structural, Debug)]
pub enum EncodedStr {
    Small(SmallString),
    Big(StrHash),
}

/// A term of fixed size. Floating-point numbers stand as their bits.
#[derive(Clone, Copy, PartialEq, Eq, Structural, Debug)]
pub enum EncodedTerm {
    DefaultGraph,
    NamedNode { iri_id: StrHash },
    NumericalBlankNode { id: u128 },
    SmallBlankNode(SmallString),
    BigBlankNode { id_id: StrHash },
    SmallStringLiteral(SmallString),
    BigStringLiteral { value_id: StrHash },
    LangStringLiteral { value: EncodedStr, language: EncodedStr },
    TypedLiteral { value: EncodedStr, datatype_id: StrHash },
    BooleanLiteral(bool),
    FloatLiteral(u32),
    DoubleLiteral(u64),
    IntegerLiteral(i64),
    DecimalLiteral(i128),
    DateTimeLiteral(Timestamp),
    TimeLiteral(Timestamp),
    DateLiteral(Timestamp),
    GYearMonthLiteral(Timestamp),
    GYearLiteral(Timestamp),
    GMonthDayLiteral(Timestamp),
    GDayLiteral(Timestamp),
    GMonthLiteral(Timestamp),
    DurationLiteral { months: i64, seconds: i128 },
    YearMonthDurationLiteral(i64),
    DayTimeDurationLiteral(i128),
}

/// The encoded form of a native value.
pub open spec fn encoded_native(value: NativeLiteral) -> EncodedTerm {
    match value {
        NativeLiteral::Boolean(v) => EncodedTerm::BooleanLiteral(v),
        NativeLiteral::Float(v) => EncodedTerm::FloatLiteral(v),
        NativeLiteral::Double(v) => EncodedTerm::DoubleLiteral(v),
        NativeLiteral::Integer(v) => EncodedTerm::IntegerLiteral(v),
        NativeLiteral::Decimal(v) => EncodedTerm::DecimalLiteral(v),
        NativeLiteral::DateTime(v) => EncodedTerm::DateTimeLiteral(v),
        NativeLiteral::Time(v) => EncodedTerm::TimeLiteral(v),
        NativeLiteral::Date(v) => EncodedTerm::DateLiteral(v),
        NativeLiteral::GYearMonth(v) => EncodedTerm::GYearMonthLiteral(v),
        NativeLiteral::GYear(v) => EncodedTerm::GYearLiteral(v),
        NativeLiteral::GMonthDay(v) => EncodedTerm::GMonthDayLiteral(v),
        NativeLiteral::GDay(v) => EncodedTerm::GDayLiteral(v),
        NativeLiteral::GMonth(v) => EncodedTerm::GMonthLiteral(v),
        NativeLiteral::Duration { months, seconds } => EncodedTerm::DurationLiteral {
            months,
            seconds,
        },
        NativeLiteral::YearMonthDuration(v) => EncodedTerm::YearMonthDurationLiteral(v),
        NativeLiteral::DayTimeDuration(v) => EncodedTerm::DayTimeDurationLiteral(v),
    }
}

/// The native value that a term encodes, if it encodes one.
pub open spec fn native_of(term: EncodedTerm) -> Option<NativeLiteral> {
    match term {
        EncodedTerm::BooleanLiteral(v) => Some(NativeLiteral::Boolean(v)),
        EncodedTerm::FloatLiteral(v) => Some(NativeLiteral::Float(v)),
        EncodedTerm::DoubleLiteral(v) => Some(NativeLiteral::Double(v)),
        EncodedTerm::IntegerLiteral(v) => Some(NativeLiteral::Integer(v)),
        EncodedTerm::DecimalLiteral(v) => Some(NativeLiteral::Decimal(v)),
        EncodedTerm::DateTimeLiteral(v) => Some(NativeLiteral::DateTime(v)),
        EncodedTerm::TimeLiteral(v) => Some(NativeLiteral::Time(v)),
        EncodedTerm::DateLiteral(v) => Some(NativeLiteral::Date(v)),
        EncodedTerm::GYearMonthLiteral(v) => Some(NativeLiteral::GYearMonth(v)),
        EncodedTerm::GYearLiteral(v) => Some(NativeLiteral::GYear(v)),
        EncodedTerm::GMonthDayLiteral(v) => Some(NativeLiteral::GMonthDay(v)),
        EncodedTerm::GDayLiteral(v) => Some(NativeLiteral::GDay(v)),
        EncodedTerm::GMonthLiteral(v) => Some(NativeLiteral::GMonth(v)),
        EncodedTerm::DurationLiteral { months, seconds } => Some(
            NativeLiteral::Duration { months, seconds },
        ),
        EncodedTerm::YearMonthDurationLiteral(v) => Some(NativeLiteral::YearMonthDuration(v)),
        EncodedTerm::DayTimeDurationLiteral(v) => Some(NativeLiteral::DayTimeDuration(v)),
        _ => None,
    }
}

/// How a string stands in an encoded term.
pub open spec fn encoded_str(text: Seq<u8>) -> EncodedStr {
    if text.len() <= SMALL_STRING_MAX {
        EncodedStr::Small(SmallString { packed: packed(text) as u128 })
    } else {
        EncodedStr::Big(str_hash(text))
    }
}

/// The encoded form of a term.
pub open spec fn encoded(term: TermView) -> EncodedTerm {
    match term {
        TermView::NamedNode(iri) => EncodedTerm::NamedNode { iri_id: str_hash(iri) },
        TermView::BlankNode(BlankNodeView::Anonymous(id)) => EncodedTerm::NumericalBlankNode { id },
        TermView::BlankNode(BlankNodeView::Named(label)) => match encoded_str(label) {
            EncodedStr::Small(small) => EncodedTerm::SmallBlankNode(small),
            EncodedStr::Big(id_id) => EncodedTerm::BigBlankNode { id_id },
        },
        TermView::StringLiteral(value) => match encoded_str(value) {
            EncodedStr::Small(small) => EncodedTerm::SmallStringLiteral(small),
            EncodedStr::Big(value_id) => EncodedTerm::BigStringLiteral { value_id },
        },
        TermView::LangStringLiteral { value, language } => EncodedTerm::LangStringLiteral {
            value: encoded_str(value),
            language: encoded_str(language),
        },
        TermView::OtherTypedLiteral { value, datatype } => EncodedTerm::TypedLiteral {
            value: encoded_str(value),
            datatype_id: str_hash(datatype),
        },
        TermView::NativeLiteral(value) => encoded_native(value),
    }
}

impl EncodedStr {
    pub fn new(value: &Text) -> (result: Self)
        ensures
            result == encoded_str(value@),
    {
        match SmallString::try_new(value) {
            Some(small) => EncodedStr::Small(small),
            None => EncodedStr::Big(StrHash::new(value)),
        }
    }
}

impl EncodedTerm {
    pub fn is_default_graph(&self) -> (result: bool)
        ensures
            result == (*self == EncodedTerm::DefaultGraph),
    {
        *self == EncodedTerm::DefaultGraph
    }

    pub fn from_term(term: &Term) -> (result: Self)
        ensures
            result == encoded(term@),
    {
        match term {
            Term::NamedNode(node) => EncodedTerm::NamedNode { iri_id: StrHash::new(&node.iri) },
            Term::BlankNode(BlankNode::Anonymous(id)) => EncodedTerm::NumericalBlankNode { id: *id },
            Term::BlankNode(BlankNode::Named(label)) => match EncodedStr::new(label) {
                EncodedStr::Small(small) => EncodedTerm::SmallBlankNode(small),
                EncodedStr::Big(id_id) => EncodedTerm::BigBlankNode { id_id },
            },
            Term::StringLiteral(value) => match EncodedStr::new(value) {
                EncodedStr::Small(small) => EncodedTerm::SmallStringLiteral(small),
                EncodedStr::Big(value_id) => EncodedTerm::BigStringLiteral { value_id },
            },
            Term::LangStringLiteral { value, language } => EncodedTerm::LangStringLiteral {
                value: EncodedStr::new(value),
                language: EncodedStr::new(language),
            },
            Term::OtherTypedLiteral { value, datatype } => EncodedTerm::TypedLiteral {
                value: EncodedStr::new(value),
                datatype_id: StrHash::new(&datatype.iri),
            },
            Term::NativeLiteral(value) => EncodedTerm::from_native(*value),
        }
    }

    pub fn from_native(value: NativeLiteral) -> (result: Self)
        ensures
            result == encoded_native(value),
    {
        match value {
            NativeLiteral::Boolean(v) => EncodedTerm::BooleanLiteral(v),
            NativeLiteral::Float(v) => EncodedTerm::FloatLiteral(v),
            NativeLiteral::Double(v) => EncodedTerm::DoubleLiteral(v),
            NativeLiteral::Integer(v) => EncodedTerm::IntegerLiteral(v),
            NativeLiteral::Decimal(v) => EncodedTerm::DecimalLiteral(v),
            NativeLiteral::DateTime(v) => EncodedTerm::DateTimeLiteral(v),
            NativeLiteral::Time(v) => EncodedTerm::TimeLiteral(v),
            NativeLiteral::Date(v) => EncodedTerm::DateLiteral(v),
            NativeLiteral::GYearMonth(v) => EncodedTerm::GYearMonthLiteral(v),
            NativeLiteral::GYear(v) => EncodedTerm::GYearLiteral(v),
            NativeLiteral::GMonthDay(v) => EncodedTerm::GMonthDayLiteral(v),
            NativeLiteral::GDay(v) => EncodedTerm::GDayLiteral(v),
            NativeLiteral::GMonth(v) => EncodedTerm::GMonthLiteral(v),
            NativeLiteral::Duration { months, seconds } => EncodedTerm::DurationLiteral {
                months,
                seconds,
            },
            NativeLiteral::YearMonthDuration(v) => EncodedTerm::YearMonthDurationLiteral(v),
            NativeLiteral::DayTimeDuration(v) => EncodedTerm::DayTimeDurationLiteral(v),
        }
    }

    /// The native value that the term encodes, if it encodes one.
    pub fn to_native(&self) -> (value: Option<NativeLiteral>)
        ensures
            value == native_of(*self),
    {
        match *self {
            EncodedTerm::BooleanLiteral(v) => Some(NativeLiteral::Boolean(v)),
            EncodedTerm::FloatLiteral(v) => Some(NativeLiteral::Float(v)),
            EncodedTerm::DoubleLiteral(v) => Some(NativeLiteral::Double(v)),
            EncodedTerm::IntegerLiteral(v) => Some(NativeLiteral::Integer(v)),
            EncodedTerm::DecimalLiteral(v) => Some(NativeLiteral::Decimal(v)),
            EncodedTerm::DateTimeLiteral(v) => Some(NativeLiteral::DateTime(v)),
            EncodedTerm::TimeLiteral(v) => Some(NativeLiteral::Time(v)),
            EncodedTerm::DateLiteral(v) => Some(NativeLiteral::Date(v)),
            EncodedTerm::GYearMonthLiteral(v) => Some(NativeLiteral::GYearMonth(v)),
            EncodedTerm::GYearLiteral(v) => Some(NativeLiteral::GYear(v)),
            EncodedTerm::GMonthDayLiteral(v) => Some(NativeLiteral::GMonthDay(v)),
            EncodedTerm::GDayLiteral(v) => Some(NativeLiteral::GDay(v)),
            EncodedTerm::GMonthLiteral(v) => Some(NativeLiteral::GMonth(v)),
            EncodedTerm::DurationLiteral { months, seconds } => Some(
                NativeLiteral::Duration { months, seconds },
            ),
            EncodedTerm::YearMonthDurationLiteral(v) => Some(NativeLiteral::YearMonthDuration(v)),
            EncodedTerm::DayTimeDurationLiteral(v) => Some(NativeLiteral::DayTimeDuration(v)),
            _ => None,
        }
    }
}

/// A native value is not changed by encoding it and reading it back.
pub proof fn law_native_round_trip(value: NativeLiteral)
    ensures
        native_of(encoded_native(value)) == Some(value),
{
}

pub open spec fn encoded_str_words(value: EncodedStr) -> Seq<u64> {
    match value {
        EncodedStr::Small(small) => seq![0u64] + u128_words(small.packed),
        EncodedStr::Big(id) => seq![1u64] + u128_words(id.hash),
    }
}

fn push_encoded_str(words: &mut Vec<u64>, value: EncodedStr)
    ensures
        final(words)@ == old(words)@ + encoded_str_words(value),
{
    let ghost before = words@;
    match value {
        EncodedStr::Small(small) => {
            words.push(0);
            push_u128(words, small.packed);
        },
        EncodedStr::Big(id) => {
            words.push(1);
            push_u128(words, id.hash);
        },
    }
    assert(words@ =~= before + encoded_str_words(value));
}

/// The kind of an encoded term and the words of its contents.
pub open spec fn encoded_words(term: EncodedTerm) -> Seq<u64> {
    match term {
        EncodedTerm::DefaultGraph => seq![0u64],
        EncodedTerm::NamedNode { iri_id } => seq![1u64] + u128_words(iri_id.hash),
        EncodedTerm::NumericalBlankNode { id } => seq![2u64] + u128_words(id),
        EncodedTerm::SmallBlankNode(small) => seq![3u64] + u128_words(small.packed),
        EncodedTerm::BigBlankNode { id_id } => seq![4u64] + u128_words(id_id.hash),
        EncodedTerm::SmallStringLiteral(small) => seq![5u64] + u128_words(small.packed),
        EncodedTerm::BigStringLiteral { value_id } => seq![6u64] + u128_words(value_id.hash),
        EncodedTerm::LangStringLiteral { value, language } => seq![7u64] + encoded_str_words(value)
            + encoded_str_words(language),
        EncodedTerm::TypedLiteral { value, datatype_id } => seq![8u64] + encoded_str_words(value)
            + u128_words(datatype_id.hash),
        _ => match native_of(term) {
            Some(native) => seq![9u64] + native_words(native),
            None => Seq::empty(),
        },
    }
}

impl EncodedTerm {
    /// Appends the words that stand for the term when it is hashed.
    pub fn push_words(&self, words: &mut Vec<u64>)
        ensures
            final(words)@ == old(words)@ + encoded_words(*self),
    {
        let ghost before = words@;
        match *self {
            EncodedTerm::DefaultGraph => {
                words.push(0);
            },
            EncodedTerm::NamedNode { iri_id } => {
                words.push(1);
                push_u128(words, iri_id.hash);
            },
            EncodedTerm::NumericalBlankNode { id } => {
                words.push(2);
                push_u128(words, id);
            },
            EncodedTerm::SmallBlankNode(small) => {
                words.push(3);
                push_u128(words, small.packed);
            },
            EncodedTerm::BigBlankNode { id_id } => {
                words.push(4);
                push_u128(words, id_id.hash);
            },
            EncodedTerm::SmallStringLiteral(small) => {
                words.push(5);
                push_u128(words, small.packed);
            },
            EncodedTerm::BigStringLiteral { value_id } => {
                words.push(6);
                push_u128(words, value_id.hash);
            },
            EncodedTerm::LangStringLiteral { value, language } => {
                words.push(7);
                push_encoded_str(words, value);
                push_encoded_str(words, language);
            },
            EncodedTerm::TypedLiteral { value, datatype_id } => {
                words.push(8);
                push_encoded_str(words, value);
                push_u128(words, datatype_id.hash);
            },
            _ => {
                if let Some(native) = self.to_native() {
                    words.push(9);
                    push_native(words, native);
                }
            },
        }
        assert(words@ =~= before + encoded_words(*self));
    }
}

impl FxKey for EncodedTerm {
    type Model = EncodedTerm;

    open spec fn model(&self) -> EncodedTerm {
        *self
    }

    open spec fn words(model: EncodedTerm) -> Seq<u64> {
        encoded_words(model)
    }

    fn same(&self, other: &Self) -> (result: bool) {
        *self == *other
    }

    fn duplicate(&self) -> (result: Self) {
        *self
    }

    fn to_words(&self) -> (words: Vec<u64>) {
        let mut words: Vec<u64> = Vec::new();
        self.push_words(&mut words);
        assert(words@ =~= Self::words(*self));
        words
    }
}

/// A quad of encoded terms; the default graph has a name of its own.
#[derive(Clone, Copy, PartialEq, Eq, Structural, Debug)]
pub struct EncodedQuad {
    pub subject: EncodedTerm,
    pub predicate: EncodedTerm,
    pub object: EncodedTerm,
    pub graph_name: EncodedTerm,
}

/// A triple of encoded terms.
#[derive(Clone, Copy, PartialEq, Eq, Structural, Debug)]
pub struct EncodedTriple {
    pub subject: EncodedTerm,
    pub predicate: EncodedTerm,
    pub object: EncodedTerm,
}

/// The triple of a quad.
pub open spec fn triple_of(quad: EncodedQuad) -> EncodedTriple {
    EncodedTriple { subject: quad.subject, predicate: quad.predicate, object: quad.object }
}

impl EncodedQuad {
    pub fn triple(&self) -> (triple: EncodedTriple)
        ensures
            triple == triple_of(*self),
    {
        EncodedTriple { subject: self.subject, predicate: self.predicate, object: self.object }
    }
}

impl FxKey for EncodedQuad {
    type Model = EncodedQuad;

    open spec fn model(&self) -> EncodedQuad {
        *self
    }

    open spec fn words(model: EncodedQuad) -> Seq<u64> {
        encoded_words(model.subject) + encoded_words(model.predicate) + encoded_words(model.object)
            + encoded_words(model.graph_name)
    }

    fn same(&self, other: &Self) -> (result: bool) {
        *self == *other
    }

    fn duplicate(&self) -> (result: Self) {
        *self
    }

    fn to_words(&self) -> (words: Vec<u64>) {
        let mut words: Vec<u64> = Vec::new();
        self.subject.push_words(&mut words);
        self.predicate.push_words(&mut words);
        self.object.push_words(&mut words);
        self.graph_name.push_words(&mut words);
        assert(words@ =~= Self::words(*self));
        words
    }
}

impl FxKey for EncodedTriple {
    type Model = EncodedTriple;

    open spec fn model(&self) -> EncodedTriple {
        *self
    }

    open spec fn words(model: EncodedTriple) -> Seq<u64> {
        encoded_words(model.subject) + encoded_words(model.predicate) + encoded_words(model.object)
    }

    fn same(&self, other: &Self) -> (result: bool) {
        *self == *other
    }

    fn duplicate(&self) -> (result: Self) {
        *self
    }

    fn to_words(&self) -> (words: Vec<u64>) {
        let mut words: Vec<u64> = Vec::new();
        self.subject.push_words(&mut words);
        self.predicate.push_words(&mut words);
        self.object.push_words(&mut words);
        assert(words@ =~= Self::words(*self));
        words
    }
}

/// The encoded form of a graph name.
pub open spec fn encoded_graph(name: Option<TermView>) -> EncodedTerm {
    match name {
        Some(node) => encoded(node),
        None => EncodedTerm::DefaultGraph,
    }
}

/// The encoded form of a quad.
pub open spec fn encoded_quad(quad: Quad) -> EncodedQuad {
    EncodedQuad {
        subject: encoded(quad.subject@),
        predicate: encoded(TermView::NamedNode(quad.predicate@)),
        object: encoded(quad.object@),
        graph_name: encoded_graph(quad.graph_name@),
    }
}

impl EncodedTerm {
    pub fn from_node(node: &NamedOrBlankNode) -> (result: Self)
        ensures
            result == encoded(node@),
            result != EncodedTerm::DefaultGraph,
    {
        EncodedTerm::from_term(&node.duplicate().into_term())
    }

    pub fn from_graph_name(graph_name: &GraphName) -> (result: Self)
        ensures
            result == encoded_graph(graph_name@),
    {
        match graph_name {
            GraphName::Node(node) => EncodedTerm::from_node(node),
            GraphName::DefaultGraph => EncodedTerm::DefaultGraph,
        }
    }

    pub fn from_named_node(node: &NamedNode) -> (result: Self)
        ensures
            result == encoded(TermView::NamedNode(node@)),
    {
        EncodedTerm::NamedNode { iri_id: StrHash::new(&node.iri) }
    }
}

impl EncodedQuad {
    pub fn from_quad(quad: &Quad) -> (result: Self)
        ensures
            result == encoded_quad(*quad),
    {
        EncodedQuad {
            subject: EncodedTerm::from_node(&quad.subject),
            predicate: EncodedTerm::from_named_node(&quad.predicate),
            object: EncodedTerm::from_term(&quad.object),
            graph_name: EncodedTerm::from_graph_name(&quad.graph_name),
        }
    }
}

/// The dictionary keys that a string refers to.
pub open spec fn str_ids(value: EncodedStr) -> Seq<StrHash> {
    match value {
        EncodedStr::Small(_) => Seq::empty(),
        EncodedStr::Big(id) => seq![id],
    }
}

/// The dictionary keys that a term refers to.
pub open spec fn string_ids(term: EncodedTerm) -> Seq<StrHash> {
    match term {
        EncodedTerm::NamedNode { iri_id } => seq![iri_id],
        EncodedTerm::BigBlankNode { id_id } => seq![id_id],
        EncodedTerm::BigStringLiteral { value_id } => seq![value_id],
        EncodedTerm::LangStringLiteral { value, language } => str_ids(value) + str_ids(language),
        EncodedTerm::TypedLiteral { value, datatype_id } => str_ids(value) + seq![datatype_id],
        _ => Seq::empty(),
    }
}

impl EncodedTerm {
    /// The dictionary keys that the term refers to.
    pub fn to_string_ids(&self) -> (ids: Vec<StrHash>)
        ensures
            ids@ == string_ids(*self),
    {
        let mut ids: Vec<StrHash> = Vec::new();
        match *self {
            EncodedTerm::NamedNode { iri_id } => {
                ids.push(iri_id);
            },
            EncodedTerm::BigBlankNode { id_id } => {
                ids.push(id_id);
            },
            EncodedTerm::BigStringLiteral { value_id } => {
                ids.push(value_id);
            },
            EncodedTerm::LangStringLiteral { value, language } => {
                if let EncodedStr::Big(id) = value {
                    ids.push(id);
                }
                if let EncodedStr::Big(id) = language {
                    ids.push(id);
                }
            },
            EncodedTerm::TypedLiteral { value, datatype_id } => {
                if let EncodedStr::Big(id) = value {
                    ids.push(id);
                }
                ids.push(datatype_id);
            },
            _ => {},
        }
        assert(ids@ =~= string_ids(*self));
        ids
    }
}

/// The dictionary entry that a string needs, if it is too long to be kept inline.
pub open spec fn str_entries(text: Seq<u8>) -> Seq<(StrHash, Seq<u8>)> {
    if text.len() <= SMALL_STRING_MAX {
        Seq::empty()
    } else {
        seq![(str_hash(text), text)]
    }
}

/// The dictionary entries that a term needs.
pub open spec fn term_entries(term: TermView) -> Seq<(StrHash, Seq<u8>)> {
    match term {
        TermView::NamedNode(iri) => seq![(str_hash(iri), iri)],
        TermView::BlankNode(BlankNodeView::Named(label)) => str_entries(label),
        TermView::BlankNode(BlankNodeView::Anonymous(_)) => Seq::empty(),
        TermView::StringLiteral(value) => str_entries(value),
        TermView::LangStringLiteral { value, language } => str_entries(value) + str_entries(
            language,
        ),
        TermView::OtherTypedLiteral { value, datatype } => str_entries(value) + seq![
            (str_hash(datatype), datatype),
        ],
        TermView::NativeLiteral(_) => Seq::empty(),
    }
}

/// The dictionary entries that a quad needs.
pub open spec fn quad_entries(quad: Quad) -> Seq<(StrHash, Seq<u8>)> {
    term_entries(quad.subject@) + term_entries(TermView::NamedNode(quad.predicate@))
        + term_entries(quad.object@) + match quad.graph_name@ {
        Some(name) => term_entries(name),
        None => Seq::empty(),
    }
}

/// The keys and contents of dictionary entries.
pub open spec fn entries(list: Seq<(StrHash, Text)>) -> Seq<(StrHash, Seq<u8>)> {
    list.map_values(|entry: (StrHash, Text)| (entry.0, entry.1@))
}

fn push_entry(list: &mut Vec<(StrHash, Text)>, text: &Text)
    ensures
        entries(final(list)@) == entries(old(list)@).push((str_hash(text@), text@)),
{
    list.push((StrHash::new(text), text.duplicate()));
    assert(entries(list@) =~= entries(old(list)@).push((str_hash(text@), text@)));
}

fn push_str_entries(list: &mut Vec<(StrHash, Text)>, text: &Text)
    ensures
        entries(final(list)@) == entries(old(list)@) + str_entries(text@),
{
    if text.bytes.len() > SMALL_STRING_MAX {
        push_entry(list, text);
    }
    assert(entries(list@) =~= entries(old(list)@) + str_entries(text@));
}

/// Appends the dictionary entries that a term needs.
pub fn insert_term(term: &Term, list: &mut Vec<(StrHash, Text)>)
    ensures
        entries(final(list)@) == entries(old(list)@) + term_entries(term@),
{
    match term {
        Term::NamedNode(node) => {
            push_entry(list, &node.iri);
        },
        Term::BlankNode(BlankNode::Named(label)) => {
            push_str_entries(list, label);
        },
        Term::BlankNode(BlankNode::Anonymous(_)) => {},
        Term::StringLiteral(value) => {
            push_str_entries(list, value);
        },
        Term::LangStringLiteral { value, language } => {
            push_str_entries(list, value);
            push_str_entries(list, language);
        },
        Term::OtherTypedLiteral { value, datatype } => {
            push_str_entries(list, value);
            push_entry(list, &datatype.iri);
        },
        Term::NativeLiteral(_) => {},
    }
    assert(entries(list@) =~= entries(old(list)@) + term_entries(term@));
}

/// The dictionary entries that a quad needs.
pub fn quad_strings(quad: &Quad) -> (list: Vec<(StrHash, Text)>)
    ensures
        entries(list@) == quad_entries(*quad),
{
    let mut list: Vec<(StrHash, Text)> = Vec::new();
    insert_term(&quad.subject.duplicate().into_term(), &mut list);
    push_entry(&mut list, &quad.predicate.iri);
    insert_term(&quad.object, &mut list);
    if let GraphName::Node(name) = &quad.graph_name {
        insert_term(&name.duplicate().into_term(), &mut list);
    }
    assert(entries(list@) =~= quad_entries(*quad));
    list
}

/// What a string of an encoded term stands for.
pub open spec fn decoded_str(
    value: EncodedStr,
    lookup: spec_fn(StrHash) -> Option<Seq<u8>>,
) -> Result<Seq<u8>, CorruptionError> {
    match value {
        EncodedStr::Small(small) => Ok(small.text()),
        EncodedStr::Big(id) => decoded_id(id, lookup),
    }
}

/// What a dictionary key stands for.
pub open spec fn decoded_id(
    id: StrHash,
    lookup: spec_fn(StrHash) -> Option<Seq<u8>>,
) -> Result<Seq<u8>, CorruptionError> {
    match lookup(id) {
        Some(text) => Ok(text),
        None => Err(CorruptionError::MissingString(id)),
    }
}

/// The term that an encoded term stands for.
pub open spec fn decoded(
    term: EncodedTerm,
    lookup: spec_fn(StrHash) -> Option<Seq<u8>>,
) -> Result<TermView, CorruptionError> {
    match term {
        EncodedTerm::DefaultGraph => Err(CorruptionError::UnexpectedDefaultGraph),
        EncodedTerm::NamedNode { iri_id } => match decoded_id(iri_id, lookup) {
            Ok(iri) => Ok(TermView::NamedNode(iri)),
            Err(error) => Err(error),
        },
        EncodedTerm::NumericalBlankNode { id } => Ok(
            TermView::BlankNode(BlankNodeView::Anonymous(id)),
        ),
        EncodedTerm::SmallBlankNode(small) => Ok(
            TermView::BlankNode(BlankNodeView::Named(small.text())),
        ),
        EncodedTerm::BigBlankNode { id_id } => match decoded_id(id_id, lookup) {
            Ok(label) => Ok(TermView::BlankNode(BlankNodeView::Named(label))),
            Err(error) => Err(error),
        },
        EncodedTerm::SmallStringLiteral(small) => Ok(TermView::StringLiteral(small.text())),
        EncodedTerm::BigStringLiteral { value_id } => match decoded_id(value_id, lookup) {
            Ok(value) => Ok(TermView::StringLiteral(value)),
            Err(error) => Err(error),
        },
        EncodedTerm::LangStringLiteral { value, language } => match decoded_str(value, lookup) {
            Ok(value) => match decoded_str(language, lookup) {
                Ok(language) => Ok(TermView::LangStringLiteral { value, language }),
                Err(error) => Err(error),
            },
            Err(error) => Err(error),
        },
        EncodedTerm::TypedLiteral { value, datatype_id } => match decoded_str(value, lookup) {
            Ok(value) => match decoded_id(datatype_id, lookup) {
                Ok(datatype) => Ok(TermView::OtherTypedLiteral { value, datatype }),
                Err(error) => Err(error),
            },
            Err(error) => Err(error),
        },
        _ => match native_of(term) {
            Some(native) => Ok(TermView::NativeLiteral(native)),
            None => Err(CorruptionError::UnexpectedDefaultGraph),
        },
    }
}

/// Whether a dictionary gives back every one of a list of entries.
pub open spec fn knows(
    lookup: spec_fn(StrHash) -> Option<Seq<u8>>,
    list: Seq<(StrHash, Seq<u8>)>,
) -> bool {
    forall|i: int| 0 <= i < list.len() ==> lookup((#[trigger] list[i]).0) == Some(list[i].1)
}

proof fn lemma_str_round_trip(text: Seq<u8>, lookup: spec_fn(StrHash) -> Option<Seq<u8>>)
    requires
        knows(lookup, str_entries(text)),
    ensures
        decoded_str(encoded_str(text), lookup) == Ok::<Seq<u8>, CorruptionError>(text),
{
    if text.len() <= SMALL_STRING_MAX {
        law_unpack_of_pack(text);
        lemma_packed_bounds(text);
        lemma_power_monotonic(text.len(), 15);
        lemma_power_limit();
    } else {
        assert(str_entries(text)[0] == (str_hash(text), text));
    }
}

/// A term is not changed by encoding it and reading it back through a dictionary that has
/// the strings of the term.
pub proof fn law_term_round_trip(term: TermView, lookup: spec_fn(StrHash) -> Option<Seq<u8>>)
    requires
        knows(lookup, term_entries(term)),
    ensures
        decoded(encoded(term), lookup) == Ok::<TermView, CorruptionError>(term),
{
    let list = term_entries(term);
    match term {
        TermView::NamedNode(iri) => {
            assert(list[0] == (str_hash(iri), iri));
        },
        TermView::BlankNode(BlankNodeView::Named(label)) => {
            lemma_str_round_trip(label, lookup);
        },
        TermView::BlankNode(BlankNodeView::Anonymous(_)) => {},
        TermView::StringLiteral(value) => {
            lemma_str_round_trip(value, lookup);
        },
        TermView::LangStringLiteral { value, language } => {
            assert forall|i: int| 0 <= i < str_entries(value).len() implies lookup(
                (#[trigger] str_entries(value)[i]).0,
            ) == Some(str_entries(value)[i].1) by {
                assert(list[i] == str_entries(value)[i]);
            }
            assert forall|i: int| 0 <= i < str_entries(language).len() implies lookup(
                (#[trigger] str_entries(language)[i]).0,
            ) == Some(str_entries(language)[i].1) by {
                assert(list[i + str_entries(value).len()] == str_entries(language)[i]);
            }
            lemma_str_round_trip(value, lookup);
            lemma_str_round_trip(language, lookup);
        },
        TermView::OtherTypedLiteral { value, datatype } => {
            assert forall|i: int| 0 <= i < str_entries(value).len() implies lookup(
                (#[trigger] str_entries(value)[i]).0,
            ) == Some(str_entries(value)[i].1) by {
                assert(list[i] == str_entries(value)[i]);
            }
            assert(list[str_entries(value).len() as int] == (str_hash(datatype), datatype));
            lemma_str_round_trip(value, lookup);
        },
        TermView::NativeLiteral(native) => {
            law_native_round_trip(native);
        },
    }
}

/// The terms of an encoded quad are those of the quad, each at its position: a dictionary that
/// has the strings of the quad gives each of them back.
pub proof fn law_quad_round_trip(quad: Quad, lookup: spec_fn(StrHash) -> Option<Seq<u8>>)
    requires
        knows(lookup, quad_entries(quad)),
    ensures
        decoded(encoded_quad(quad).subject, lookup) == Ok::<TermView, CorruptionError>(
            quad.subject@,
        ),
        decoded(encoded_quad(quad).predicate, lookup) == Ok::<TermView, CorruptionError>(
            TermView::NamedNode(quad.predicate@),
        ),
        decoded(encoded_quad(quad).object, lookup) == Ok::<TermView, CorruptionError>(quad.object@),
        match quad.graph_name@ {
            Some(name) => decoded(encoded_quad(quad).graph_name, lookup) == Ok::<
                TermView,
                CorruptionError,
            >(name),
            None => encoded_quad(quad).graph_name == EncodedTerm::DefaultGraph,
        },
{
    let a = term_entries(quad.subject@);
    let b = term_entries(TermView::NamedNode(quad.predicate@));
    let c = term_entries(quad.object@);
    let d = match quad.graph_name@ {
        Some(name) => term_entries(name),
        None => Seq::empty(),
    };
    let list = quad_entries(quad);
    assert(list =~= a + b + c + d);
    assert forall|i: int| 0 <= i < a.len() implies lookup((#[trigger] a[i]).0) == Some(a[i].1) by {
        assert(list[i] == a[i]);
    }
    assert forall|i: int| 0 <= i < b.len() implies lookup((#[trigger] b[i]).0) == Some(b[i].1) by {
        assert(list[a.len() + i] == b[i]);
    }
    assert forall|i: int| 0 <= i < c.len() implies lookup((#[trigger] c[i]).0) == Some(c[i].1) by {
        assert(list[a.len() + b.len() + i] == c[i]);
    }
    assert forall|i: int| 0 <= i < d.len() implies lookup((#[trigger] d[i]).0) == Some(d[i].1) by {
        assert(list[a.len() + b.len() + c.len() + i] == d[i]);
    }
    law_term_round_trip(quad.subject@, lookup);
    law_term_round_trip(TermView::NamedNode(quad.predicate@), lookup);
    law_term_round_trip(quad.object@, lookup);
    if let Some(name) = quad.graph_name@ {
        law_term_round_trip(name, lookup);
    }
}

/// An encoded term refers to exactly the dictionary entries that the term needs, in their
/// order, and each entry is filed under the hash of its string.
pub proof fn law_encoded_terms_refer_to_their_entries(term: TermView)
    ensures
        string_ids(encoded(term)).len() == term_entries(term).len(),
        forall|i: int|
            0 <= i < term_entries(term).len() ==> (#[trigger] term_entries(term)[i]).0
                == string_ids(encoded(term))[i] && term_entries(term)[i].0.hash == sip128(
                term_entries(term)[i].1,
            ),
{
}

/// A term can be decoded exactly where the dictionary has every string that it refers to,
/// unless it is the default graph.
pub proof fn law_terms_are_decoded_where_their_strings_are_known(
    term: EncodedTerm,
    lookup: spec_fn(StrHash) -> Option<Seq<u8>>,
)
    requires
        term != EncodedTerm::DefaultGraph,
    ensures
        decoded(term, lookup) is Ok <==> forall|i: int|
            0 <= i < string_ids(term).len() ==> lookup(#[trigger] string_ids(term)[i]) is Some,
        decoded(term, lookup) matches Err(error) ==> (error matches CorruptionError::MissingString(
            id,
        ) && string_ids(term).contains(id) && lookup(id) is None),
{
    let ids = string_ids(term);
    match term {
        EncodedTerm::NamedNode { iri_id } => {
            assert(ids[0] == iri_id);
        },
        EncodedTerm::BigBlankNode { id_id } => {
            assert(ids[0] == id_id);
        },
        EncodedTerm::BigStringLiteral { value_id } => {
            assert(ids[0] == value_id);
        },
        EncodedTerm::LangStringLiteral { value, language } => {
            if let EncodedStr::Big(id) = value {
                assert(ids[0] == id);
            }
            if let EncodedStr::Big(id) = language {
                assert(ids[ids.len() - 1] == id);
            }
        },
        EncodedTerm::TypedLiteral { value, datatype_id } => {
            if let EncodedStr::Big(id) = value {
                assert(ids[0] == id);
            }
            assert(ids[ids.len() - 1] == datatype_id);
        },
        _ => {},
    }
}

/// The triple of a quad has the terms of the quad in their places.
pub proof fn law_triples_of_quads_keep_their_terms(quad: EncodedQuad)
    ensures
        triple_of(quad).subject == quad.subject,
        triple_of(quad).predicate == quad.predicate,
        triple_of(quad).object == quad.object,
{
}

} // verus!
