use oxlive::dataset::DatasetView;
use oxlive::error::{CorruptionError, StorageError};
use oxlive::model::{
    BlankNode, GraphName, NamedNode, NamedOrBlankNode, NativeLiteral, Quad, Term, Text, Timestamp,
};
use oxlive::numeric_encoder::{
    quad_strings, EncodedQuad, EncodedStr, EncodedTerm, SmallString, StrHash,
};
use oxlive::storage::Storage;

const LONG: &str = "a string that is longer than fifteen bytes";

fn text(value: &str) -> Text {
    Text::new(value.as_bytes().to_vec())
}

fn node(iri: &str) -> NamedNode {
    NamedNode { iri: text(iri) }
}

fn some_terms() -> Vec<Term> {
    let moment = Timestamp { value: 63_000_000_000_000_000_000_000_000_000, timezone_offset: None };
    let zoned = Timestamp { value: -5, timezone_offset: Some(-90) };
    vec![
        Term::NamedNode(node("http://example.com/s")),
        Term::BlankNode(BlankNode::Anonymous(17)),
        Term::BlankNode(BlankNode::Named(text("b"))),
        Term::BlankNode(BlankNode::Named(text(LONG))),
        Term::StringLiteral(text("")),
        Term::StringLiteral(text("fifteen bytes !")),
        Term::StringLiteral(text("sixteen bytes ! ")),
        Term::StringLiteral(text(LONG)),
        Term::LangStringLiteral { value: text("Haus"), language: text("de") },
        Term::LangStringLiteral { value: text(LONG), language: text("en-a-very-long-tag") },
        Term::OtherTypedLiteral { value: text("x"), datatype: node("http://example.com/type") },
        Term::OtherTypedLiteral { value: text(LONG), datatype: node("http://example.com/type") },
        Term::NativeLiteral(NativeLiteral::Boolean(true)),
        Term::NativeLiteral(NativeLiteral::Boolean(false)),
        Term::NativeLiteral(NativeLiteral::Float(1.5f32.to_bits())),
        Term::NativeLiteral(NativeLiteral::Double((-0.25f64).to_bits())),
        Term::NativeLiteral(NativeLiteral::Integer(-3)),
        Term::NativeLiteral(NativeLiteral::Decimal(1_500_000_000_000_000_000)),
        Term::NativeLiteral(NativeLiteral::DateTime(moment)),
        Term::NativeLiteral(NativeLiteral::Time(zoned)),
        Term::NativeLiteral(NativeLiteral::Date(moment)),
        Term::NativeLiteral(NativeLiteral::GYearMonth(zoned)),
        Term::NativeLiteral(NativeLiteral::GYear(moment)),
        Term::NativeLiteral(NativeLiteral::GMonthDay(zoned)),
        Term::NativeLiteral(NativeLiteral::GDay(moment)),
        Term::NativeLiteral(NativeLiteral::GMonth(zoned)),
        Term::NativeLiteral(NativeLiteral::Duration { months: 2, seconds: -4 }),
        Term::NativeLiteral(NativeLiteral::YearMonthDuration(12)),
        Term::NativeLiteral(NativeLiteral::DayTimeDuration(-60)),
    ]
}

#[test]
fn short_strings_are_packed_behind_a_leading_one() {
    assert_eq!(SmallString::try_new(&text("")).unwrap().packed, 1);
    assert_eq!(SmallString::try_new(&text("A")).unwrap().packed, 256 + 65);
    assert_eq!(SmallString::try_new(&text("AB")).unwrap().packed, (256 + 65) * 256 + 66);
    assert!(SmallString::try_new(&text("")).unwrap().is_empty());
    assert!(!SmallString::try_new(&text("A")).unwrap().is_empty());
}

#[test]
fn strings_of_up_to_fifteen_bytes_are_short() {
    let longest = SmallString::try_new(&text("fifteen bytes !")).unwrap();
    assert!(longest.to_text().same(&text("fifteen bytes !")));
    assert!(SmallString::try_new(&text("sixteen bytes ! ")).is_none());
    assert_eq!(EncodedStr::new(&text("sixteen bytes ! ")), EncodedStr::Big(StrHash::new(&text("sixteen bytes ! "))));
}

#[test]
fn bytes_of_any_value_can_be_packed() {
    let bytes: Vec<u8> = vec![0, 255, 0, 128];
    let small = SmallString::try_new(&Text::new(bytes.clone())).unwrap();
    assert_eq!(small.to_text().bytes, bytes);
}

#[test]
fn native_values_are_read_back_as_they_were() {
    for term in some_terms() {
        if let Term::NativeLiteral(value) = term {
            assert_eq!(EncodedTerm::from_native(value).to_native(), Some(value));
        }
    }
    assert_eq!(EncodedTerm::DefaultGraph.to_native(), None);
}

#[test]
fn different_terms_are_encoded_differently() {
    let terms = some_terms();
    for (i, a) in terms.iter().enumerate() {
        for (j, b) in terms.iter().enumerate() {
            assert_eq!(a.same(b), i == j);
            assert_eq!(EncodedTerm::from_term(a) == EncodedTerm::from_term(b), i == j);
        }
        assert!(!EncodedTerm::from_term(a).is_default_graph());
        assert!(a.duplicate().same(a));
    }
    assert!(EncodedTerm::from_graph_name(&GraphName::DefaultGraph).is_default_graph());
}

#[test]
fn the_words_of_different_terms_differ() {
    let terms = some_terms();
    for (i, a) in terms.iter().enumerate() {
        for (j, b) in terms.iter().enumerate() {
            let mut first: Vec<u64> = vec![];
            let mut second: Vec<u64> = vec![];
            a.push_words(&mut first);
            b.push_words(&mut second);
            assert_eq!(first == second, i == j);
        }
    }
}

#[test]
fn a_view_reads_back_the_terms_that_it_encodes() {
    let storage = Storage::new().unwrap();
    let mut view = DatasetView::new(storage.snapshot());
    for term in some_terms() {
        let encoded = view.internalize_term(term.duplicate()).unwrap();
        assert_eq!(encoded, EncodedTerm::from_term(&term));
        assert!(view.externalize_term(&storage, encoded).unwrap().same(&term));
        assert!(view.decode_term(&storage, &encoded).unwrap().same(&term));
        assert!(view.externalize_expression_term(&storage, encoded).unwrap().same(&term));
        let again = view.internalize_expression_term(term.duplicate()).unwrap();
        assert_eq!(again, encoded);
    }
}

#[test]
fn a_term_with_an_unknown_string_cannot_be_read() {
    let storage = Storage::new().unwrap();
    let view = DatasetView::new(storage.snapshot());
    let term = Term::NamedNode(node("http://example.com/unknown"));
    let hash = StrHash::new(&text("http://example.com/unknown"));
    let encoded = EncodedTerm::from_term(&term);
    assert_eq!(
        view.externalize_term(&storage, encoded).err(),
        Some(StorageError::Corruption(CorruptionError::MissingString(hash))),
    );
    assert_eq!(
        view.externalize_term(&storage, EncodedTerm::DefaultGraph).err(),
        Some(StorageError::Corruption(CorruptionError::UnexpectedDefaultGraph)),
    );
    let small = EncodedTerm::from_term(&Term::StringLiteral(text("short")));
    assert!(view.externalize_term(&storage, small).unwrap().same(&Term::StringLiteral(text("short"))));
}

#[test]
fn a_string_that_is_brought_along_is_kept() {
    let storage = Storage::new().unwrap();
    let mut view = DatasetView::new(storage.snapshot());
    let key = StrHash { hash: 99 };
    assert!(view.get_str(&storage, &key).unwrap().is_none());
    view.insert_str(&key, text("first"));
    view.insert_str(&key, text("second"));
    assert!(view.get_str(&storage, &key).unwrap().unwrap().same(&text("first")));
}

#[test]
fn effective_boolean_values() {
    let storage = Storage::new().unwrap();
    let mut view = DatasetView::new(storage.snapshot());
    let cases: Vec<(Term, Option<bool>)> = vec![
        (Term::NativeLiteral(NativeLiteral::Boolean(true)), Some(true)),
        (Term::NativeLiteral(NativeLiteral::Boolean(false)), Some(false)),
        (Term::StringLiteral(text("")), Some(false)),
        (Term::StringLiteral(text("a")), Some(true)),
        (Term::StringLiteral(text(LONG)), Some(true)),
        (Term::NativeLiteral(NativeLiteral::Float(0f32.to_bits())), Some(false)),
        (Term::NativeLiteral(NativeLiteral::Float((-0f32).to_bits())), Some(false)),
        (Term::NativeLiteral(NativeLiteral::Float(f32::NAN.to_bits())), Some(false)),
        (Term::NativeLiteral(NativeLiteral::Float((-f32::NAN).to_bits())), Some(false)),
        (Term::NativeLiteral(NativeLiteral::Float(0.5f32.to_bits())), Some(true)),
        (Term::NativeLiteral(NativeLiteral::Float(f32::INFINITY.to_bits())), Some(true)),
        (Term::NativeLiteral(NativeLiteral::Double(0f64.to_bits())), Some(false)),
        (Term::NativeLiteral(NativeLiteral::Double((-0f64).to_bits())), Some(false)),
        (Term::NativeLiteral(NativeLiteral::Double(f64::NAN.to_bits())), Some(false)),
        (Term::NativeLiteral(NativeLiteral::Double((-1f64).to_bits())), Some(true)),
        (Term::NativeLiteral(NativeLiteral::Double(f64::MIN_POSITIVE.to_bits())), Some(true)),
        (Term::NativeLiteral(NativeLiteral::Double(f64::NEG_INFINITY.to_bits())), Some(true)),
        (Term::NativeLiteral(NativeLiteral::Integer(0)), Some(false)),
        (Term::NativeLiteral(NativeLiteral::Integer(-1)), Some(true)),
        (Term::NativeLiteral(NativeLiteral::Decimal(0)), Some(false)),
        (Term::NativeLiteral(NativeLiteral::Decimal(1)), Some(true)),
        (Term::NamedNode(node("http://example.com/s")), None),
        (Term::LangStringLiteral { value: text("a"), language: text("en") }, None),
        (Term::NativeLiteral(NativeLiteral::YearMonthDuration(1)), None),
    ];
    for (term, expected) in cases {
        let encoded = view.internalize_term(term).unwrap();
        assert_eq!(view.internal_term_effective_boolean_value(encoded), Ok(expected));
    }
}

#[test]
fn a_quad_is_encoded_position_by_position() {
    let quad = Quad {
        subject: NamedOrBlankNode::NamedNode(node("http://example.com/s")),
        predicate: node("http://example.com/p"),
        object: Term::StringLiteral(text("o")),
        graph_name: GraphName::Node(NamedOrBlankNode::BlankNode(BlankNode::Anonymous(3))),
    };
    let encoded = EncodedQuad::from_quad(&quad);
    let subject = EncodedTerm::NamedNode { iri_id: StrHash::new(&text("http://example.com/s")) };
    assert_eq!(encoded.subject, subject);
    assert_eq!(encoded.subject, EncodedTerm::from_node(&quad.subject));
    assert_eq!(encoded.predicate, EncodedTerm::from_named_node(&quad.predicate));
    assert_eq!(encoded.object, EncodedTerm::SmallStringLiteral(SmallString { packed: 256 + 111 }));
    assert_eq!(encoded.graph_name, EncodedTerm::NumericalBlankNode { id: 3 });
    assert_eq!(encoded.triple().subject, subject);
    assert_eq!(encoded.triple().object, encoded.object);
    let strings = quad_strings(&quad);
    let expected: Vec<&str> = vec!["http://example.com/s", "http://example.com/p"];
    assert_eq!(strings.len(), 2);
    for (entry, string) in strings.iter().zip(expected) {
        assert_eq!(entry.0, StrHash::new(&text(string)));
        assert!(entry.1.same(&text(string)));
    }
}

#[test]
fn the_strings_of_a_term_are_those_that_are_hashed() {
    let datatype = StrHash::new(&text("http://example.com/type"));
    let short = Term::OtherTypedLiteral { value: text("x"), datatype: node("http://example.com/type") };
    assert_eq!(EncodedTerm::from_term(&short).to_string_ids(), vec![datatype]);
    let long = Term::OtherTypedLiteral { value: text(LONG), datatype: node("http://example.com/type") };
    assert_eq!(EncodedTerm::from_term(&long).to_string_ids(), vec![StrHash::new(&text(LONG)), datatype]);
    let native = Term::NativeLiteral(NativeLiteral::Integer(1));
    assert!(EncodedTerm::from_term(&native).to_string_ids().is_empty());
}
