use oxlive::dataset::DatasetView;
use oxlive::delta::{DeltaKind, StreamingItem};
use oxlive::error::QueryEvaluationError;
use oxlive::eval_dataset::{EvalDataset, QueryDatasetSpecification};
use oxlive::graphs::DeduplicatingDefaultGraphIterator;
use oxlive::model::{GraphName, NamedNode, NamedOrBlankNode, Quad, Term, Text};
use oxlive::numeric_encoder::EncodedTerm;
use oxlive::operators::QuadPatternOperator;
use oxlive::quad_stream::{QuadDeltas, QuadShape};
use oxlive::source::{InternalQuad, LiveQuadDeltaSource};
use oxlive::storage::Storage;
use oxlive::streams::{QuadItem, RoundRobinStreamingIterator};
use oxlive::tuple::{InternalTuple, TupleSelector};

fn node(name: &str) -> NamedNode {
    NamedNode { iri: Text::new(format!("http://example.com/{name}").into_bytes()) }
}

fn term(name: &str) -> EncodedTerm {
    EncodedTerm::from_named_node(&node(name))
}

fn quad(object: &str, graph_name: &str) -> Quad {
    Quad {
        subject: NamedOrBlankNode::NamedNode(node("s")),
        predicate: node("p"),
        object: Term::NamedNode(node(object)),
        graph_name: if graph_name.is_empty() {
            GraphName::DefaultGraph
        } else {
            GraphName::Node(NamedOrBlankNode::NamedNode(node(graph_name)))
        },
    }
}

fn insert(storage: &mut Storage, quad: Quad) {
    let mut transaction = storage.start_transaction().unwrap();
    transaction.insert(quad);
    assert!(transaction.commit(storage, || Ok(())).is_ok());
}

fn remove(storage: &mut Storage, quad: &Quad) {
    let mut transaction = storage.start_transaction().unwrap();
    transaction.remove(quad);
    assert!(transaction.commit(storage, || Ok(())).is_ok());
}

fn source(storage: &mut Storage, graph_name: Option<Option<EncodedTerm>>) -> LiveQuadDeltaSource {
    let view = DatasetView::new(storage.snapshot());
    view.internal_quad_deltas_for_pattern(storage, None, None, None, graph_name, 0)
}

fn change(item: QuadItem) -> (DeltaKind, InternalQuad) {
    match item {
        Some(Ok(StreamingItem::Item(change))) => change.into_parts(),
        _ => panic!("a change is handed out"),
    }
}

fn is_pending(item: QuadItem) -> bool {
    matches!(item, Some(Ok(StreamingItem::Pending)))
}

#[test]
fn the_sources_of_a_round_take_turns() {
    let mut storage = Storage::new().unwrap();
    insert(&mut storage, quad("a", "g"));
    insert(&mut storage, quad("b", "g"));
    insert(&mut storage, quad("c", "h"));
    let sources = vec![
        source(&mut storage, Some(Some(term("g")))),
        source(&mut storage, Some(Some(term("h")))),
    ];
    let mut iterator = RoundRobinStreamingIterator::new(sources);
    let graphs: Vec<Option<EncodedTerm>> =
        (0..3).map(|_| change(iterator.next(true)).1.graph_name).collect();
    assert_eq!(graphs, vec![Some(term("g")), Some(term("h")), Some(term("g"))]);
    assert!(is_pending(iterator.next(true)));
    insert(&mut storage, quad("d", "h"));
    assert!(is_pending(iterator.next(true)));
    iterator.refill(&mut storage);
    let (kind, found) = change(iterator.next(true));
    assert_eq!(kind, DeltaKind::Addition);
    assert_eq!(found.object, term("d"));
    assert!(matches!(iterator.next(false), Some(Err(QueryEvaluationError::Cancelled))));
    iterator.close(&mut storage);
}

#[test]
fn no_sources_end_at_once() {
    let mut iterator = RoundRobinStreamingIterator::new(vec![]);
    assert!(iterator.next(true).is_none());
    assert!(iterator.next(false).is_none());
}

#[test]
fn a_triple_of_merged_graphs_comes_and_goes_once() {
    let mut storage = Storage::new().unwrap();
    insert(&mut storage, quad("a", "g"));
    insert(&mut storage, quad("a", "h"));
    let all = RoundRobinStreamingIterator::new(vec![source(&mut storage, None)]);
    let mut merged = DeduplicatingDefaultGraphIterator::new(all);
    let (kind, found) = change(merged.next(true));
    assert_eq!(kind, DeltaKind::Addition);
    assert_eq!(found.graph_name, None);
    assert!(is_pending(merged.next(true)));
    remove(&mut storage, &quad("a", "g"));
    merged.refill(&mut storage);
    assert!(is_pending(merged.next(true)));
    remove(&mut storage, &quad("a", "h"));
    merged.refill(&mut storage);
    let (kind, found) = change(merged.next(true));
    assert_eq!(kind, DeltaKind::Deletion);
    assert_eq!(found.graph_name, None);
    merged.close(&mut storage);
}

#[test]
fn quads_take_the_shape_that_is_asked_for() {
    let mut storage = Storage::new().unwrap();
    insert(&mut storage, quad("a", ""));
    insert(&mut storage, quad("b", "g"));
    let mut named = QuadDeltas::new(vec![source(&mut storage, None)], QuadShape::NamedGraphs);
    assert_eq!(change(named.next(true)).1.graph_name, Some(term("g")));
    assert!(is_pending(named.next(true)));
    let one = source(&mut storage, Some(Some(term("g"))));
    let mut default = QuadDeltas::new(vec![one], QuadShape::DefaultGraph);
    let found = change(default.next(true)).1;
    assert_eq!((found.object, found.graph_name), (term("b"), None));
    assert!(is_pending(default.next(true)));
}

#[test]
fn a_dataset_reads_the_graphs_of_a_query() {
    let mut storage = Storage::new().unwrap();
    insert(&mut storage, quad("a", "g"));
    insert(&mut storage, quad("b", "h"));
    let specification = QueryDatasetSpecification {
        default: Some(vec![GraphName::Node(NamedOrBlankNode::NamedNode(node("g")))]),
        named: None,
    };
    let view = DatasetView::new(storage.snapshot());
    let dataset = EvalDataset::new(view, specification).ok().unwrap();
    let mut quads =
        dataset.internal_quad_deltas_for_pattern(&mut storage, None, None, None, Some(None), 0);
    let found = change(quads.next(true)).1;
    assert_eq!((found.object, found.graph_name), (term("a"), None));
    assert!(is_pending(quads.next(true)));
    quads.close(&mut storage);
}

#[test]
fn a_graph_without_a_name_cannot_be_asked_for_its_name() {
    let mut storage = Storage::new().unwrap();
    insert(&mut storage, quad("a", ""));
    let quads = QuadDeltas::new(vec![source(&mut storage, None)], QuadShape::Plain);
    let mut operator = QuadPatternOperator::new(
        quads,
        InternalTuple::new(),
        TupleSelector::Variable(0),
        TupleSelector::Constant(term("p")),
        TupleSelector::Variable(1),
        Some(TupleSelector::Variable(2)),
    );
    assert!(matches!(
        operator.next(true),
        Some(Err(QueryEvaluationError::UnexpectedDefaultGraph)),
    ));
    operator.close(&mut storage);
}

#[test]
fn quads_that_contradict_a_pattern_are_passed_over() {
    let mut storage = Storage::new().unwrap();
    insert(&mut storage, quad("a", ""));
    insert(&mut storage, quad("s", ""));
    let quads = QuadDeltas::new(vec![source(&mut storage, None)], QuadShape::Plain);
    let mut operator = QuadPatternOperator::new(
        quads,
        InternalTuple::new(),
        TupleSelector::Variable(0),
        TupleSelector::Constant(term("p")),
        TupleSelector::Variable(0),
        None,
    );
    match operator.next(true) {
        Some(Ok(StreamingItem::Item(change))) => {
            let (kind, row) = change.into_parts();
            assert_eq!(kind, DeltaKind::Addition);
            assert_eq!(row.get(0), Some(term("s")));
        }
        _ => panic!("a row is handed out"),
    }
    assert!(matches!(operator.next(true), Some(Ok(StreamingItem::Pending))));
    operator.refill(&mut storage);
    operator.close(&mut storage);
}
