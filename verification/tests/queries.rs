use oxlive::algebra::{JoinAlgorithm, NamedNodePattern, QueryExpression, TermPattern};
use oxlive::dataset::DatasetView;
use oxlive::delta::{Delta, DeltaKind, IncrementalDriverState, StreamingItem};
use oxlive::driver::IncrementalSelectDriver;
use oxlive::error::{
    CorruptionError, PatternForm, QueryEvaluationError, StorageError, UnsupportedPattern,
};
use oxlive::eval_dataset::{EvalDataset, QueryDatasetSpecification};
use oxlive::evaluator::{eval_node_label, SimpleIncrementalEvaluator};
use oxlive::model::{
    GraphName, NamedNode, NamedOrBlankNode, NativeLiteral, Quad, Term, Text, Variable,
};
use oxlive::notifier::{CancellationToken, ChangePoll, Waker};
use oxlive::numeric_encoder::EncodedTerm;
use oxlive::quad_stream::QuadShape;
use oxlive::solution::QuerySolution;
use oxlive::stats::NodeLabel;
use oxlive::storage::Storage;
use oxlive::table::QuadTable;
use oxlive::tuple::InternalTuple;
use std::sync::Arc;

fn text(value: &str) -> Text {
    Text::new(value.as_bytes().to_vec())
}

fn node(name: &str) -> NamedNode {
    NamedNode { iri: text(&format!("http://example.com/{name}")) }
}

fn graph(name: &str) -> GraphName {
    if name.is_empty() {
        GraphName::DefaultGraph
    } else {
        GraphName::Node(NamedOrBlankNode::NamedNode(node(name)))
    }
}

fn quad(subject: &str, predicate: &str, object: &str, graph_name: &str) -> Quad {
    Quad {
        subject: NamedOrBlankNode::NamedNode(node(subject)),
        predicate: node(predicate),
        object: Term::NamedNode(node(object)),
        graph_name: graph(graph_name),
    }
}

fn variable(name: &str) -> Variable {
    Variable { name: text(name) }
}

fn insert(storage: &mut Storage, quad: Quad) -> Vec<Waker> {
    let mut transaction = storage.start_transaction().unwrap();
    transaction.insert(quad);
    transaction.commit(storage, || Ok(())).ok().unwrap().wakers
}

fn remove(storage: &mut Storage, quad: &Quad) {
    let mut transaction = storage.start_transaction().unwrap();
    transaction.remove(quad);
    assert!(transaction.commit(storage, || Ok(())).is_ok());
}

/// A name with a question mark is a variable.
fn term_pattern(name: &str) -> TermPattern {
    match name.strip_prefix('?') {
        Some(name) => TermPattern::Variable(variable(name)),
        None => TermPattern::Term(Term::NamedNode(node(name))),
    }
}

fn node_pattern(name: &str) -> NamedNodePattern {
    match name.strip_prefix('?') {
        Some(name) => NamedNodePattern::Variable(variable(name)),
        None => NamedNodePattern::NamedNode(node(name)),
    }
}

fn pattern(subject: &str, predicate: &str, object: &str, graph_name: Option<&str>) -> QueryExpression {
    QueryExpression::QuadPattern {
        subject: term_pattern(subject),
        predicate: node_pattern(predicate),
        object: term_pattern(object),
        graph_name: graph_name.map(node_pattern),
    }
}

fn join(left: QueryExpression, right: QueryExpression, keys: Vec<&str>) -> QueryExpression {
    QueryExpression::Join {
        left: Box::new(left),
        right: Box::new(right),
        algorithm: JoinAlgorithm::HashBuildLeftProbeRight {
            keys: keys.into_iter().map(variable).collect(),
        },
    }
}

fn project(inner: QueryExpression, variables: Vec<&str>) -> QueryExpression {
    QueryExpression::Project {
        inner: Box::new(inner),
        variables: variables.into_iter().map(variable).collect(),
    }
}

fn whole_store() -> QueryDatasetSpecification {
    QueryDatasetSpecification { default: Some(vec![GraphName::DefaultGraph]), named: None }
}

fn evaluator(storage: &Storage, specification: QueryDatasetSpecification) -> SimpleIncrementalEvaluator {
    SimpleIncrementalEvaluator::new(DatasetView::new(storage.snapshot()), specification, false).ok().unwrap()
}

fn start(storage: &mut Storage, query: &QueryExpression) -> IncrementalSelectDriver {
    let evaluator = evaluator(storage, whole_store());
    evaluator.evaluate_select_driver(storage, query, &vec![]).0.ok().unwrap()
}

fn shown(solution: &QuerySolution) -> String {
    let mut parts: Vec<String> = vec![];
    for (variable, value) in solution.variables().iter().zip(solution.values()) {
        let name = String::from_utf8(variable.name.bytes.clone()).unwrap();
        if let Some(Term::NamedNode(node)) = value {
            let iri = String::from_utf8(node.iri.bytes.clone()).unwrap();
            parts.push(format!("{name}={}", iri.strip_prefix("http://example.com/").unwrap()));
        }
    }
    parts.join(" ")
}

fn changes(driver: &mut IncrementalSelectDriver, storage: &mut Storage) -> Vec<String> {
    let token = CancellationToken::new();
    let mut all: Vec<String> = vec![];
    match driver.drain_ready(storage, &token, None) {
        Ok(IncrementalDriverState::Item(batch)) => {
            for change in batch {
                let (kind, solution) = Delta::into_parts(change);
                let sign = if kind == DeltaKind::Addition { "+" } else { "-" };
                all.push(format!("{sign} {}", shown(&solution)));
            }
        }
        Ok(_) => {}
        Err(error) => panic!("unexpected {error:?}"),
    }
    all.sort();
    all
}

#[test]
fn a_pattern_is_answered_and_kept_up_to_date() {
    let mut storage = Storage::new().unwrap();
    insert(&mut storage, quad("a", "p", "b", ""));
    insert(&mut storage, quad("a", "q", "b", ""));
    insert(&mut storage, quad("a", "p", "hidden", "g"));
    let mut driver = start(&mut storage, &pattern("?s", "p", "?o", None));
    assert_eq!(changes(&mut driver, &mut storage), vec!["+ s=a o=b"]);
    assert_eq!(changes(&mut driver, &mut storage), Vec::<String>::new());
    insert(&mut storage, quad("c", "p", "d", ""));
    remove(&mut storage, &quad("a", "p", "b", ""));
    assert_eq!(changes(&mut driver, &mut storage), vec!["+ s=c o=d", "- s=a o=b"]);
    driver.close(&mut storage);
}

#[test]
fn given_rows_come_once_as_additions() {
    let mut storage = Storage::new().unwrap();
    let mut evaluator = evaluator(&storage, whole_store());
    let view = DatasetView::new(storage.snapshot());
    let dataset = EvalDataset::new(view, whole_store()).ok().unwrap();
    let number = |value: i64| Some(Term::NativeLiteral(NativeLiteral::Integer(value)));
    let query = project(
        QueryExpression::Values {
            variables: vec![variable("x"), variable("y")],
            bindings: vec![vec![number(1), number(2)], vec![number(1), number(3)]],
        },
        vec!["x"],
    );
    let mut variables = vec![variable("y"), variable("x")];
    let plan = evaluator.graph_pattern_evaluator(&query, &mut variables).0.ok().unwrap();
    assert_eq!(variables.len(), 2);
    let mut from = InternalTuple::new();
    let nine = EncodedTerm::from_term(&number(9).unwrap());
    let one = EncodedTerm::from_term(&number(1).unwrap());
    from.set(0, nine);
    let mut running = plan.start(&dataset, &mut storage, from, 0);
    for _ in 0..2 {
        match running.next(true) {
            Some(Ok(StreamingItem::Item(change))) => {
                let (kind, tuple) = change.into_parts();
                assert_eq!(kind, DeltaKind::Addition);
                assert_eq!((tuple.get(0), tuple.get(1)), (Some(nine), Some(one)));
            }
            _ => panic!("there is a row"),
        }
    }
    assert!(running.next(true).is_none());
    assert!(running.next(false).is_none());
}

#[test]
fn a_variable_that_occurs_twice_has_one_value() {
    let mut storage = Storage::new().unwrap();
    insert(&mut storage, quad("a", "p", "a", ""));
    insert(&mut storage, quad("a", "p", "b", ""));
    let mut driver = start(&mut storage, &pattern("?s", "?p", "?s", None));
    assert_eq!(changes(&mut driver, &mut storage), vec!["+ s=a p=p"]);
}

#[test]
fn a_join_follows_both_of_its_sides() {
    let keys: Vec<Vec<&str>> = vec![vec!["x"], vec![]];
    for keys in keys {
        let mut storage = Storage::new().unwrap();
        insert(&mut storage, quad("a", "p", "b", ""));
        let query = join(pattern("?s", "p", "?x", None), pattern("?x", "q", "?o", None), keys);
        let mut driver = start(&mut storage, &query);
        assert_eq!(changes(&mut driver, &mut storage), Vec::<String>::new());
        insert(&mut storage, quad("b", "q", "c", ""));
        insert(&mut storage, quad("b", "q", "d", ""));
        assert_eq!(changes(&mut driver, &mut storage), vec!["+ s=a x=b o=c", "+ s=a x=b o=d"]);
        insert(&mut storage, quad("e", "p", "b", ""));
        assert_eq!(changes(&mut driver, &mut storage), vec!["+ s=e x=b o=c", "+ s=e x=b o=d"]);
        remove(&mut storage, &quad("b", "q", "c", ""));
        assert_eq!(changes(&mut driver, &mut storage), vec!["- s=a x=b o=c", "- s=e x=b o=c"]);
        let mut transaction = storage.start_transaction().unwrap();
        transaction.clear_all_graphs();
        assert!(transaction.commit(&mut storage, || Ok(())).is_ok());
        assert_eq!(changes(&mut driver, &mut storage), vec!["- s=a x=b o=d", "- s=e x=b o=d"]);
    }
}

#[test]
fn a_change_and_its_reversal_cancel_out_in_a_join() {
    let mut storage = Storage::new().unwrap();
    let query = join(pattern("?s", "p", "?x", None), pattern("?x", "q", "?o", None), vec!["x"]);
    let mut driver = start(&mut storage, &query);
    insert(&mut storage, quad("a", "p", "b", ""));
    insert(&mut storage, quad("b", "q", "c", ""));
    remove(&mut storage, &quad("a", "p", "b", ""));
    let all = changes(&mut driver, &mut storage);
    let added = all.iter().filter(|change| change.starts_with('+')).count();
    let deleted = all.iter().filter(|change| change.starts_with('-')).count();
    assert_eq!(added, deleted);
}

#[test]
fn a_projection_keeps_its_variables() {
    let mut storage = Storage::new().unwrap();
    insert(&mut storage, quad("a", "p", "b", ""));
    insert(&mut storage, quad("a", "p", "c", ""));
    let mut driver = start(&mut storage, &project(pattern("?s", "p", "?o", None), vec!["s"]));
    assert_eq!(changes(&mut driver, &mut storage), vec!["+ s=a", "+ s=a"]);
    remove(&mut storage, &quad("a", "p", "c", ""));
    assert_eq!(changes(&mut driver, &mut storage), vec!["- s=a"]);
}

#[test]
fn given_rows_are_joined_with_what_is_stored() {
    let mut storage = Storage::new().unwrap();
    insert(&mut storage, quad("a", "p", "b", ""));
    insert(&mut storage, quad("c", "p", "d", ""));
    let rows = QueryExpression::Values {
        variables: vec![variable("s"), variable("z")],
        bindings: vec![
            vec![Some(Term::NamedNode(node("a"))), Some(Term::NamedNode(node("one")))],
            vec![Some(Term::NamedNode(node("x"))), None],
        ],
    };
    let mut driver = start(&mut storage, &join(rows, pattern("?s", "p", "?o", None), vec!["s"]));
    assert_eq!(changes(&mut driver, &mut storage), vec!["+ s=a z=one o=b"]);
    insert(&mut storage, quad("x", "p", "y", ""));
    assert_eq!(changes(&mut driver, &mut storage), vec!["+ s=x o=y"]);
}

#[test]
fn given_rows_alone_end() {
    let mut storage = Storage::new().unwrap();
    let rows = QueryExpression::Values {
        variables: vec![variable("s")],
        bindings: vec![vec![Some(Term::NamedNode(node("a")))], vec![None]],
    };
    let mut driver = start(&mut storage, &rows);
    assert_eq!(changes(&mut driver, &mut storage), vec!["+ ", "+ s=a"]);
    let token = CancellationToken::new();
    assert!(matches!(driver.poll_next(&mut storage, &token), Ok(IncrementalDriverState::Done)));
}

#[test]
fn named_graphs_are_asked_for_by_name() {
    let mut storage = Storage::new().unwrap();
    insert(&mut storage, quad("a", "p", "b", ""));
    insert(&mut storage, quad("a", "p", "c", "g"));
    let mut driver = start(&mut storage, &pattern("?s", "p", "?o", Some("?g")));
    assert_eq!(changes(&mut driver, &mut storage), vec!["+ s=a o=c g=g"]);
    insert(&mut storage, quad("a", "p", "d", "h"));
    insert(&mut storage, quad("a", "p", "e", ""));
    assert_eq!(changes(&mut driver, &mut storage), vec!["+ s=a o=d g=h"]);
    let mut driver = start(&mut storage, &pattern("?s", "p", "?o", Some("h")));
    assert_eq!(changes(&mut driver, &mut storage), vec!["+ s=a o=d"]);
}

#[test]
fn a_default_graph_of_two_graphs_has_each_triple_once() {
    let mut storage = Storage::new().unwrap();
    insert(&mut storage, quad("a", "p", "b", "g"));
    insert(&mut storage, quad("a", "p", "b", "h"));
    insert(&mut storage, quad("a", "p", "other", "k"));
    let specification = QueryDatasetSpecification {
        default: Some(vec![graph("g"), graph("h")]),
        named: Some(vec![NamedOrBlankNode::NamedNode(node("k"))]),
    };
    let evaluator = evaluator(&storage, specification);
    let query = pattern("?s", "p", "?o", None);
    let mut driver = evaluator.evaluate_select_driver(&mut storage, &query, &vec![]).0.ok().unwrap();
    assert_eq!(changes(&mut driver, &mut storage), vec!["+ s=a o=b"]);
    remove(&mut storage, &quad("a", "p", "b", "g"));
    assert_eq!(changes(&mut driver, &mut storage), Vec::<String>::new());
    remove(&mut storage, &quad("a", "p", "b", "h"));
    assert_eq!(changes(&mut driver, &mut storage), vec!["- s=a o=b"]);
    let query = pattern("?s", "p", "?o", Some("?g"));
    let mut driver = evaluator.evaluate_select_driver(&mut storage, &query, &vec![]).0.ok().unwrap();
    assert_eq!(changes(&mut driver, &mut storage), vec!["+ s=a o=other g=k"]);
    let query = pattern("?s", "p", "?o", Some("g"));
    let mut driver = evaluator.evaluate_select_driver(&mut storage, &query, &vec![]).0.ok().unwrap();
    assert_eq!(changes(&mut driver, &mut storage), Vec::<String>::new());
}

#[test]
fn without_a_specification_the_default_graph_is_the_union_of_all() {
    let mut storage = Storage::new().unwrap();
    insert(&mut storage, quad("a", "p", "b", ""));
    insert(&mut storage, quad("a", "p", "b", "g"));
    insert(&mut storage, quad("a", "p", "c", "h"));
    let evaluator = evaluator(&storage, QueryDatasetSpecification { default: None, named: None });
    let query = pattern("?s", "p", "?o", None);
    let mut driver = evaluator.evaluate_select_driver(&mut storage, &query, &vec![]).0.ok().unwrap();
    assert_eq!(changes(&mut driver, &mut storage), vec!["+ s=a o=b", "+ s=a o=c"]);
}

#[test]
fn the_graphs_to_read() {
    let storage = Storage::new().unwrap();
    let g = EncodedTerm::from_named_node(&node("g"));
    let h = EncodedTerm::from_named_node(&node("h"));
    let specification = QueryDatasetSpecification {
        default: Some(vec![graph("g")]),
        named: Some(vec![NamedOrBlankNode::NamedNode(node("h"))]),
    };
    let dataset = EvalDataset::new(DatasetView::new(storage.snapshot()), specification).ok().unwrap();
    assert_eq!(dataset.graphs_to_read(Some(None)), (vec![Some(Some(g))], QuadShape::DefaultGraph));
    assert_eq!(dataset.graphs_to_read(None), (vec![Some(Some(h))], QuadShape::Plain));
    assert_eq!(dataset.graphs_to_read(Some(Some(g))), (vec![], QuadShape::Plain));
    assert_eq!(dataset.graphs_to_read(Some(Some(h))), (vec![Some(Some(h))], QuadShape::Plain));
    let open = QueryDatasetSpecification { default: None, named: None };
    let dataset = EvalDataset::new(DatasetView::new(storage.snapshot()), open).ok().unwrap();
    assert_eq!(dataset.graphs_to_read(Some(None)), (vec![None], QuadShape::MergedGraphs));
    assert_eq!(dataset.graphs_to_read(None), (vec![None], QuadShape::NamedGraphs));
    assert_eq!(dataset.graphs_to_read(Some(Some(g))), (vec![Some(Some(g))], QuadShape::Plain));
}

#[test]
fn variables_can_be_given_their_values() {
    let mut storage = Storage::new().unwrap();
    insert(&mut storage, quad("a", "p", "b", ""));
    insert(&mut storage, quad("c", "p", "d", ""));
    let evaluator = evaluator(&storage, whole_store());
    let query = project(pattern("?s", "p", "?o", None), vec!["s", "o"]);
    let given: Vec<(Variable, Term)> = vec![(variable("s"), Term::NamedNode(node("c")))];
    let mut driver = evaluator.evaluate_select_driver(&mut storage, &query, &given).0.ok().unwrap();
    assert_eq!(changes(&mut driver, &mut storage), vec!["+ s=c o=d"]);
    let given: Vec<(Variable, Term)> = vec![
        (variable("s"), Term::NamedNode(node("c"))),
        (variable("unknown"), Term::NamedNode(node("c"))),
    ];
    let result = evaluator.evaluate_select_driver(&mut storage, &query, &given).0;
    assert_eq!(result.err(), Some(QueryEvaluationError::NotExistingSubstitutedVariable(1)));
}

#[test]
fn patterns_that_cannot_be_kept_up_to_date_are_refused() {
    let mut storage = Storage::new().unwrap();
    let evaluator = evaluator(&storage, whole_store());
    let cases: Vec<(PatternForm, NodeLabel)> = vec![
        (PatternForm::Path, NodeLabel::Path),
        (PatternForm::Graph, NodeLabel::Graph),
        (PatternForm::Minus, NodeLabel::Minus),
        (PatternForm::LeftJoin, NodeLabel::LeftJoin),
        (PatternForm::Filter, NodeLabel::Filter),
        (PatternForm::Union, NodeLabel::Union),
        (PatternForm::Extend, NodeLabel::Extend),
        (PatternForm::OrderBy, NodeLabel::OrderBy),
        (PatternForm::Distinct, NodeLabel::Distinct),
        (PatternForm::Reduced, NodeLabel::Reduced),
        (PatternForm::Slice, NodeLabel::Slice),
        (PatternForm::Group, NodeLabel::Group),
        (PatternForm::Service, NodeLabel::Service),
    ];
    for (form, label) in cases {
        let refused = UnsupportedPattern { form, shown: Arc::new(format!("{form:?} {{ .. }}")) };
        let expression = QueryExpression::Unsupported(refused.duplicate());
        assert_eq!(eval_node_label(&expression), label);
        let query = join(pattern("?s", "p", "?o", None), expression, vec![]);
        let (result, stats) = evaluator.evaluate_select_driver(&mut storage, &query, &vec![]);
        let error = result.err().unwrap();
        assert_eq!(
            error.message(),
            format!("incremental SELECT core does not support {form:?} {{ .. }} yet"),
        );
        assert_eq!(error, QueryEvaluationError::Unsupported(refused));
        assert_eq!(stats.label, NodeLabel::Join);
        assert_eq!(stats.children[1].label, label);
    }
}

#[test]
fn a_cancelled_query_fails() {
    let mut storage = Storage::new().unwrap();
    insert(&mut storage, quad("a", "p", "b", ""));
    let mut driver = start(&mut storage, &pattern("?s", "p", "?o", None));
    let mut token = CancellationToken::new();
    token.cancel();
    let result = driver.poll_next(&mut storage, &token);
    assert_eq!(result.err(), Some(QueryEvaluationError::Cancelled));
    let result = driver.drain_ready(&mut storage, &token, None);
    assert_eq!(result.err(), Some(QueryEvaluationError::Cancelled));
}

#[test]
fn a_query_on_damaged_data_fails() {
    let damage = StorageError::Corruption(CorruptionError::UndecodableRow(9));
    let mut storage = Storage::open(|| Ok(QuadTable::new().with_damage(damage))).unwrap();
    let mut driver = start(&mut storage, &pattern("?s", "p", "?o", None));
    let token = CancellationToken::new();
    let result = driver.poll_next(&mut storage, &token);
    assert_eq!(result.err(), Some(QueryEvaluationError::Dataset(damage)));
    let query = project(
        join(pattern("?s", "p", "?x", None), pattern("?x", "q", "?o", None), vec!["x"]),
        vec!["s", "o"],
    );
    let mut driver = start(&mut storage, &query);
    let result = driver.drain_ready(&mut storage, &token, None);
    assert_eq!(result.err(), Some(QueryEvaluationError::Dataset(damage)));
}

#[test]
fn a_batch_has_no_more_changes_than_asked_for() {
    let mut storage = Storage::new().unwrap();
    insert(&mut storage, quad("a", "p", "b", ""));
    insert(&mut storage, quad("a", "p", "c", ""));
    insert(&mut storage, quad("a", "p", "d", ""));
    let mut driver = start(&mut storage, &pattern("?s", "p", "?o", None));
    let token = CancellationToken::new();
    let sizes: Vec<usize> = vec![2, 1];
    for size in sizes {
        match driver.drain_ready(&mut storage, &token, Some(2)) {
            Ok(IncrementalDriverState::Item(batch)) => assert_eq!(batch.len(), size),
            _ => panic!("there are changes"),
        }
    }
    assert!(matches!(driver.drain_ready(&mut storage, &token, Some(2)), Ok(IncrementalDriverState::Pending)));
    assert!(matches!(driver.poll_next(&mut storage, &token), Ok(IncrementalDriverState::Pending)));
}

#[test]
fn a_commit_wakes_the_task_that_waits_for_a_query() {
    let mut storage = Storage::new().unwrap();
    let mut driver = start(&mut storage, &pattern("?s", "p", "?o", None));
    assert_eq!(changes(&mut driver, &mut storage), Vec::<String>::new());
    let mut token = CancellationToken::new();
    let waker = Waker { task: 5 };
    let generation = driver.change_generation(&storage);
    let mut wait = driver.wait_for_change(generation);
    assert_eq!(driver.poll_change(&mut storage, &mut wait, &mut token, &waker), ChangePoll::Pending);
    assert_eq!(insert(&mut storage, quad("a", "q", "b", "")), vec![]);
    assert_eq!(insert(&mut storage, quad("a", "p", "b", "")), vec![waker]);
    assert_eq!(driver.poll_change(&mut storage, &mut wait, &mut token, &waker), ChangePoll::Changed);
    assert_eq!(driver.change_generation(&storage), generation + 1);
    driver.close_wait(&mut storage, &mut wait, &mut token);
    assert_eq!(changes(&mut driver, &mut storage), vec!["+ s=a o=b"]);
    driver.register_waker(&mut storage, &waker);
    assert_eq!(insert(&mut storage, quad("a", "p", "c", "")), vec![waker]);
    driver.close(&mut storage);
    assert_eq!(insert(&mut storage, quad("a", "p", "d", "")), vec![]);
}

#[test]
fn a_commit_notifies_a_query_once() {
    let mut storage = Storage::new().unwrap();
    let query = join(pattern("?s", "p", "?x", None), pattern("?x", "p", "?o", None), vec!["x"]);
    let driver = start(&mut storage, &query);
    let mut transaction = storage.start_transaction().unwrap();
    transaction.insert(quad("a", "p", "b", ""));
    transaction.insert(quad("b", "p", "c", ""));
    let published = transaction.commit(&mut storage, || Ok(())).ok().unwrap();
    assert_eq!(published.notified.len(), 1);
    assert_eq!(driver.change_generation(&storage), 1);
}

#[test]
fn the_variables_of_a_query_are_those_it_met() {
    let mut storage = Storage::new().unwrap();
    let query = join(pattern("?s", "p", "?x", None), pattern("?x", "?q", "?o", None), vec!["x"]);
    let driver = start(&mut storage, &query);
    let names: Vec<Vec<u8>> = driver.variables().iter().map(|variable| variable.name.bytes.clone()).collect();
    assert_eq!(names, vec![b"s".to_vec(), b"x".to_vec(), b"q".to_vec(), b"o".to_vec()]);
}

#[test]
fn the_nodes_of_a_query_are_counted() {
    let mut storage = Storage::new().unwrap();
    insert(&mut storage, quad("a", "p", "b", ""));
    insert(&mut storage, quad("a", "p", "c", ""));
    let dataset = DatasetView::new(storage.snapshot());
    let evaluator = SimpleIncrementalEvaluator::new(dataset, whole_store(), true).ok().unwrap();
    let query = project(pattern("?s", "p", "?o", None), vec!["s"]);
    let (driver, outline) = evaluator.evaluate_select_driver(&mut storage, &query, &vec![]);
    assert_eq!(outline.label, NodeLabel::Project);
    assert_eq!(outline.exec_count.count(), 0);
    assert_eq!(outline.children.len(), 1);
    assert_eq!(outline.children[0].label, NodeLabel::QuadPattern);
    let mut driver = driver.ok().unwrap();
    assert_eq!(changes(&mut driver, &mut storage).len(), 2);
    let nodes = driver.stats();
    assert_eq!(nodes.len(), 1);
    assert_eq!(nodes[0].label, NodeLabel::Project);
    assert_eq!(nodes[0].exec_count.count(), 2);
    assert_eq!(nodes[0].children[0].exec_count.count(), 2);
    let outer = nodes[0].exec_duration.unwrap();
    let inner = nodes[0].children[0].exec_duration.unwrap();
    assert!(inner > 0);
    assert!(outer >= inner);
}

#[test]
fn the_nodes_of_a_join_are_counted_each_by_itself() {
    let mut storage = Storage::new().unwrap();
    for object in ["b", "c", "d"] {
        insert(&mut storage, quad("a", "p", object, ""));
    }
    insert(&mut storage, quad("b", "q", "e", ""));
    let dataset = DatasetView::new(storage.snapshot());
    let evaluator = SimpleIncrementalEvaluator::new(dataset, whole_store(), true).ok().unwrap();
    let query = join(pattern("?s", "p", "?x", None), pattern("?x", "q", "?o", None), vec!["x"]);
    let mut driver =
        evaluator.evaluate_select_driver(&mut storage, &query, &vec![]).0.ok().unwrap();
    assert_eq!(changes(&mut driver, &mut storage).len(), 1);
    remove(&mut storage, &quad("b", "q", "e", ""));
    assert_eq!(changes(&mut driver, &mut storage).len(), 1);
    let nodes = driver.stats();
    assert_eq!(nodes[0].label, NodeLabel::Join);
    assert_eq!(nodes[0].exec_count.count(), 2);
    assert_eq!(nodes[0].children[0].exec_count.count(), 3);
    assert_eq!(nodes[0].children[1].exec_count.count(), 2);
}

#[test]
fn a_query_without_statistics_is_not_timed() {
    let mut storage = Storage::new().unwrap();
    insert(&mut storage, quad("a", "p", "b", ""));
    let mut driver = start(&mut storage, &pattern("?s", "p", "?o", None));
    assert_eq!(changes(&mut driver, &mut storage).len(), 1);
    let nodes = driver.stats();
    assert_eq!(nodes[0].label, NodeLabel::QuadPattern);
    assert_eq!(nodes[0].exec_duration, None);
}

#[test]
fn query_errors_have_messages() {
    let cases: Vec<(QueryEvaluationError, &str)> = vec![
        (QueryEvaluationError::Cancelled, "The query evaluation was cancelled"),
        (QueryEvaluationError::UnexpectedDefaultGraph, "Unexpected default graph"),
        (QueryEvaluationError::NonExistingTupleDeleted, "A tuple was deleted before it was added"),
        (QueryEvaluationError::Dataset(StorageError::Io(1)), "input or output failed"),
        (
            QueryEvaluationError::Unsupported(UnsupportedPattern {
                form: PatternForm::Slice,
                shown: Arc::new(String::from("Slice { start: 0, length: Some(3) }")),
            }),
            "incremental SELECT core does not support Slice { start: 0, length: Some(3) } yet",
        ),
    ];
    for (error, message) in cases {
        assert_eq!(error.message(), message);
    }
}
