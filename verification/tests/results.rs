use oxlive::algebra::{NamedNodePattern, QueryExpression, TermPattern};
use oxlive::dataset::DatasetView;
use oxlive::delta::{Delta, DeltaKind};
use oxlive::deltas::{
    DeltasStep, IncrementalQueryDeltasState, QueryBooleanDeltaIter, QueryResultsDelta,
    QuerySolutionDeltaIter, QueryTripleDeltaIter,
};
use oxlive::driver::IncrementalSelectDriver;
use oxlive::error::{CorruptionError, QueryEvaluationError, StorageError};
use oxlive::eval_dataset::QueryDatasetSpecification;
use oxlive::evaluator::SimpleIncrementalEvaluator;
use oxlive::model::{GraphName, NamedNode, NamedOrBlankNode, Quad, Term, Text, Triple, Variable};
use oxlive::notifier::{CancellationToken, ChangePoll, Waker};
use oxlive::numeric_encoder::{EncodedQuad, StrHash};
use oxlive::results::{IncrementalQueryResults, IncrementalQueryResultsState, NextStep};
use oxlive::solution::QuerySolution;
use oxlive::storage::Storage;
use oxlive::table::{QuadTable, WriteOp};
use oxlive::template::{TermTemplate, TripleTemplate};
use std::sync::Arc;

fn text(value: &str) -> Text {
    Text::new(value.as_bytes().to_vec())
}

fn node(name: &str) -> NamedNode {
    NamedNode { iri: text(&format!("http://example.com/{name}")) }
}

fn name_of(node: &NamedNode) -> String {
    String::from_utf8(node.iri.bytes.clone()).unwrap().replace("http://example.com/", "")
}

fn variable(name: &str) -> Variable {
    Variable { name: text(name) }
}

fn quad(subject: &str, predicate: &str, object: &str) -> Quad {
    Quad {
        subject: NamedOrBlankNode::NamedNode(node(subject)),
        predicate: node(predicate),
        object: Term::NamedNode(node(object)),
        graph_name: GraphName::DefaultGraph,
    }
}

fn insert(storage: &mut Storage, quad: Quad) -> Vec<Waker> {
    let mut transaction = storage.start_transaction().unwrap();
    transaction.insert(quad);
    transaction.commit(storage, || Ok(())).ok().unwrap().wakers
}

fn remove(storage: &mut Storage, quad: &Quad) {
    let mut transaction = storage.start_transaction().unwrap();
    transaction.remove(quad);
    assert!(transaction.commit(storage, || Ok(())).is_ok());
}

/// The subjects of the quads with the predicate `p`.
fn driver(storage: &mut Storage) -> IncrementalSelectDriver {
    let specification = QueryDatasetSpecification {
        default: Some(vec![GraphName::DefaultGraph]),
        named: None,
    };
    let dataset = DatasetView::new(storage.snapshot());
    let evaluator = SimpleIncrementalEvaluator::new(dataset, specification, false).ok().unwrap();
    let query = QueryExpression::Project {
        inner: Box::new(QueryExpression::QuadPattern {
            subject: TermPattern::Variable(variable("s")),
            predicate: NamedNodePattern::NamedNode(node("p")),
            object: TermPattern::Variable(variable("o")),
            graph_name: None,
        }),
        variables: vec![variable("s")],
    };
    evaluator.evaluate_select_driver(storage, &query, &vec![]).0.ok().unwrap()
}

/// Each subject gets a type.
fn template() -> Vec<TripleTemplate> {
    vec![TripleTemplate {
        subject: TermTemplate::Variable(variable("s")),
        predicate: NamedNodePattern::NamedNode(node("type")),
        object: TermTemplate::NamedNode(node("thing")),
    }]
}

fn shown(solution: &QuerySolution) -> String {
    match solution.get(&variable("s")) {
        Some(Term::NamedNode(node)) => name_of(node),
        _ => panic!("the subject is a named node"),
    }
}

fn triple(triple: &Triple) -> String {
    match (&triple.subject, &triple.object) {
        (NamedOrBlankNode::NamedNode(subject), Term::NamedNode(object)) => {
            format!("{} {} {}", name_of(subject), name_of(&triple.predicate), name_of(object))
        }
        _ => panic!("the terms are named nodes"),
    }
}

fn all_shown(results: IncrementalQueryResults<'_>) -> Vec<String> {
    let mut all: Vec<String> = vec![];
    match results {
        IncrementalQueryResults::Solutions(mut solutions) => {
            while let Some(solution) = solutions.next() {
                all.push(shown(&solution));
            }
        }
        IncrementalQueryResults::Boolean(value) => all.push(format!("{value}")),
        IncrementalQueryResults::Graph(mut triples) => {
            while let Some(next) = triples.next() {
                all.push(triple(&next));
            }
        }
    }
    all.sort();
    all
}

fn all_told(deltas: QueryResultsDelta) -> Vec<String> {
    let mut all: Vec<String> = vec![];
    let signed = |kind: DeltaKind, value: String| {
        let sign = if kind == DeltaKind::Addition { "+" } else { "-" };
        format!("{sign} {value}")
    };
    match deltas {
        QueryResultsDelta::Solutions(mut changes) => {
            assert_eq!(changes.variables().len(), 1);
            while let Some(change) = changes.next() {
                let (kind, solution) = change.into_parts();
                all.push(signed(kind, shown(&solution)));
            }
        }
        QueryResultsDelta::Boolean(mut changes) => {
            while let Some(value) = changes.next() {
                all.push(format!("{}", value.unwrap()));
            }
        }
        QueryResultsDelta::Graph(mut changes) => {
            while let Some(change) = changes.next() {
                let (kind, value) = change.into_parts();
                all.push(signed(kind, triple(&value)));
            }
        }
    }
    all.sort();
    all
}

#[test]
fn select_results_are_the_solutions_with_their_multiplicity() {
    let mut storage = Storage::new().unwrap();
    let token = CancellationToken::new();
    insert(&mut storage, quad("a", "p", "b"));
    insert(&mut storage, quad("a", "p", "c"));
    insert(&mut storage, quad("d", "p", "c"));
    let mut state = IncrementalQueryResultsState::new_select(driver(&mut storage));
    assert_eq!(state.variables().unwrap().len(), 1);
    let results = state.results(&mut storage, &token).ok().unwrap();
    assert_eq!(all_shown(results), vec!["a", "a", "d"]);
    remove(&mut storage, &quad("a", "p", "b"));
    let results = state.results(&mut storage, &token).ok().unwrap();
    assert_eq!(all_shown(results), vec!["a", "d"]);
    remove(&mut storage, &quad("a", "p", "c"));
    insert(&mut storage, quad("e", "p", "c"));
    assert_eq!(state.drain_ready(&mut storage, &token), Ok(true));
    assert_eq!(state.drain_ready(&mut storage, &token), Ok(false));
    assert_eq!(all_shown(state.snapshot()), vec!["d", "e"]);
    state.close(&mut storage);
}

#[test]
fn ask_results_tell_whether_there_is_a_solution() {
    let mut storage = Storage::new().unwrap();
    let token = CancellationToken::new();
    let mut state = IncrementalQueryResultsState::new_ask(driver(&mut storage));
    assert!(state.variables().is_none());
    assert_eq!(all_shown(state.results(&mut storage, &token).ok().unwrap()), vec!["false"]);
    insert(&mut storage, quad("a", "p", "b"));
    insert(&mut storage, quad("a", "p", "c"));
    assert_eq!(all_shown(state.results(&mut storage, &token).ok().unwrap()), vec!["true"]);
    remove(&mut storage, &quad("a", "p", "b"));
    assert_eq!(state.drain_ready(&mut storage, &token), Ok(true));
    assert_eq!(all_shown(state.snapshot()), vec!["true"]);
    remove(&mut storage, &quad("a", "p", "c"));
    assert_eq!(state.drain_ready(&mut storage, &token), Ok(true));
    assert_eq!(all_shown(state.snapshot()), vec!["false"]);
    assert_eq!(state.drain_ready(&mut storage, &token), Ok(false));
}

#[test]
fn changes_that_are_ready_give_complete_results_afresh() {
    let mut storage = Storage::new().unwrap();
    let token = CancellationToken::new();
    insert(&mut storage, quad("a", "p", "b"));
    let mut state = IncrementalQueryResultsState::new_ask(driver(&mut storage));
    assert_eq!(state.next_results_snapshot(&mut storage, &token), NextStep::Ready);
    assert_eq!(all_shown(state.snapshot()), vec!["true"]);
    assert!(matches!(state.next_results_snapshot(&mut storage, &token), NextStep::Wait(_)));
    insert(&mut storage, quad("a", "p", "c"));
    assert_eq!(state.next_results_snapshot(&mut storage, &token), NextStep::Ready);
    assert_eq!(all_shown(state.snapshot()), vec!["true"]);
    assert!(matches!(state.next_results_snapshot(&mut storage, &token), NextStep::Wait(_)));
}

#[test]
fn solutions_keep_the_variables_of_the_query() {
    let mut storage = Storage::new().unwrap();
    let token = CancellationToken::new();
    insert(&mut storage, quad("a", "p", "b"));
    insert(&mut storage, quad("c", "p", "b"));
    let mut state = IncrementalQueryResultsState::new_select(driver(&mut storage));
    let wanted: Vec<Variable> =
        state.variables().unwrap().iter().map(|own| Variable { name: own.name.duplicate() }).collect();
    match state.results(&mut storage, &token).ok().unwrap() {
        IncrementalQueryResults::Solutions(mut solutions) => {
            let mut found: usize = 0;
            while let Some(solution) = solutions.next() {
                found += 1;
                assert_eq!(solution.variables().len(), wanted.len());
                assert!(solution.variables().iter().zip(&wanted).all(|(own, other)| own.same(other)));
            }
            assert_eq!(found, 2);
        }
        _ => panic!("a SELECT query has solutions"),
    }
}

#[test]
fn construct_results_have_each_triple_once() {
    let mut storage = Storage::new().unwrap();
    let token = CancellationToken::new();
    insert(&mut storage, quad("a", "p", "b"));
    insert(&mut storage, quad("a", "p", "c"));
    let mut state = IncrementalQueryResultsState::new_construct(driver(&mut storage), template());
    assert!(state.variables().is_none());
    let results = state.results(&mut storage, &token).ok().unwrap();
    assert_eq!(all_shown(results), vec!["a type thing"]);
    remove(&mut storage, &quad("a", "p", "c"));
    assert_eq!(state.drain_ready(&mut storage, &token), Ok(true));
    assert_eq!(all_shown(state.snapshot()), vec!["a type thing"]);
    remove(&mut storage, &quad("a", "p", "b"));
    let results = state.results(&mut storage, &token).ok().unwrap();
    assert_eq!(all_shown(results), Vec::<String>::new());
}

#[test]
fn the_first_results_come_at_once_and_others_when_there_are_some() {
    let mut storage = Storage::new().unwrap();
    let mut token = CancellationToken::new();
    let waker = Waker { task: 2 };
    let mut state = IncrementalQueryResultsState::new_select(driver(&mut storage));
    let mut iter = state.iter_results();
    assert_eq!(iter.next(&mut storage, &token), NextStep::Ready);
    assert_eq!(iter.next(&mut storage, &token), NextStep::Wait(0));
    let mut wait = state.wait_for_change(0);
    assert_eq!(state.poll_change(&mut storage, &mut wait, &mut token, &waker), ChangePoll::Pending);
    assert_eq!(insert(&mut storage, quad("a", "p", "b")), vec![waker]);
    assert_eq!(state.poll_change(&mut storage, &mut wait, &mut token, &waker), ChangePoll::Changed);
    state.close_wait(&mut storage, &mut wait, &mut token);
    assert_eq!(state.next_results_snapshot(&mut storage, &token), NextStep::Ready);
    assert_eq!(all_shown(state.snapshot()), vec!["a"]);
    assert_eq!(state.next_results_snapshot(&mut storage, &token), NextStep::Wait(1));
    token.cancel();
    assert_eq!(
        state.next_results_snapshot(&mut storage, &token),
        NextStep::Failed(QueryEvaluationError::Cancelled),
    );
}

#[test]
fn results_of_given_rows_are_finished() {
    let mut storage = Storage::new().unwrap();
    let token = CancellationToken::new();
    let specification = QueryDatasetSpecification { default: None, named: None };
    let dataset = DatasetView::new(storage.snapshot());
    let evaluator = SimpleIncrementalEvaluator::new(dataset, specification, false).ok().unwrap();
    let query = QueryExpression::Values {
        variables: vec![variable("s")],
        bindings: vec![vec![Some(Term::NamedNode(node("a")))]],
    };
    let first = evaluator.evaluate_select_driver(&mut storage, &query, &vec![]).0.ok().unwrap();
    let mut state = IncrementalQueryResultsState::new_select(first);
    assert_eq!(state.next_results_snapshot(&mut storage, &token), NextStep::Ready);
    assert_eq!(all_shown(state.snapshot()), vec!["a"]);
    assert_eq!(state.next_results_snapshot(&mut storage, &token), NextStep::Finished);
    let second = evaluator.evaluate_select_driver(&mut storage, &query, &vec![]).0.ok().unwrap();
    let mut state = IncrementalQueryDeltasState::new_select(second);
    match state.next_deltas_batch(&mut storage, &token) {
        DeltasStep::Ready(deltas) => assert_eq!(all_told(deltas), vec!["+ a"]),
        _ => panic!("there is a solution"),
    }
    assert!(matches!(state.next_deltas_batch(&mut storage, &token), DeltasStep::Finished));
}

/// A store with the subjects `a` and `lost`, of which the second one cannot be decoded.
fn damaged() -> (Storage, QueryEvaluationError) {
    let mut table = QuadTable::new();
    for name in ["a", "p", "b"] {
        let iri = node(name).iri;
        table.put_string(StrHash::new(&iri), iri);
    }
    table.apply(WriteOp::PutQuad(EncodedQuad::from_quad(&quad("a", "p", "b"))));
    table.apply(WriteOp::PutQuad(EncodedQuad::from_quad(&quad("lost", "p", "b"))));
    let missing = CorruptionError::MissingString(StrHash::new(&node("lost").iri));
    let error = QueryEvaluationError::Dataset(StorageError::Corruption(missing));
    (Storage::open(|| Ok(table)).unwrap(), error)
}

#[test]
fn changes_that_an_error_discards_do_not_come_again() {
    let (mut storage, error) = damaged();
    let token = CancellationToken::new();
    let mut state = IncrementalQueryDeltasState::new_select(driver(&mut storage));
    assert_eq!(state.deltas(&mut storage, &token).err(), Some(error));
    insert(&mut storage, quad("c", "p", "b"));
    assert_eq!(all_told(state.deltas(&mut storage, &token).ok().unwrap()), vec!["+ c"]);
}

#[test]
fn changes_before_an_error_are_taken_in() {
    let (mut storage, error) = damaged();
    let token = CancellationToken::new();
    let mut state = IncrementalQueryResultsState::new_select(driver(&mut storage));
    assert_eq!(state.results(&mut storage, &token).err(), Some(error));
    insert(&mut storage, quad("c", "p", "b"));
    assert_eq!(all_shown(state.results(&mut storage, &token).ok().unwrap()), vec!["a", "c"]);
}

#[test]
fn select_deltas_are_the_changes_of_the_solutions() {
    let mut storage = Storage::new().unwrap();
    let token = CancellationToken::new();
    insert(&mut storage, quad("a", "p", "b"));
    let mut state = IncrementalQueryDeltasState::new_select(driver(&mut storage));
    assert_eq!(state.variables().unwrap().len(), 1);
    assert_eq!(all_told(state.deltas(&mut storage, &token).ok().unwrap()), vec!["+ a"]);
    insert(&mut storage, quad("c", "p", "b"));
    remove(&mut storage, &quad("a", "p", "b"));
    assert_eq!(all_told(state.deltas(&mut storage, &token).ok().unwrap()), vec!["+ c", "- a"]);
    assert!(state.deltas(&mut storage, &token).ok().unwrap().is_empty());
    state.close(&mut storage);
}

/// Applies what was told to what was held.
fn apply(held: &mut Vec<String>, told: Vec<String>) {
    for change in told {
        match change.strip_prefix("+ ") {
            Some(added) => held.push(String::from(added)),
            None => {
                let gone = change.strip_prefix("- ").unwrap();
                let at = held.iter().position(|known| known.as_str() == gone).unwrap();
                held.remove(at);
            }
        }
    }
    held.sort();
}

#[test]
fn batches_add_up_to_the_results() {
    let mut storage = Storage::new().unwrap();
    let token = CancellationToken::new();
    insert(&mut storage, quad("a", "p", "b"));
    let first = driver(&mut storage);
    let second = driver(&mut storage);
    let third = driver(&mut storage);
    let fourth = driver(&mut storage);
    let mut select = IncrementalQueryDeltasState::new_select(first);
    let mut construct = IncrementalQueryDeltasState::new_construct(second, template());
    let mut rows = IncrementalQueryResultsState::new_select(third);
    let mut graph = IncrementalQueryResultsState::new_construct(fourth, template());
    let mut held: Vec<String> = vec![];
    let mut triples: Vec<String> = vec![];
    for round in 0..4 {
        match round {
            0 => {}
            1 => {
                insert(&mut storage, quad("a", "p", "c"));
                insert(&mut storage, quad("d", "p", "c"));
            }
            2 => remove(&mut storage, &quad("a", "p", "b")),
            _ => {
                remove(&mut storage, &quad("a", "p", "c"));
                insert(&mut storage, quad("e", "p", "c"));
            }
        }
        apply(&mut held, all_told(select.deltas(&mut storage, &token).ok().unwrap()));
        apply(&mut triples, all_told(construct.deltas(&mut storage, &token).ok().unwrap()));
        assert_eq!(held, all_shown(rows.results(&mut storage, &token).ok().unwrap()));
        assert_eq!(triples, all_shown(graph.results(&mut storage, &token).ok().unwrap()));
        assert!(select.deltas(&mut storage, &token).ok().unwrap().is_empty());
        assert!(construct.deltas(&mut storage, &token).ok().unwrap().is_empty());
        assert_eq!(held, all_shown(rows.results(&mut storage, &token).ok().unwrap()));
    }
    assert_eq!(held, vec!["d", "e"]);
}

#[test]
fn ask_deltas_are_the_first_answer_and_its_changes() {
    let mut storage = Storage::new().unwrap();
    let token = CancellationToken::new();
    let mut state = IncrementalQueryDeltasState::new_ask(driver(&mut storage));
    assert!(state.variables().is_none());
    assert_eq!(all_told(state.deltas(&mut storage, &token).ok().unwrap()), vec!["false"]);
    insert(&mut storage, quad("a", "p", "b"));
    assert_eq!(all_told(state.deltas(&mut storage, &token).ok().unwrap()), vec!["true"]);
    insert(&mut storage, quad("a", "p", "c"));
    assert!(state.deltas(&mut storage, &token).ok().unwrap().is_empty());
}

#[test]
fn construct_deltas_are_the_changes_of_the_graph() {
    let mut storage = Storage::new().unwrap();
    let token = CancellationToken::new();
    insert(&mut storage, quad("a", "p", "b"));
    let mut state = IncrementalQueryDeltasState::new_construct(driver(&mut storage), template());
    assert_eq!(all_told(state.deltas(&mut storage, &token).ok().unwrap()), vec!["+ a type thing"]);
    insert(&mut storage, quad("a", "p", "c"));
    assert!(state.deltas(&mut storage, &token).ok().unwrap().is_empty());
    remove(&mut storage, &quad("a", "p", "b"));
    assert!(state.deltas(&mut storage, &token).ok().unwrap().is_empty());
    remove(&mut storage, &quad("a", "p", "c"));
    assert_eq!(all_told(state.deltas(&mut storage, &token).ok().unwrap()), vec!["- a type thing"]);
}

#[test]
fn batches_of_deltas_are_not_empty() {
    let mut storage = Storage::new().unwrap();
    let mut token = CancellationToken::new();
    let waker = Waker { task: 4 };
    let mut state = IncrementalQueryDeltasState::new_select(driver(&mut storage));
    let mut iter = state.iter_deltas();
    assert!(matches!(iter.next(&mut storage, &token), DeltasStep::Wait(0)));
    let mut wait = state.wait_for_change(0);
    assert_eq!(state.poll_change(&mut storage, &mut wait, &mut token, &waker), ChangePoll::Pending);
    assert_eq!(insert(&mut storage, quad("a", "p", "b")), vec![waker]);
    state.close_wait(&mut storage, &mut wait, &mut token);
    match state.next_deltas_batch(&mut storage, &token) {
        DeltasStep::Ready(deltas) => assert_eq!(all_told(deltas), vec!["+ a"]),
        _ => panic!("there is a change"),
    }
    token.cancel();
    assert!(matches!(
        state.next_deltas_batch(&mut storage, &token),
        DeltasStep::Failed(QueryEvaluationError::Cancelled),
    ));
    let failed = state.deltas(&mut storage, &token);
    assert_eq!(failed.err(), Some(QueryEvaluationError::Cancelled));
}

#[test]
fn iterators_over_changes_know_their_length() {
    let variables = Arc::new(vec![variable("s")]);
    let solution = QuerySolution::new(variables.clone(), vec![Some(Term::NamedNode(node("a")))]);
    let mut solutions = QuerySolutionDeltaIter::new(variables, vec![Delta::addition(solution)]);
    assert_eq!(solutions.size_hint(), (1, Some(1)));
    assert!(solutions.next().is_some());
    assert_eq!(solutions.size_hint(), (0, Some(0)));
    assert!(solutions.next().is_none());
    let mut values = QueryBooleanDeltaIter::new(vec![true, false]);
    assert_eq!(values.size_hint(), (2, Some(2)));
    assert_eq!(values.next(), Some(Ok(true)));
    assert_eq!(values.next(), Some(Ok(false)));
    assert_eq!(values.next(), None);
    let mut triples = QueryTripleDeltaIter::new(vec![]);
    assert_eq!(triples.size_hint(), (0, Some(0)));
    assert!(triples.next().is_none());
    assert!(QueryResultsDelta::Graph(triples).is_empty());
    assert!(!QueryResultsDelta::Boolean(QueryBooleanDeltaIter::new(vec![false])).is_empty());
}
