use oxlive::dataset::DatasetView;
use oxlive::delta::{Delta, DeltaKind, StreamingItem};
use oxlive::error::{CorruptionError, QueryEvaluationError, StorageError};
use oxlive::live::IncrementalState;
use oxlive::model::{GraphName, NamedNode, NamedOrBlankNode, Quad, Term, Text};
use oxlive::notifier::{
    CancellationToken, ChangePoll, IncrementalQueryNotifier, NotifierRegistry, Waker,
};
use oxlive::numeric_encoder::{EncodedQuad, EncodedTerm, StrHash};
use oxlive::source::LiveQuadDeltaSource;
use oxlive::storage::Storage;
use oxlive::subscription::{wanted_graph, IncrementalQuadPattern, IncrementalSubscriptionIndex};
use oxlive::table::QuadTable;

fn text(value: &str) -> Text {
    Text::new(value.as_bytes().to_vec())
}

fn node(name: &str) -> NamedNode {
    NamedNode { iri: text(&format!("http://example.com/{name}")) }
}

fn quad(subject: &str, predicate: &str, object: &str, graph_name: &str) -> Quad {
    Quad {
        subject: NamedOrBlankNode::NamedNode(node(subject)),
        predicate: node(predicate),
        object: Term::NamedNode(node(object)),
        graph_name: if graph_name.is_empty() {
            GraphName::DefaultGraph
        } else {
            GraphName::Node(NamedOrBlankNode::NamedNode(node(graph_name)))
        },
    }
}

fn encoded(subject: &str, predicate: &str, object: &str, graph_name: &str) -> EncodedQuad {
    EncodedQuad::from_quad(&quad(subject, predicate, object, graph_name))
}

fn term(name: &str) -> EncodedTerm {
    EncodedTerm::from_named_node(&node(name))
}

fn anything() -> IncrementalQuadPattern {
    IncrementalQuadPattern { subject: None, predicate: None, object: None, graph_name: None }
}

fn insert(storage: &mut Storage, quad: Quad) -> Vec<Waker> {
    let mut transaction = storage.start_transaction().unwrap();
    transaction.insert(quad);
    transaction.commit(storage, || Ok(())).ok().unwrap().wakers
}

fn remove(storage: &mut Storage, quad: &Quad) -> Vec<Waker> {
    let mut transaction = storage.start_transaction().unwrap();
    transaction.remove(quad);
    transaction.commit(storage, || Ok(())).ok().unwrap().wakers
}

fn parts(change: Delta<EncodedQuad>) -> (DeltaKind, EncodedQuad) {
    change.into_parts()
}

#[test]
fn a_pattern_watches_the_quads_with_its_terms() {
    let seen = encoded("a", "p", "b", "g");
    let mut pattern = anything();
    assert!(pattern.matches(&seen));
    pattern.subject = Some(term("a"));
    pattern.graph_name = Some(Some(term("g")));
    assert!(pattern.matches(&seen));
    assert!(!pattern.matches(&encoded("a", "p", "b", "")));
    pattern.graph_name = Some(None);
    assert!(!pattern.matches(&seen));
    assert!(pattern.matches(&encoded("a", "q", "c", "")));
    pattern.object = Some(term("d"));
    assert!(!pattern.matches(&encoded("a", "q", "c", "")));
    assert_eq!(wanted_graph(None), None);
    assert_eq!(wanted_graph(Some(None)), Some(EncodedTerm::DefaultGraph));
    assert_eq!(wanted_graph(Some(Some(term("g")))), Some(term("g")));
    let read = pattern.to_read_pattern();
    assert_eq!(read.graph_name, Some(EncodedTerm::DefaultGraph));
    assert_eq!(read.object, Some(term("d")));
    assert!(!read.matches(&encoded("a", "q", "c", "")));
}

#[test]
fn the_index_finds_each_subscription_that_shares_a_term() {
    let mut index = IncrementalSubscriptionIndex::new();
    let by_subject = IncrementalQuadPattern { subject: Some(term("a")), ..anything() };
    let by_graph = IncrementalQuadPattern { graph_name: Some(None), ..anything() };
    index.insert(0, &anything());
    index.insert(1, &by_subject);
    index.insert(2, &by_graph);
    let mut found = index.for_each_candidate(&encoded("a", "p", "b", ""));
    found.sort();
    assert_eq!(found, vec![0, 1, 2]);
    let mut found = index.for_each_candidate(&encoded("b", "p", "b", "g"));
    found.sort();
    assert_eq!(found, vec![0]);
    index.remove(0, &anything());
    index.remove(1, &by_subject);
    assert_eq!(index.for_each_candidate(&encoded("a", "p", "b", "")), vec![2]);
}

#[test]
fn changes_are_queued_for_those_who_watch_them() {
    let mut state = IncrementalState::new();
    let first = state.register_notifier();
    let second = state.register_notifier();
    let all = state.subscribe(anything(), first);
    let some = state.subscribe(
        IncrementalQuadPattern { predicate: Some(term("p")), ..anything() },
        second,
    );
    assert_ne!(all, some);
    let changes: Vec<Delta<EncodedQuad>> = vec![
        Delta::addition(encoded("a", "q", "b", "")),
        Delta::deletion(encoded("a", "p", "b", "")),
    ];
    let mut notified = state.queue_committed_quad_changes(&changes);
    notified.sort();
    assert_eq!(notified, vec![first, second]);
    let mut heard = state.take_changes(some);
    assert_eq!(heard.len(), 1);
    assert_eq!(
        parts(heard.pop_front().unwrap()),
        (DeltaKind::Deletion, encoded("a", "p", "b", "")),
    );
    assert_eq!(state.take_changes(some).len(), 0);
    let heard: Vec<(DeltaKind, EncodedQuad)> = state.take_changes(all).into_iter().map(parts).collect();
    assert_eq!(
        heard,
        vec![
            (DeltaKind::Addition, encoded("a", "q", "b", "")),
            (DeltaKind::Deletion, encoded("a", "p", "b", "")),
        ],
    );
    let only: Vec<Delta<EncodedQuad>> = vec![Delta::addition(encoded("a", "q", "c", ""))];
    assert_eq!(state.queue_committed_quad_changes(&only), vec![first]);
    state.unsubscribe(all);
    assert_eq!(state.queue_committed_quad_changes(&only), Vec::<usize>::new());
    assert_eq!(state.for_each_matching_subscriber(&encoded("x", "p", "y", "g")), vec![some]);
}

#[test]
fn a_number_is_used_again_after_its_subscription_has_ended() {
    let mut state = IncrementalState::new();
    let notifier = state.register_notifier();
    let first = state.subscribe(anything(), notifier);
    let second = state.subscribe(anything(), notifier);
    state.unsubscribe(first);
    state.unsubscribe(first);
    assert_eq!(state.subscribe(anything(), notifier), first);
    assert_ne!(state.subscribe(anything(), notifier), second);
}

#[test]
fn a_notifier_counts_changes_and_wakes_once() {
    let mut notifier = IncrementalQueryNotifier::new();
    assert_eq!(notifier.generation(), 0);
    assert_eq!(notifier.notify(), None);
    assert_eq!(notifier.generation(), 1);
    notifier.register_waker(&Waker { task: 7 });
    notifier.register_waker(&Waker { task: 8 });
    assert_eq!(notifier.notify(), Some(Waker { task: 8 }));
    assert_eq!(notifier.notify(), None);
    assert_eq!(notifier.generation(), 3);
    notifier.register_waker(&Waker { task: 7 });
    notifier.clear_waker();
    assert_eq!(notifier.notify(), None);
}

#[test]
fn no_wakeup_is_lost() {
    let mut notifier = IncrementalQueryNotifier::new();
    let mut token = CancellationToken::new();
    let waker = Waker { task: 1 };
    let mut wait = notifier.changed_since(0);
    assert_eq!(wait.poll(&mut notifier, &mut token, &waker), ChangePoll::Pending);
    assert_eq!(notifier.notify(), Some(waker));
    assert_eq!(wait.poll(&mut notifier, &mut token, &waker), ChangePoll::Changed);
    let mut late = notifier.changed_since(0);
    assert_eq!(late.check(&notifier, &token), ChangePoll::Changed);
    assert_eq!(late.poll(&mut notifier, &mut token, &waker), ChangePoll::Changed);
}

#[test]
fn a_wait_ends_when_the_query_is_cancelled() {
    let mut notifier = IncrementalQueryNotifier::new();
    let mut token = CancellationToken::new();
    let waker = Waker { task: 1 };
    let other = Waker { task: 2 };
    let mut wait = notifier.changed_since(0);
    assert_eq!(wait.poll(&mut notifier, &mut token, &waker), ChangePoll::Pending);
    assert_eq!(wait.poll(&mut notifier, &mut token, &other), ChangePoll::Pending);
    assert_eq!(token.wakers, vec![other]);
    assert_eq!(token.cancel(), vec![other]);
    assert_eq!(
        wait.poll(&mut notifier, &mut token, &other),
        ChangePoll::Failed(QueryEvaluationError::Cancelled),
    );
    assert_eq!(token.ensure_alive(), Err(QueryEvaluationError::Cancelled));
}

#[test]
fn a_closed_wait_wakes_no_task() {
    let mut notifier = IncrementalQueryNotifier::new();
    let mut token = CancellationToken::new();
    let waker = Waker { task: 1 };
    let mut wait = notifier.changed_since(0);
    assert_eq!(wait.poll(&mut notifier, &mut token, &waker), ChangePoll::Pending);
    wait.close(&mut notifier, &mut token);
    assert_eq!(notifier.notify(), None);
    assert_eq!(token.cancel(), vec![]);
    assert!(waker.will_wake(&Waker { task: 1 }));
    assert!(!waker.will_wake(&Waker { task: 2 }));
}

#[test]
fn a_dropped_notifier_is_never_heard_of_again() {
    let mut registry = NotifierRegistry::new();
    let first = registry.register();
    let second = registry.register();
    assert_ne!(first, second);
    assert!(registry.take(first).is_some());
    assert!(registry.get(first).is_none());
    assert!(registry.take(first).is_none());
    assert_eq!(registry.get(second).unwrap().generation(), 0);
    let notifier = registry.take(second).unwrap();
    registry.restore(second, notifier);
    assert!(registry.get(second).is_some());
    let mut state = IncrementalState::new();
    let id = state.register_notifier();
    state.register_waker(id, &Waker { task: 3 });
    assert_eq!(state.generation(id), Some(0));
    assert_eq!(state.notify(&vec![id]), vec![Waker { task: 3 }]);
    assert_eq!(state.generation(id), Some(1));
    state.drop_notifier(id);
    assert_eq!(state.generation(id), None);
    assert_eq!(state.notify(&vec![id]), vec![]);
}

#[test]
fn a_subscription_starts_from_what_is_committed() {
    let mut storage = Storage::new().unwrap();
    insert(&mut storage, quad("a", "p", "b", ""));
    let reader = storage.snapshot();
    insert(&mut storage, quad("a", "p", "c", ""));
    let (id, fresh) = reader.subscribe_incremental_quads(&mut storage, None, None, None, None, 0);
    assert_eq!(reader.len(), Ok(1));
    assert_eq!(fresh.unwrap().len(), Ok(2));
    assert_eq!(reader.incremental_quad_subscription_changes(&mut storage, id).len(), 0);
    insert(&mut storage, quad("a", "p", "d", ""));
    let mut changes = reader.incremental_quad_subscription_changes(&mut storage, id);
    assert_eq!(
        parts(changes.pop_front().unwrap()),
        (DeltaKind::Addition, encoded("a", "p", "d", "")),
    );
    assert!(changes.pop_front().is_none());
    reader.unsubscribe_incremental_quads(&mut storage, id);
    insert(&mut storage, quad("a", "p", "e", ""));
    assert_eq!(reader.incremental_quad_subscription_changes(&mut storage, id).len(), 0);
}

fn next_change(source: &mut LiveQuadDeltaSource) -> Option<(DeltaKind, EncodedTerm)> {
    match source.next() {
        Some(Ok(StreamingItem::Item(change))) => {
            let (kind, quad) = change.into_parts();
            Some((kind, quad.object))
        }
        Some(Ok(StreamingItem::Pending)) => None,
        Some(Err(error)) => panic!("unexpected {error:?}"),
        None => panic!("a live source does not end"),
    }
}

#[test]
fn a_source_hands_out_what_is_there_and_then_what_changes() {
    let mut storage = Storage::new().unwrap();
    insert(&mut storage, quad("a", "p", "b", ""));
    insert(&mut storage, quad("a", "q", "x", ""));
    let view = DatasetView::new(storage.snapshot());
    let mut source = view.internal_quad_deltas_for_pattern(
        &mut storage,
        None,
        Some(&term("p")),
        None,
        Some(None),
        0,
    );
    assert_eq!(next_change(&mut source), Some((DeltaKind::Addition, term("b"))));
    assert_eq!(next_change(&mut source), None);
    insert(&mut storage, quad("a", "p", "c", ""));
    insert(&mut storage, quad("a", "p", "c", "g"));
    remove(&mut storage, &quad("a", "p", "b", ""));
    source.refill(&mut storage);
    assert_eq!(next_change(&mut source), Some((DeltaKind::Addition, term("c"))));
    assert_eq!(next_change(&mut source), Some((DeltaKind::Deletion, term("b"))));
    assert_eq!(next_change(&mut source), None);
    source.close(&mut storage);
}

#[test]
fn what_was_there_comes_before_what_was_queued() {
    let mut storage = Storage::new().unwrap();
    insert(&mut storage, quad("a", "p", "b", ""));
    let view = DatasetView::new(storage.snapshot());
    let mut source =
        view.internal_quad_deltas_for_pattern(&mut storage, None, Some(&term("p")), None, None, 0);
    remove(&mut storage, &quad("a", "p", "b", ""));
    insert(&mut storage, quad("a", "p", "c", ""));
    source.refill(&mut storage);
    assert_eq!(next_change(&mut source), Some((DeltaKind::Addition, term("b"))));
    assert_eq!(next_change(&mut source), Some((DeltaKind::Deletion, term("b"))));
    assert_eq!(next_change(&mut source), Some((DeltaKind::Addition, term("c"))));
    assert_eq!(next_change(&mut source), None);
    source.close(&mut storage);
}

#[test]
fn a_source_of_a_transaction_ends() {
    let mut storage = Storage::new().unwrap();
    insert(&mut storage, quad("a", "p", "b", "g"));
    let transaction = storage.start_readable_transaction().unwrap();
    let view = DatasetView::new(transaction.reader());
    let mut source = view.internal_quad_deltas_for_pattern(&mut storage, None, None, None, None, 0);
    match source.next() {
        Some(Ok(StreamingItem::Item(change))) => {
            let (kind, quad) = change.into_parts();
            assert_eq!(kind, DeltaKind::Addition);
            assert_eq!(quad, LiveQuadDeltaSource::map_quad(encoded("a", "p", "b", "g")));
            assert_eq!(quad.graph_name, Some(term("g")));
        }
        _ => panic!("the quad is handed out"),
    }
    assert!(source.next().is_none());
    source.close(&mut storage);
}

#[test]
fn a_source_tells_damage() {
    let damage = StorageError::Corruption(CorruptionError::UndecodableRow(2));
    let mut storage = Storage::open(|| Ok(QuadTable::new().with_damage(damage))).unwrap();
    let view = DatasetView::new(storage.snapshot());
    let mut source = view.internal_quad_deltas_for_pattern(&mut storage, None, None, None, None, 0);
    assert!(matches!(source.next(), Some(Err(error)) if error == damage));
}

#[test]
fn a_view_lists_quads_triples_and_graphs() {
    let mut storage = Storage::new().unwrap();
    insert(&mut storage, quad("a", "p", "b", ""));
    insert(&mut storage, quad("a", "p", "b", "g"));
    let view = DatasetView::new(storage.snapshot());
    let mut quads = view.internal_quads_for_pattern(Some(&term("a")), None, None, Some(None));
    let found = quads.next().unwrap().unwrap();
    assert_eq!(found.graph_name, None);
    assert_eq!(found.object, term("b"));
    assert!(quads.next().is_none());
    assert_eq!(view.internal_triples_for_pattern(None, None, None, None).len(), 1);
    let mut graphs = view.internal_named_graphs();
    assert_eq!(graphs.next(), Some(Ok(term("g"))));
    assert!(graphs.next().is_none());
    assert_eq!(view.contains_internal_graph_name(&term("g")), Ok(true));
    assert_eq!(view.contains_internal_graph_name(&term("h")), Ok(false));
    let p = StrHash::new(&text("http://example.com/p"));
    assert!(view.get_str(&storage, &p).unwrap().unwrap().same(&text("http://example.com/p")));
}

#[test]
fn different_stored_quads_are_different_to_queries() {
    let quads: Vec<EncodedQuad> = vec![
        encoded("a", "p", "b", ""),
        encoded("a", "p", "b", "g"),
        encoded("a", "p", "c", "g"),
        encoded("a", "q", "b", ""),
        encoded("b", "p", "b", ""),
    ];
    for (i, a) in quads.iter().enumerate() {
        for (j, b) in quads.iter().enumerate() {
            let same = LiveQuadDeltaSource::map_quad(*a) == LiveQuadDeltaSource::map_quad(*b);
            assert_eq!(same, i == j);
        }
    }
    assert_eq!(LiveQuadDeltaSource::map_quad(quads[0]).graph_name, None);
}

#[test]
fn waiting_for_a_dropped_notifier_comes_to_nothing() {
    let mut state = IncrementalState::new();
    let mut token = CancellationToken::new();
    let waker = Waker { task: 1 };
    let id = state.register_notifier();
    let mut wait = IncrementalQueryNotifier::new().changed_since(0);
    let poll = state.poll_change(id, &mut wait, &mut token, &waker);
    assert_eq!(poll, Some(ChangePoll::Pending));
    state.close_wait(id, &mut wait, &mut token);
    assert!(token.wakers.is_empty());
    state.drop_notifier(id);
    assert_eq!(state.poll_change(id, &mut wait, &mut token, &waker), None);
    assert!(token.wakers.is_empty());
}
