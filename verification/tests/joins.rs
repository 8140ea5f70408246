use oxlive::delta::{Delta, DeltaKind, StreamingItem};
use oxlive::error::{non_existing_tuple_deleted, QueryEvaluationError};
use oxlive::join_state::SymmetricJoinIterator;
use oxlive::join_values::{
    JoinResult, JoinSide, SymmetricHashJoinValues, SymmetricNestedLoopJoinValues,
};
use oxlive::model::{Text, Variable};
use oxlive::numeric_encoder::EncodedTerm;
use oxlive::operators::{ProjectOperator, ValuesOperator};
use oxlive::stats::{span_units, NodeLabel, NodeStats, Timer};
use oxlive::tuple::{
    encode_variable, position, put_pattern_value, InternalTuple, InternalTupleSet, TupleSelector,
};

fn value(number: i64) -> EncodedTerm {
    EncodedTerm::IntegerLiteral(number)
}

/// A row with the given values; zero is no value.
fn row(values: &[i64]) -> InternalTuple {
    let mut tuple = InternalTuple::new();
    for (column, number) in values.iter().enumerate() {
        if *number != 0 {
            tuple.set(column, value(*number));
        }
    }
    tuple
}

fn shown(tuple: &InternalTuple, width: usize) -> Vec<i64> {
    (0..width)
        .map(|column| match tuple.get(column) {
            Some(EncodedTerm::IntegerLiteral(number)) => number,
            _ => 0,
        })
        .collect()
}

fn told(results: Vec<JoinResult>) -> Vec<(DeltaKind, Vec<i64>)> {
    let mut all: Vec<(DeltaKind, Vec<i64>)> = results
        .into_iter()
        .map(|result| {
            let (kind, tuple) = result.ok().unwrap().into_parts();
            (kind, shown(&tuple, 3))
        })
        .collect();
    all.sort_by_key(|entry| format!("{entry:?}"));
    all
}

#[test]
fn a_row_has_values_in_its_columns() {
    let mut tuple = InternalTuple::new();
    assert_eq!(tuple.get(3), None);
    tuple.set(2, value(7));
    assert_eq!(tuple.get(2), Some(value(7)));
    assert_eq!(tuple.get(0), None);
    tuple.set(2, value(8));
    assert_eq!(tuple.get(2), Some(value(8)));
    assert!(tuple.duplicate().same(&tuple));
    assert!(!tuple.same(&row(&[0, 0, 7])));
}

#[test]
fn rows_combine_where_they_agree() {
    let left = row(&[1, 2]);
    let combined = left.combine_with(&row(&[0, 2, 3])).unwrap();
    assert_eq!(shown(&combined, 3), vec![1, 2, 3]);
    assert!(left.combine_with(&row(&[0, 5, 3])).is_none());
    let combined = row(&[0, 0, 4]).combine_with(&left).unwrap();
    assert_eq!(shown(&combined, 3), vec![1, 2, 4]);
}

#[test]
fn variables_have_columns_in_the_order_in_which_they_are_met() {
    let name = |name: &str| Variable { name: Text::new(name.as_bytes().to_vec()) };
    let mut variables: Vec<Variable> = vec![];
    assert_eq!(encode_variable(&mut variables, &name("a")), 0);
    assert_eq!(encode_variable(&mut variables, &name("b")), 1);
    assert_eq!(encode_variable(&mut variables, &name("a")), 0);
    assert_eq!(variables.len(), 2);
}

#[test]
fn selectors_take_and_check_values() {
    let mut tuple = row(&[1]);
    assert_eq!(TupleSelector::Constant(value(9)).get_pattern_value(&tuple), Some(value(9)));
    assert_eq!(TupleSelector::Variable(0).get_pattern_value(&tuple), Some(value(1)));
    assert_eq!(TupleSelector::Variable(1).get_pattern_value(&tuple), None);
    assert!(put_pattern_value(&TupleSelector::Constant(value(9)), value(9), &mut tuple));
    assert!(put_pattern_value(&TupleSelector::Variable(0), value(1), &mut tuple));
    assert!(!put_pattern_value(&TupleSelector::Variable(0), value(2), &mut tuple));
    assert!(put_pattern_value(&TupleSelector::Variable(1), value(2), &mut tuple));
    assert_eq!(shown(&tuple, 2), vec![1, 2]);
}

#[test]
fn a_row_set_files_rows_under_their_keys() {
    let mut set = InternalTupleSet::new(vec![0]);
    let hash = set.tuple_key(&row(&[1, 2]));
    assert_eq!(hash, set.tuple_key(&row(&[1, 3])));
    assert_ne!(hash, set.tuple_key(&row(&[2, 2])));
    set.insert(hash, row(&[1, 2]));
    set.insert(hash, row(&[1, 2]));
    set.insert(hash, row(&[1, 3]));
    assert_eq!(set.get(hash).unwrap().len(), 3);
    assert_eq!(position(set.get(hash).unwrap(), &row(&[1, 4])), None);
    assert!(set.remove_one(hash, &row(&[1, 2])));
    assert!(set.remove_one(hash, &row(&[1, 2])));
    assert!(!set.remove_one(hash, &row(&[1, 2])));
    assert_eq!(position(set.get(hash).unwrap(), &row(&[1, 3])), Some(0));
    assert!(set.remove_one(hash, &row(&[1, 3])));
    assert!(set.get(hash).is_none() || set.get(hash).unwrap().is_empty());
}

fn hash_join(
    join: &mut SymmetricHashJoinValues,
    side: JoinSide,
    changes: Vec<Delta<InternalTuple>>,
) -> Vec<JoinResult> {
    let mut all: Vec<JoinResult> = vec![];
    for change in changes {
        let mut results: Vec<JoinResult> = vec![];
        join.take(side, change, &mut results);
        all.append(&mut results);
    }
    join.settle(side, &mut all);
    all
}

#[test]
fn a_hash_join_pairs_rows_with_equal_keys() {
    let mut join = SymmetricHashJoinValues::new(vec![1]);
    let added = hash_join(&mut join, JoinSide::Left, vec![Delta::addition(row(&[1, 2]))]);
    assert_eq!(told(added), vec![]);
    let added = hash_join(
        &mut join,
        JoinSide::Right,
        vec![Delta::addition(row(&[0, 2, 3])), Delta::addition(row(&[0, 9, 3]))],
    );
    assert_eq!(told(added), vec![(DeltaKind::Addition, vec![1, 2, 3])]);
    let deleted = hash_join(&mut join, JoinSide::Right, vec![Delta::deletion(row(&[0, 2, 3]))]);
    assert_eq!(told(deleted), vec![(DeltaKind::Deletion, vec![1, 2, 3])]);
}

#[test]
fn a_hash_join_takes_changes_in_their_order() {
    let mut join = SymmetricHashJoinValues::new(vec![1]);
    hash_join(&mut join, JoinSide::Right, vec![Delta::addition(row(&[0, 2, 3]))]);
    let there_and_back = hash_join(
        &mut join,
        JoinSide::Left,
        vec![Delta::addition(row(&[1, 2])), Delta::deletion(row(&[1, 2]))],
    );
    assert_eq!(
        told(there_and_back),
        vec![(DeltaKind::Addition, vec![1, 2, 3]), (DeltaKind::Deletion, vec![1, 2, 3])],
    );
    let mut early = hash_join(
        &mut join,
        JoinSide::Left,
        vec![Delta::deletion(row(&[1, 2])), Delta::addition(row(&[1, 2]))],
    );
    assert_eq!(early.pop().unwrap().err(), Some(QueryEvaluationError::NonExistingTupleDeleted));
}

#[test]
fn a_nested_loop_join_pairs_rows_that_agree() {
    let mut join = SymmetricNestedLoopJoinValues::new();
    let mut none: Vec<JoinResult> = vec![];
    join.take(JoinSide::Left, Delta::addition(row(&[1])), &mut none);
    join.take(JoinSide::Left, Delta::addition(row(&[1, 2])), &mut none);
    assert_eq!(none.len(), 0);
    let mut results: Vec<JoinResult> = vec![];
    join.take(JoinSide::Right, Delta::addition(row(&[0, 5, 3])), &mut results);
    assert_eq!(told(results), vec![(DeltaKind::Addition, vec![1, 5, 3])]);
    join.take(JoinSide::Right, Delta::deletion(row(&[0, 6, 3])), &mut none);
    assert_eq!(none.len(), 0);
    let mut results: Vec<JoinResult> = vec![];
    join.take(JoinSide::Left, Delta::deletion(row(&[1])), &mut results);
    assert_eq!(told(results), vec![(DeltaKind::Deletion, vec![1, 5, 3])]);
}

#[test]
fn a_join_takes_turns() {
    let mut join = SymmetricJoinIterator::by_hash(vec![0]);
    assert_eq!(join.active_side(), JoinSide::Left);
    join.take(Delta::addition(row(&[1, 2])));
    join.settle();
    assert!(join.is_empty());
    join.switch_side();
    assert_eq!(join.active_side(), JoinSide::Right);
    assert_eq!(JoinSide::Right.other(), JoinSide::Left);
    join.take(Delta::addition(row(&[1, 0, 3])));
    assert!(!join.is_empty());
    let (kind, tuple) = join.pop().unwrap().ok().unwrap().into_parts();
    assert_eq!((kind, shown(&tuple, 3)), (DeltaKind::Addition, vec![1, 2, 3]));
    join.end_active_side();
    assert!(join.is_done(JoinSide::Right));
    assert!(!join.is_done(JoinSide::Left));
    join.fail(non_existing_tuple_deleted());
    assert_eq!(join.pop().unwrap().err(), Some(QueryEvaluationError::NonExistingTupleDeleted));
    assert!(join.pop().is_none());
}

#[test]
fn given_rows_are_handed_out_in_order() {
    let mut values = ValuesOperator::new(vec![row(&[1]), row(&[2])]);
    let expected: Vec<i64> = vec![1, 2];
    for number in expected {
        match values.next() {
            Some(Ok(StreamingItem::Item(change))) => {
                let (kind, tuple) = change.into_parts();
                assert_eq!((kind, shown(&tuple, 1)), (DeltaKind::Addition, vec![number]));
            }
            _ => panic!("there is a row"),
        }
    }
    assert!(values.next().is_none());
}

#[test]
fn a_projection_moves_columns_and_drops_contradictions() {
    let mut operator = ProjectOperator::new(row(&[0, 5]), vec![(0, 1), (1, 0)]);
    let change = operator.take(Delta::deletion(row(&[5, 7, 9]))).unwrap();
    let (kind, tuple) = change.into_parts();
    assert_eq!((kind, shown(&tuple, 3)), (DeltaKind::Deletion, vec![7, 5, 0]));
    assert!(operator.take(Delta::addition(row(&[6, 7]))).is_none());
}

#[test]
fn measured_times_add_up() {
    let timer = Timer::now();
    let first = timer.elapsed().unwrap();
    let second = timer.elapsed().unwrap();
    assert!(0 <= first && first <= second);
    let mut stats = NodeStats::new(NodeLabel::Join, true);
    assert_eq!(stats.exec_duration, Some(0));
    stats.add_time(Some(5));
    stats.add_time(Some(7));
    assert_eq!(stats.exec_duration, Some(12));
    stats.add_row();
    assert_eq!(stats.exec_count.count(), 1);
    stats.add_time(Some(i128::MAX));
    assert_eq!(stats.exec_duration, None);
    stats.add_time(Some(1));
    assert_eq!(stats.exec_duration, None);
    let untimed = NodeStats::new(NodeLabel::Values, false);
    assert_eq!(untimed.exec_duration, None);
}

#[test]
fn spans_of_time_are_counted_in_units() {
    assert_eq!(span_units(0, 0), Some(0));
    assert_eq!(span_units(0, 1), Some(1_000_000_000));
    assert_eq!(span_units(2, 500_000_000), Some(2_500_000_000_000_000_000));
    assert_eq!(
        span_units(u64::MAX, 999_999_999),
        Some(18_446_744_073_709_551_615_999_999_999_000_000_000),
    );
    let units = Timer::now().elapsed().unwrap();
    assert!(units >= 0);
    assert_eq!(units % 1_000_000_000, 0);
}

#[test]
fn a_join_of_all_rows_passes_over_a_deletion_of_what_is_not_there() {
    let mut join = SymmetricJoinIterator::by_nested_loop();
    join.take(Delta::addition(row(&[1, 2])));
    join.switch_side();
    join.take(Delta::addition(row(&[1, 0, 3])));
    assert!(join.pop().is_some());
    join.take(Delta::deletion(row(&[4, 0, 3])));
    join.settle();
    assert!(join.is_empty());
    join.take(Delta::deletion(row(&[1, 0, 3])));
    join.settle();
    match join.pop() {
        Some(Ok(change)) => {
            assert_eq!(change.kind(), DeltaKind::Deletion);
            assert_eq!(shown(change.value(), 3), vec![1, 2, 3]);
        }
        _ => panic!("the joined row is deleted"),
    }
    assert!(join.is_empty());
}
