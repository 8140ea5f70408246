//! Queries that are ready to run.

use crate::algebra::{inner_row, lemma_inner_row_proper, proper, PlanView};
use crate::bag::{filter_map, lemma_filter_map_push};
use crate::eval_dataset::EvalDataset;
use crate::join_state::SymmetricJoinIterator;
use crate::join_values::JoinSide;
use crate::listing::patterns_of;
use crate::node::DeltaNode;
use crate::numeric_encoder::{EncodedQuad, EncodedTerm};
use crate::opening::{at_start, lemma_opened_add, lemma_opened_none, opened};
use crate::operators::{ProjectOperator, QuadPatternOperator, ValuesOperator};
use crate::quad_stream::{names_graph, QuadShape};
use crate::stats::{changes_in, no_time, total_of, NodeLabel, NodeStats, StatsView, Timer};
use crate::storage::Storage;
use crate::subscription::{read_pattern, IncrementalQuadPattern};
use crate::tuple::{combined, rows, InternalTuple, TupleSelector, TupleView};
use vstd::prelude::*;

verus! {

/// A query whose variables are columns and whose terms are encoded.
pub enum Plan {
    Values { tuples: Vec<InternalTuple> },
    QuadPattern {
        subject: TupleSelector,
        predicate: TupleSelector,
        object: TupleSelector,
        graph_name: Option<TupleSelector>,
    },
    Join { left: Box<Plan>, right: Box<Plan>, keys: Vec<usize> },
    Project { inner: Box<Plan>, mapping: Vec<(usize, usize)> },
    Stats { inner: Box<Plan>, label: NodeLabel, run_stats: bool },
}

impl Plan {
    pub open spec fn view(&self) -> PlanView
        decreases self,
    {
        match self {
            Plan::Values { tuples } => PlanView::Values { rows: rows(tuples@) },
            Plan::QuadPattern { subject, predicate, object, graph_name } => {
                PlanView::QuadPattern {
                    subject: *subject,
                    predicate: *predicate,
                    object: *object,
                    graph_name: *graph_name,
                }
            },
            Plan::Join { left, right, keys } => PlanView::Join {
                left: Box::new(left.view()),
                right: Box::new(right.view()),
                keys: keys@,
            },
            Plan::Project { inner, mapping } => PlanView::Project {
                inner: Box::new(inner.view()),
                mapping: mapping@,
            },
            Plan::Stats { inner, .. } => inner.view(),
        }
    }

    /// Whether every column has a place in a row.
    pub open spec fn wf(&self) -> bool
        decreases self,
    {
        match self {
            Plan::Values { .. } => true,
            Plan::QuadPattern { subject, predicate, object, graph_name } => {
                &&& subject.in_range()
                &&& predicate.in_range()
                &&& object.in_range()
                &&& graph_name matches Some(graph_name) ==> graph_name.in_range() && graph_name
                    != TupleSelector::Constant(EncodedTerm::DefaultGraph)
            },
            Plan::Join { left, right, .. } => left.wf() && right.wf(),
            Plan::Project { inner, mapping } => inner.wf() && forall|i: int|
                0 <= i < mapping@.len() ==> (#[trigger] mapping@[i]).0 < usize::MAX
                    && mapping@[i].1 < usize::MAX,
            Plan::Stats { inner, .. } => inner.wf(),
        }
    }

    /// The kinds of the nodes, before anything is measured.
    pub open spec fn outline(&self) -> Seq<StatsView>
        decreases self,
    {
        match self {
            Plan::Values { .. } => Seq::empty(),
            Plan::QuadPattern { .. } => Seq::empty(),
            Plan::Join { left, right, .. } => left.outline() + right.outline(),
            Plan::Project { inner, .. } => inner.outline(),
            Plan::Stats { inner, label, run_stats } => seq![
                StatsView {
                    label: *label,
                    children: inner.outline(),
                    exec_count: 0,
                    exec_duration: no_time(*run_stats),
                },
            ],
        }
    }

    /// Runs the plan in the context of a row.
    pub fn start(
        &self,
        dataset: &EvalDataset,
        storage: &mut Storage,
        from: InternalTuple,
        notifier: usize,
    ) -> (node: DeltaNode)
        requires
            self.wf(),
            dataset.wf(),
            old(storage).wf(),
        ensures
            node.wf(),
            node.consistent(),
            node.held() == Seq::<TupleView>::empty(),
            node.outline() == self.outline(),
            node.replies().len() == 0,
            self@.given() ==> node.additive(),
            proper(from@) ==> !node.blind(),
            node.clean(),
            final(storage).registry() == old(storage).registry(),
            opened(
                node.sources(),
                self@.asks(from@, dataset.default_graphs(), dataset.named_graphs()),
                dataset.dataset().reader(),
                *old(storage),
                *final(storage),
                notifier,
            ),
            forall|listing: Seq<EncodedQuad>| #[trigger]
                node.answer(listing) == self@.answer(
                    from@,
                    dataset.default_graphs(),
                    dataset.named_graphs(),
                    listing,
                ),
        decreases self,
    {
        let ghost first = *storage;
        let ghost reader = dataset.dataset().reader();
        let ghost default_graphs = dataset.default_graphs();
        let ghost named_graphs = dataset.named_graphs();
        match self {
            Plan::Values { tuples } => {
                proof {
                    lemma_opened_none(reader, first, notifier);
                }
                DeltaNode::Values(ValuesOperator::new(compatible_rows(&from, tuples)))
            },
            Plan::QuadPattern { subject, predicate, object, graph_name } => {
                let input_subject = subject.get_pattern_value(&from);
                let input_predicate = predicate.get_pattern_value(&from);
                let input_object = object.get_pattern_value(&from);
                let input_graph_name = match graph_name {
                    Some(selector) => match selector.get_pattern_value(&from) {
                        Some(name) => Some(Some(name)),
                        None => None,
                    },
                    None => Some(from.graph_name),
                };
                let quads = dataset.internal_quad_deltas_for_pattern(
                    storage,
                    input_subject,
                    input_predicate,
                    input_object,
                    input_graph_name,
                    notifier,
                );
                let ghost row = from@;
                let ghost sources = quads.sources();
                let ghost shape = quads.shape();
                let operator = QuadPatternOperator::new(
                    quads,
                    from,
                    *subject,
                    *predicate,
                    *object,
                    *graph_name,
                );
                let node = DeltaNode::QuadPattern(operator);
                proof {
                    let asks = self@.asks(row, default_graphs, named_graphs);
                    let patterns = asks.map_values(|ask: IncrementalQuadPattern| read_pattern(ask));
                    assert forall|i: int| 0 <= i < sources.len() implies patterns_of(sources)[i]
                        == patterns[i] by {
                        assert(at_start(sources[i], asks[i], reader, first, *storage, notifier));
                    }
                    assert(patterns_of(sources) =~= patterns);
                    if graph_name is Some && proper(row) {
                        assert forall|i: int| 0 <= i < sources.len() && shape
                            == QuadShape::Plain implies names_graph(
                            (#[trigger] sources[i]).pattern(),
                        ) by {
                            assert(patterns_of(sources)[i] == patterns[i]);
                        }
                    }
                }
                node
            },
            Plan::Join { left, right, keys } => {
                let ghost row = from@;
                let left_node = left.start(dataset, storage, from.duplicate(), notifier);
                let ghost second = *storage;
                let right_node = right.start(dataset, storage, from, notifier);
                proof {
                    lemma_opened_add(
                        left_node.sources(),
                        left@.asks(row, default_graphs, named_graphs),
                        right_node.sources(),
                        right@.asks(row, default_graphs, named_graphs),
                        reader,
                        first,
                        second,
                        *storage,
                        notifier,
                    );
                }
                let join = if keys.len() == 0 {
                    SymmetricJoinIterator::by_nested_loop()
                } else {
                    SymmetricJoinIterator::by_hash(copied_keys(keys))
                };
                let node = DeltaNode::Join {
                    left: Box::new(left_node),
                    right: Box::new(right_node),
                    join,
                };
                proof {
                    assert(join.told(JoinSide::Left) == Seq::<TupleView>::empty());
                    assert(join.told(JoinSide::Right) == Seq::<TupleView>::empty());
                    assert(!join.done(JoinSide::Left) && !join.done(JoinSide::Right));
                    assert forall|listing: Seq<EncodedQuad>| #[trigger]
                        node.answer(listing) == self@.answer(
                            row,
                            default_graphs,
                            named_graphs,
                            listing,
                        ) by {
                        assert(left_node.answer(listing) == left@.answer(
                            row,
                            default_graphs,
                            named_graphs,
                            listing,
                        ));
                        assert(right_node.answer(listing) == right@.answer(
                            row,
                            default_graphs,
                            named_graphs,
                            listing,
                        ));
                    }
                }
                node
            },
            Plan::Project { inner, mapping } => {
                let ghost row = from@;
                let input_tuple = projected_input(&from, mapping);
                let ghost input_row = input_tuple@;
                let inner_node = inner.start(dataset, storage, input_tuple, notifier);
                let operator = ProjectOperator::new(from, copied_mapping(mapping));
                let node = DeltaNode::Project { inner: Box::new(inner_node), operator };
                proof {
                    if proper(row) {
                        lemma_inner_row_proper(row, mapping@);
                    }
                    assert(filter_map(inner_node.held(), operator.projection()) =~= Seq::empty());
                    assert forall|listing: Seq<EncodedQuad>| #[trigger]
                        node.answer(listing) == self@.answer(
                            row,
                            default_graphs,
                            named_graphs,
                            listing,
                        ) by {
                        assert(inner_node.answer(listing) == inner@.answer(
                            input_row,
                            default_graphs,
                            named_graphs,
                            listing,
                        ));
                    }
                }
                node
            },
            Plan::Stats { inner, label, run_stats } => {
                let ghost row = from@;
                let mut stats = NodeStats::new(*label, *run_stats);
                let inner_node = if *run_stats {
                    let timer = Timer::now();
                    let inner_node = inner.start(dataset, storage, from, notifier);
                    stats.add_time(timer.elapsed());
                    inner_node
                } else {
                    inner.start(dataset, storage, from, notifier)
                };
                let node = DeltaNode::Stats { inner: Box::new(inner_node), stats };
                proof {
                    if *run_stats {
                        assert(stats.spans@.drop_last() =~= Seq::empty());
                        assert(total_of(stats.spans@.drop_last()) == Some(0i128));
                    }
                    assert(changes_in(stats.replies@) =~= Seq::empty());
                    assert forall|listing: Seq<EncodedQuad>| #[trigger]
                        node.answer(listing) == self@.answer(
                            row,
                            default_graphs,
                            named_graphs,
                            listing,
                        ) by {
                        assert(inner_node.answer(listing) == inner@.answer(
                            row,
                            default_graphs,
                            named_graphs,
                            listing,
                        ));
                    }
                }
                node
            },
        }
    }
}

/// The rows combined with a row, without those that are not compatible with it.
fn compatible_rows(from: &InternalTuple, tuples: &Vec<InternalTuple>) -> (found: Vec<
    InternalTuple,
>)
    ensures
        rows(found@) == filter_map(rows(tuples@), |row: TupleView| combined(from@, row)),
{
    let ghost f = |row: TupleView| combined(from@, row);
    let ghost all = rows(tuples@);
    let mut found: Vec<InternalTuple> = Vec::new();
    let mut next: usize = 0;
    proof {
        assert(all.take(0) =~= Seq::empty());
        assert(rows(found@) =~= filter_map(all.take(0), f));
    }
    while next < tuples.len()
        invariant
            next <= tuples@.len(),
            all == rows(tuples@),
            f == (|row: TupleView| combined(from@, row)),
            rows(found@) == filter_map(all.take(next as int), f),
        decreases tuples@.len() - next,
    {
        let ghost so_far = rows(found@);
        proof {
            lemma_filter_map_push(all.take(next as int), all[next as int], f);
            assert(all.take(next as int).push(all[next as int]) =~= all.take(next + 1));
        }
        if let Some(tuple) = from.combine_with(&tuples[next]) {
            found.push(tuple);
            assert(rows(found@) =~= so_far.push(tuple@));
        }
        next = next + 1;
    }
    assert(all.take(next as int) =~= all);
    found
}

fn copied_keys(keys: &Vec<usize>) -> (copy: Vec<usize>)
    ensures
        copy@ == keys@,
{
    let mut copy: Vec<usize> = Vec::new();
    let mut next: usize = 0;
    while next < keys.len()
        invariant
            next <= keys@.len(),
            copy@ == keys@.take(next as int),
        decreases keys@.len() - next,
    {
        copy.push(keys[next]);
        next = next + 1;
    }
    assert(copy@ =~= keys@);
    copy
}

fn copied_mapping(mapping: &Vec<(usize, usize)>) -> (copy: Vec<(usize, usize)>)
    ensures
        copy@ == mapping@,
{
    let mut copy: Vec<(usize, usize)> = Vec::new();
    let mut next: usize = 0;
    while next < mapping.len()
        invariant
            next <= mapping@.len(),
            copy@ == mapping@.take(next as int),
        decreases mapping@.len() - next,
    {
        copy.push(mapping[next]);
        next = next + 1;
    }
    assert(copy@ =~= mapping@);
    copy
}

/// The row in whose context an inner query is evaluated.
fn projected_input(from: &InternalTuple, mapping: &Vec<(usize, usize)>) -> (input: InternalTuple)
    requires
        forall|i: int| 0 <= i < mapping@.len() ==> (#[trigger] mapping@[i]).0 < usize::MAX,
    ensures
        input@ == inner_row(from@, mapping@),
{
    let mut input = InternalTuple::new();
    input.graph_name = from.graph_name;
    let mut next: usize = 0;
    while next < mapping.len()
        invariant
            next <= mapping@.len(),
            forall|i: int| 0 <= i < mapping@.len() ==> (#[trigger] mapping@[i]).0 < usize::MAX,
            input@ == inner_row(from@, mapping@.take(next as int)),
        decreases mapping@.len() - next,
    {
        let (input_key, output_key) = mapping[next];
        proof {
            assert(mapping@.take(next + 1).drop_last() =~= mapping@.take(next as int));
            assert(mapping@[next as int].0 < usize::MAX);
        }
        if let Some(value) = from.get(output_key) {
            input.set(input_key, value);
        }
        next = next + 1;
    }
    assert(mapping@.take(next as int) =~= mapping@);
    input
}

} // verus!
