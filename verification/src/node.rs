//! The nodes of a running query.

use crate::attachment::{
    all_sound, lemma_nothing_waits_add, lemma_refilled_add, lemma_released_add, nothing_waits,
    refilled, released,
};
use crate::bag::{
    count, filter_map, lemma_count, lemma_filter_map_same_bag, lemma_filter_map_sub_bag,
    lemma_same_bag_transitive, lemma_sub_bag_len, lemma_weight_same_bag, same_bag, sub_bag,
};
use crate::delta::{Delta, DeltaKind, StreamingItem};
use crate::error::QueryEvaluationError;
use crate::graphs::{lemma_same, lemma_same_transitive};
use crate::join::{joined, lemma_joined_same, lemma_joined_sub_bag};
use crate::join_state::{balance, lemma_balance, rows_given, SymmetricJoinIterator};
use crate::join_values::{delta_view, of_kind, result_rows, JoinResult, JoinSide};
use crate::listing::{all_picked, lead_to, lemma_led_to_picked, patterns_of, picked};
use crate::numeric_encoder::EncodedQuad;
use crate::operators::{
    accounted, item_view, justified, may_come, ProjectOperator, QuadPatternOperator, TupleItem,
    ValuesOperator,
};
use crate::quad_stream::{lemma_shaped_same, shaped};
use crate::replay::{
    additions, applies, flows, lemma_mapped_pause, lemma_mapped_step, lemma_only_additions,
    lemma_played_push, lemma_same_step, only_additions, played, step, Flow,
};
use crate::source::LiveQuadDeltaSource;
use crate::stats::{
    changes_in, lemma_changes_push, no_time, views, EvalNodeWithStats, NodeStats, Reply, StatsView,
    Timer,
};
use crate::storage::Storage;
use crate::streams::{
    failing, keeps_course, led_to, lemma_on_course_transitive, lemma_same_failures, lemma_same_left,
    none_failing, on_course, same_failures, same_subscriptions, source_goal,
};
use crate::tuple::TupleView;
use vstd::prelude::*;

verus! {

/// A node of a running query: an operator and the nodes that it gets its rows from.
pub enum DeltaNode {
    Values(ValuesOperator),
    QuadPattern(QuadPatternOperator),
    Join { left: Box<DeltaNode>, right: Box<DeltaNode>, join: SymmetricJoinIterator },
    Project { inner: Box<DeltaNode>, operator: ProjectOperator },
    Stats { inner: Box<DeltaNode>, stats: NodeStats },
}

/// How many results a join can hand out at most: `a` and `b` are how many rows of either
/// side it has heard of, `x` and `y` how many changes either side can hand out at most.
pub open spec fn join_fuel(buffered: nat, a: nat, b: nat, x: nat, y: nat) -> nat {
    buffered + x * (b + y + 1) + y * (a + x + 1)
}

proof fn lemma_join_fuel(k: nat, a: nat, b: nat, x: nat, y: nat, new_a: nat, new_x: nat)
    by (nonlinear_arith)
    requires
        new_x <= x,
        new_a + new_x <= a + x,
        k <= b,
        k > 0 ==> new_x < x,
    ensures
        join_fuel(k, new_a, b, new_x, y) <= join_fuel(0, a, b, x, y),
{
    if k > 0 {
        assert(new_x * (b + y + 1) + (b + y + 1) <= x * (b + y + 1));
    } else {
        assert(new_x * (b + y + 1) <= x * (b + y + 1));
    }
    assert(y * (new_a + new_x + 1) <= y * (a + x + 1));
}

proof fn lemma_join_fuel_none(a: nat, b: nat)
    by (nonlinear_arith)
    ensures
        join_fuel(0, a, b, 0, 0) == 0,
{
}

impl DeltaNode {
    pub open spec fn height(&self) -> nat
        decreases self,
    {
        match self {
            DeltaNode::Values(_) => 0,
            DeltaNode::QuadPattern(_) => 0,
            DeltaNode::Join { left, right, .. } => 1 + left.height() + right.height(),
            DeltaNode::Project { inner, .. } => 1 + inner.height(),
            DeltaNode::Stats { inner, .. } => 1 + inner.height(),
        }
    }

    /// The sources of changes, from left to right.
    pub open spec fn sources(&self) -> Seq<LiveQuadDeltaSource>
        decreases self,
    {
        match self {
            DeltaNode::Values(_) => Seq::empty(),
            DeltaNode::QuadPattern(operator) => operator.sources(),
            DeltaNode::Join { left, right, .. } => left.sources() + right.sources(),
            DeltaNode::Project { inner, .. } => inner.sources(),
            DeltaNode::Stats { inner, .. } => inner.sources(),
        }
    }

    /// Whether further changes may come.
    pub open spec fn live(&self) -> bool
        decreases self,
    {
        match self {
            DeltaNode::Values(_) => false,
            DeltaNode::QuadPattern(operator) => operator.live(),
            DeltaNode::Join { left, right, .. } => left.live() || right.live(),
            DeltaNode::Project { inner, .. } => inner.live(),
            DeltaNode::Stats { inner, .. } => inner.live(),
        }
    }

    /// Whether no error waits to be handed out, and no failure was passed over.
    pub open spec fn clean(&self) -> bool
        decreases self,
    {
        match self {
            DeltaNode::Values(_) => true,
            DeltaNode::QuadPattern(_) => true,
            DeltaNode::Join { left, right, join } => {
                &&& left.clean()
                &&& right.clean()
                &&& no_errors(join.buffered())
                &&& join.done(JoinSide::Left) ==> none_failing(left.sources())
                &&& join.done(JoinSide::Right) ==> none_failing(right.sources())
            },
            DeltaNode::Project { inner, .. } => inner.clean(),
            DeltaNode::Stats { inner, .. } => inner.clean(),
        }
    }

    /// Whether a quad of a graph without a name may turn up although a name is asked for.
    pub open spec fn blind(&self) -> bool
        decreases self,
    {
        match self {
            DeltaNode::Values(_) => false,
            DeltaNode::QuadPattern(operator) => operator.blind(),
            DeltaNode::Join { left, right, .. } => left.blind() || right.blind(),
            DeltaNode::Project { inner, .. } => inner.blind(),
            DeltaNode::Stats { inner, .. } => inner.blind(),
        }
    }

    pub open spec fn wf(&self) -> bool
        decreases self,
    {
        match self {
            DeltaNode::Values(_) => true,
            DeltaNode::QuadPattern(operator) => operator.wf(),
            DeltaNode::Join { left, right, join } => {
                &&& left.wf()
                &&& right.wf()
                &&& join.wf()
                &&& join.settled()
                &&& join.playable()
                &&& join.done(JoinSide::Left) ==> !left.live() && left.fuel() == 0
                &&& join.done(JoinSide::Right) ==> !right.live() && right.fuel() == 0
            },
            DeltaNode::Project { inner, operator } => inner.wf() && operator.wf(),
            DeltaNode::Stats { inner, stats } => {
                &&& inner.wf()
                &&& stats.wf()
                &&& inner.held() == played(Seq::empty(), changes_in(stats.replies@))
            },
        }
    }

    /// The rows that the consumer holds.
    pub open spec fn held(&self) -> Seq<TupleView>
        decreases self,
    {
        match self {
            DeltaNode::Values(operator) => operator.held(),
            DeltaNode::QuadPattern(operator) => operator.held(),
            DeltaNode::Join { join, .. } => join.held(),
            DeltaNode::Project { operator, .. } => operator.held(),
            DeltaNode::Stats { inner, .. } => inner.held(),
        }
    }

    /// The rows that the changes that are known lead to.
    pub open spec fn goal(&self) -> Seq<TupleView>
        decreases self,
    {
        match self {
            DeltaNode::Values(operator) => operator.goal(),
            DeltaNode::QuadPattern(operator) => operator.goal(),
            DeltaNode::Join { left, right, join } => joined(
                left.goal(),
                right.goal(),
                join.pairing(),
            ),
            DeltaNode::Project { inner, operator } => filter_map(
                inner.goal(),
                operator.projection(),
            ),
            DeltaNode::Stats { inner, .. } => inner.goal(),
        }
    }

    /// The rows that the query has over a list of quads.
    pub open spec fn answer(&self, listing: Seq<EncodedQuad>) -> Seq<TupleView>
        decreases self,
    {
        match self {
            DeltaNode::Values(operator) => operator.goal(),
            DeltaNode::QuadPattern(operator) => filter_map(
                shaped(
                    operator.quads().shape(),
                    all_picked(listing, patterns_of(operator.sources())),
                ),
                operator.matched(),
            ),
            DeltaNode::Join { left, right, join } => joined(
                left.answer(listing),
                right.answer(listing),
                join.pairing(),
            ),
            DeltaNode::Project { inner, operator } => filter_map(
                inner.answer(listing),
                operator.projection(),
            ),
            DeltaNode::Stats { inner, .. } => inner.answer(listing),
        }
    }

    /// Whether each operator holds what it should of what it was handed.
    pub open spec fn consistent(&self) -> bool
        decreases self,
    {
        match self {
            DeltaNode::Values(_) => true,
            DeltaNode::QuadPattern(operator) => operator.consistent(),
            DeltaNode::Join { left, right, join } => {
                &&& left.consistent()
                &&& right.consistent()
                &&& join.sound()
                &&& same_bag(join.told(JoinSide::Left), left.held())
                &&& same_bag(join.told(JoinSide::Right), right.held())
                &&& join.done(JoinSide::Left) ==> same_bag(left.held(), left.goal())
                &&& join.done(JoinSide::Right) ==> same_bag(right.held(), right.goal())
            },
            DeltaNode::Project { inner, operator } => {
                &&& inner.consistent()
                &&& same_bag(operator.held(), filter_map(inner.held(), operator.projection()))
            },
            DeltaNode::Stats { inner, .. } => inner.consistent(),
        }
    }

    /// How many changes can be handed out at most.
    pub open spec fn fuel(&self) -> nat
        decreases self,
    {
        match self {
            DeltaNode::Values(operator) => operator.fuel(),
            DeltaNode::QuadPattern(operator) => operator.fuel(),
            DeltaNode::Join { left, right, join } => join_fuel(
                join.buffered().len(),
                join.told(JoinSide::Left).len(),
                join.told(JoinSide::Right).len(),
                left.fuel(),
                right.fuel(),
            ),
            DeltaNode::Project { inner, .. } => inner.fuel(),
            DeltaNode::Stats { inner, .. } => inner.fuel(),
        }
    }

    /// Whether what is handed out can be relied on.
    pub open spec fn sound(&self) -> bool {
        self.consistent() && all_sound(self.sources())
    }

    pub open spec fn flow(&self) -> Flow<TupleView> {
        Flow {
            held: self.held(),
            goal: self.goal(),
            sound: self.sound(),
            fuel: self.fuel(),
            live: self.live(),
        }
    }

    /// What was measured.
    pub open spec fn measured(&self) -> Seq<StatsView>
        decreases self,
    {
        match self {
            DeltaNode::Values(_) => Seq::empty(),
            DeltaNode::QuadPattern(_) => Seq::empty(),
            DeltaNode::Join { left, right, .. } => left.measured() + right.measured(),
            DeltaNode::Project { inner, .. } => inner.measured(),
            DeltaNode::Stats { inner, stats } => seq![
                StatsView {
                    label: stats.label,
                    children: inner.measured(),
                    exec_count: stats.exec_count@,
                    exec_duration: stats.exec_duration,
                },
            ],
        }
    }

    /// The kinds of the nodes, before anything is measured.
    pub open spec fn outline(&self) -> Seq<StatsView>
        decreases self,
    {
        match self {
            DeltaNode::Values(_) => Seq::empty(),
            DeltaNode::QuadPattern(_) => Seq::empty(),
            DeltaNode::Join { left, right, .. } => left.outline() + right.outline(),
            DeltaNode::Project { inner, .. } => inner.outline(),
            DeltaNode::Stats { inner, stats } => seq![
                StatsView {
                    label: stats.label,
                    children: inner.outline(),
                    exec_count: 0,
                    exec_duration: no_time(stats.run_stats),
                },
            ],
        }
    }

    /// What a node of which is noted what it answers has answered so far.
    pub open spec fn replies(&self) -> Seq<Reply> {
        match self {
            DeltaNode::Stats { stats, .. } => stats.replies@,
            _ => Seq::empty(),
        }
    }

    /// Whether all rows are given, so that changes only add rows.
    pub open spec fn additive(&self) -> bool
        decreases self,
    {
        match self {
            DeltaNode::Values(_) => true,
            DeltaNode::QuadPattern(_) => false,
            DeltaNode::Join { left, right, join } => {
                &&& left.additive()
                &&& right.additive()
                &&& of_kind(join.buffered(), DeltaKind::Addition)
            },
            DeltaNode::Project { inner, .. } => inner.additive(),
            DeltaNode::Stats { inner, stats } => inner.additive() && only_additions(
                changes_in(stats.replies@),
            ),
        }
    }
}

/// Whether a node is another one later: it and the nodes that it gets its rows from have
/// answered what they had, and perhaps more.
pub open spec fn progressed(before: DeltaNode, after: DeltaNode) -> bool
    decreases before,
{
    match (before, after) {
        (DeltaNode::Values(_), DeltaNode::Values(_)) => true,
        (DeltaNode::QuadPattern(_), DeltaNode::QuadPattern(_)) => true,
        (
            DeltaNode::Join { left, right, .. },
            DeltaNode::Join { left: new_left, right: new_right, .. },
        ) => progressed(*left, *new_left) && progressed(*right, *new_right),
        (DeltaNode::Project { inner, .. }, DeltaNode::Project { inner: new_inner, .. }) =>
        progressed(*inner, *new_inner),
        (
            DeltaNode::Stats { inner, stats },
            DeltaNode::Stats { inner: new_inner, stats: new_stats },
        ) => progressed(*inner, *new_inner) && new_stats.follows(stats),
        _ => false,
    }
}

pub(crate) proof fn lemma_progressed(node: DeltaNode)
    ensures
        progressed(node, node),
    decreases node,
{
    match node {
        DeltaNode::Values(_) => {},
        DeltaNode::QuadPattern(_) => {},
        DeltaNode::Join { left, right, .. } => {
            lemma_progressed(*left);
            lemma_progressed(*right);
        },
        DeltaNode::Project { inner, .. } => lemma_progressed(*inner),
        DeltaNode::Stats { inner, .. } => lemma_progressed(*inner),
    }
}

pub(crate) proof fn lemma_progressed_transitive(a: DeltaNode, b: DeltaNode, c: DeltaNode)
    requires
        progressed(a, b),
        progressed(b, c),
    ensures
        progressed(a, c),
    decreases a,
{
    match (a, b, c) {
        (
            DeltaNode::Join { left, right, .. },
            DeltaNode::Join { left: left_b, right: right_b, .. },
            DeltaNode::Join { left: left_c, right: right_c, .. },
        ) => {
            lemma_progressed_transitive(*left, *left_b, *left_c);
            lemma_progressed_transitive(*right, *right_b, *right_c);
        },
        (
            DeltaNode::Project { inner, .. },
            DeltaNode::Project { inner: inner_b, .. },
            DeltaNode::Project { inner: inner_c, .. },
        ) => lemma_progressed_transitive(*inner, *inner_b, *inner_c),
        (
            DeltaNode::Stats { inner, .. },
            DeltaNode::Stats { inner: inner_b, .. },
            DeltaNode::Stats { inner: inner_c, .. },
        ) => lemma_progressed_transitive(*inner, *inner_b, *inner_c),
        _ => {},
    }
}

/// A node whose rows are given has no source, and no further changes come to it.
pub proof fn lemma_additive(node: DeltaNode)
    requires
        node.additive(),
    ensures
        node.sources().len() == 0,
        !node.live(),
        !node.blind(),
    decreases node,
{
    match node {
        DeltaNode::Join { left, right, .. } => {
            lemma_additive(*left);
            lemma_additive(*right);
        },
        DeltaNode::Project { inner, .. } => lemma_additive(*inner),
        DeltaNode::Stats { inner, .. } => lemma_additive(*inner),
        _ => {},
    }
}

/// What an item tells of a node whose rows are given: it adds a row, or there is none left.
pub open spec fn adds(before: DeltaNode, after: DeltaNode, item: TupleItem) -> bool {
    before.additive() && before.sound() ==> {
        &&& after.additive()
        &&& match item {
            Some(Ok(StreamingItem::Item(delta))) => delta.kind_of() == DeltaKind::Addition,
            None => true,
            _ => false,
        }
    }
}

/// Whether a node is another one at another moment, as long as no new changes are known.
pub open spec fn same_node(before: DeltaNode, after: DeltaNode) -> bool {
    same_shape(before, after) && on_course(before.sources(), after.sources())
}

/// Whether a node is another one at another moment.
pub open spec fn same_shape(before: DeltaNode, after: DeltaNode) -> bool {
    &&& after.wf()
    &&& after.height() == before.height()
    &&& after.blind() == before.blind()
    &&& after.live() == before.live()
    &&& progressed(before, after)
    &&& same_subscriptions(before.sources(), after.sources())
    &&& forall|listing: Seq<EncodedQuad>| #[trigger]
        after.answer(listing) == before.answer(listing)
}

/// The join node of these parts.
pub open spec fn join_node(left: DeltaNode, right: DeltaNode, join: SymmetricJoinIterator) -> DeltaNode {
    DeltaNode::Join { left: Box::new(left), right: Box::new(right), join }
}

/// What a poll of one side of a join has brought.
#[derive(Clone, Copy, PartialEq, Eq, Structural, Debug)]
pub enum PollState {
    Item,
    Pending,
    Done,
}

/// Whether no result is an error.
pub open spec fn no_errors(results: Seq<JoinResult>) -> bool {
    forall|i: int| 0 <= i < results.len() ==> (#[trigger] results[i]) is Ok
}

/// What an item of a node tells of the failures of its sources, as long as no error was
/// handed out.
pub open spec fn honest(before: DeltaNode, after: DeltaNode, alive: bool, item: TupleItem) -> bool {
    before.clean() ==> {
        &&& accounted(before.sources(), after.sources(), alive, item)
        &&& !(item matches Some(Err(_))) ==> after.clean()
    }
}

/// The results of a join end with an error.
pub open spec fn failed(join: SymmetricJoinIterator) -> bool {
    join.buffered().len() > 0 && join.buffered().last() is Err
}

/// Whether an error of a node that is in order is one that may come.
pub open spec fn tolerable(error: QueryEvaluationError, alive: bool, graphs: bool) -> bool {
    ||| error == QueryEvaluationError::Cancelled && !alive
    ||| error == QueryEvaluationError::UnexpectedDefaultGraph && alive && graphs
}

/// Whether a side of a join and the join agree.
pub open spec fn in_step(child: DeltaNode, join: SymmetricJoinIterator) -> bool {
    &&& child.sound()
    &&& join.sound()
    &&& same_bag(join.told(join.active()), child.held())
}

/// The rows that a change of the active side of a join gives, after others were heard.
pub open spec fn gives_rows(
    join: SymmetricJoinIterator,
    heard: Seq<Delta<TupleView>>,
    change: Delta<TupleView>,
) -> Seq<TupleView> {
    rows_given(
        join.hashed(),
        join.pairing(),
        join.active(),
        played(join.told(join.active()), heard),
        join.told(join.active().opposite()),
        change,
    )
}

/// Whether the active side of a join has handed out changes that the join has heard: only the
/// last one gives rows, and these are the results that wait.
pub open spec fn listened(
    child: DeltaNode,
    join: SymmetricJoinIterator,
    new_child: DeltaNode,
    new_join: SymmetricJoinIterator,
    heard: Seq<Delta<TupleView>>,
) -> bool {
    &&& new_child.held() == played(child.held(), heard)
    &&& same_bag(new_join.told(join.active()), played(join.told(join.active()), heard))
    &&& forall|i: int|
        0 <= i < heard.len() - 1 ==> gives_rows(
            join,
            heard.take(i),
            #[trigger] heard[i],
        ).len() == 0
    &&& if no_errors(new_join.buffered()) && new_join.buffered().len() > 0 {
        &&& heard.len() > 0
        &&& of_kind(new_join.buffered(), heard.last().kind_of())
        &&& same_bag(
            result_rows(new_join.buffered()),
            gives_rows(join, heard.drop_last(), heard.last()),
        )
    } else {
        heard.len() > 0 && (!join.hashed() || new_join.buffered().len() == 0) ==> gives_rows(
            join,
            heard.drop_last(),
            heard.last(),
        ).len() == 0
    }
}

/// Whether a join has handed out exactly the join of what it has heard.
pub open spec fn told_all(join: SymmetricJoinIterator) -> bool {
    same_bag(
        join.held(),
        joined(join.told(JoinSide::Left), join.told(JoinSide::Right), join.pairing()),
    )
}

/// Whether nothing but an error waits in a join node that is in order otherwise.
pub open spec fn interrupted(
    left: DeltaNode,
    right: DeltaNode,
    join: SymmetricJoinIterator,
) -> bool {
    &&& left.sound()
    &&& right.sound()
    &&& failed(join)
    &&& join.buffered().len() == 1
    &&& told_all(join)
    &&& same_bag(join.told(JoinSide::Left), left.held())
    &&& same_bag(join.told(JoinSide::Right), right.held())
    &&& join.done(JoinSide::Left) ==> same_bag(left.held(), left.goal())
    &&& join.done(JoinSide::Right) ==> same_bag(right.held(), right.goal())
}

/// Whether a side of a join that hands out an error is in order otherwise.
pub open spec fn side_interrupted(
    child: DeltaNode,
    new_child: DeltaNode,
    new_join: SymmetricJoinIterator,
) -> bool {
    let side = new_join.active();
    &&& new_child.sound()
    &&& same_bag(new_child.goal(), child.goal())
    &&& new_join.buffered().len() == 1
    &&& told_all(new_join)
    &&& same_bag(new_join.told(side), new_child.held())
    &&& !new_join.done(side)
}

/// Whether the results of a join end with an error that harms nothing.
pub open spec fn harmless(join: SymmetricJoinIterator) -> bool {
    failed(join) && join.buffered().last()->Err_0 == QueryEvaluationError::UnexpectedDefaultGraph
}

/// A join without results that wait has handed out everything.
proof fn lemma_told_all(join: SymmetricJoinIterator)
    requires
        join.buffered().len() == 0,
    ensures
        join.sound() <==> told_all(join),
{
    let heard = joined(join.told(JoinSide::Left), join.told(JoinSide::Right), join.pairing());
    assert(join.buffered() =~= Seq::empty());
    assert forall|row: TupleView| #[trigger] balance(join.buffered(), row) == 0 by {}
    if join.sound() {
        assert forall|row: TupleView| #[trigger] count(join.held(), row) == count(heard, row) by {
            assert(count(join.held(), row) + balance(join.buffered(), row) == count(heard, row));
        }
    }
    if told_all(join) {
        assert forall|row: TupleView| #[trigger]
            count(join.held(), row) + balance(join.buffered(), row) == count(heard, row) by {
            assert(balance(join.buffered(), row) == 0);
        }
    }
}

/// What holds after a poll of the active side of a join.
pub open spec fn polled(
    child: DeltaNode,
    join: SymmetricJoinIterator,
    new_child: DeltaNode,
    new_join: SymmetricJoinIterator,
    alive: bool,
    state: PollState,
) -> bool {
    let side = join.active();
    &&& same_node(child, new_child)
    &&& exists|heard: Seq<Delta<TupleView>>| #[trigger]
        listened(child, join, new_child, new_join, heard)
    &&& failed(new_join) && !join.hashed() ==> new_join.buffered().len() == 1
    &&& new_join.wf()
    &&& new_join.hashed() == join.hashed()
    &&& new_join.pairing() == join.pairing()
    &&& new_join.active() == side
    &&& new_join.settled()
    &&& new_join.playable()
    &&& new_join.held() == join.held()
    &&& new_join.told(side.opposite()) == join.told(side.opposite())
    &&& new_join.done(side.opposite()) == join.done(side.opposite())
    &&& state == PollState::Done ==> new_join.done(side)
    &&& new_join.done(side) ==> !new_child.live() && new_child.fuel() == 0
    &&& state == PollState::Item <==> new_join.buffered().len() > 0
    &&& state == PollState::Pending ==> new_child.live() && alive
    &&& state != PollState::Item ==> new_child.fuel() == 0
    &&& child.clean() ==> if failed(new_join) {
        justified(new_join.buffered().last()->Err_0, child.sources(), alive)
    } else {
        &&& new_child.clean()
        &&& no_errors(new_join.buffered())
        &&& same_failures(child.sources(), new_child.sources())
        &&& state != PollState::Item ==> none_failing(new_child.sources())
    }
    &&& in_step(child, join) && child.additive() ==> {
        &&& new_child.additive()
        &&& of_kind(new_join.buffered(), DeltaKind::Addition)
    }
    &&& if failed(new_join) {
        in_step(child, join) ==> {
            &&& tolerable(new_join.buffered().last()->Err_0, alive, child.blind())
            &&& harmless(new_join) ==> side_interrupted(child, new_child, new_join)
        }
    } else {
        &&& new_join.done(side) ==> state == PollState::Done
        &&& new_child.fuel() <= child.fuel()
        &&& new_join.told(side).len() + new_child.fuel() <= join.told(side).len() + child.fuel()
        &&& new_join.buffered().len() <= join.told(side.opposite()).len()
        &&& new_join.buffered().len() > 0 ==> new_child.fuel() < child.fuel()
        &&& in_step(child, join) ==> {
            &&& in_step(new_child, new_join)
            &&& same_bag(new_child.goal(), child.goal())
            &&& state != PollState::Item ==> same_bag(new_child.held(), new_child.goal())
        }
    }
}

pub(crate) proof fn lemma_failures_transitive(
    a: Seq<LiveQuadDeltaSource>,
    b: Seq<LiveQuadDeltaSource>,
    c: Seq<LiveQuadDeltaSource>,
)
    ensures
        same_failures(a, b) && same_failures(b, c) ==> same_failures(a, c),
{
    if same_failures(a, b) && same_failures(b, c) {
        assert forall|i: int| 0 <= i < a.len() implies (#[trigger] c[i]).failure()
            == a[i].failure() by {
            assert(b[i].failure() == a[i].failure());
        }
    }
}

/// What is justified by sources is justified by sources with the same failures.
pub(crate) proof fn lemma_justified(
    error: QueryEvaluationError,
    before: Seq<LiveQuadDeltaSource>,
    after: Seq<LiveQuadDeltaSource>,
    alive: bool,
)
    requires
        same_failures(before, after),
    ensures
        justified(error, after, alive) ==> justified(error, before, alive),
{
    if let QueryEvaluationError::Dataset(failure) = error {
        lemma_same_failures(before, after, failure);
    }
}

proof fn lemma_failures_add(
    a: Seq<LiveQuadDeltaSource>,
    new_a: Seq<LiveQuadDeltaSource>,
    b: Seq<LiveQuadDeltaSource>,
    new_b: Seq<LiveQuadDeltaSource>,
)
    ensures
        same_failures(a, new_a) && same_failures(b, new_b) ==> same_failures(a + b, new_a + new_b),
        none_failing(a) && none_failing(b) ==> none_failing(a + b),
{
    let all = new_a + new_b;
    if same_failures(a, new_a) && same_failures(b, new_b) {
        assert forall|i: int| 0 <= i < all.len() implies (#[trigger] all[i]).failure() == (a
            + b)[i].failure() by {
            if i < a.len() {
                assert(new_a[i].failure() == a[i].failure());
            } else {
                assert(new_b[i - a.len()].failure() == b[i - a.len()].failure());
            }
        }
    }
    if none_failing(a) && none_failing(b) {
        assert forall|i: int| 0 <= i < (a + b).len() implies (
        #[trigger] (a + b)[i]).failure() is None by {
            if i < a.len() {
                assert(a[i].failure() is None);
            } else {
                assert(b[i - a.len()].failure() is None);
            }
        }
    }
}

/// An error that a source justifies is justified by more sources.
proof fn lemma_justified_add(
    error: QueryEvaluationError,
    a: Seq<LiveQuadDeltaSource>,
    b: Seq<LiveQuadDeltaSource>,
    alive: bool,
)
    ensures
        justified(error, a, alive) ==> justified(error, a + b, alive),
        justified(error, b, alive) ==> justified(error, a + b, alive),
{
    if let QueryEvaluationError::Dataset(failure) = error {
        if failing(a, failure) {
            let i = choose|i: int|
                0 <= i < a.len() && (#[trigger] a[i]).failure() == Some(failure);
            assert((a + b)[i].failure() == Some(failure));
        }
        if failing(b, failure) {
            let i = choose|i: int|
                0 <= i < b.len() && (#[trigger] b[i]).failure() == Some(failure);
            assert((a + b)[a.len() + i].failure() == Some(failure));
        }
    }
}

proof fn lemma_same_node(node: DeltaNode)
    requires
        node.wf(),
    ensures
        same_node(node, node),
{
    lemma_same(node.sources());
    lemma_progressed(node);
}

proof fn lemma_same_node_transitive(a: DeltaNode, b: DeltaNode, c: DeltaNode)
    requires
        same_node(a, b),
        same_node(b, c),
    ensures
        same_node(a, c),
{
    lemma_same_transitive(a.sources(), b.sources(), c.sources());
    lemma_on_course_transitive(a.sources(), b.sources(), c.sources());
    lemma_progressed_transitive(a, b, c);
    assert forall|listing: Seq<EncodedQuad>| #[trigger]
        c.answer(listing) == a.answer(listing) by {
        assert(b.answer(listing) == a.answer(listing));
    }
}

/// Polls the active side of a join, until there is a result or nothing more comes.
fn poll_active_side(
    child: &mut DeltaNode,
    join: &mut SymmetricJoinIterator,
    alive: bool,
) -> (state: PollState)
    requires
        old(child).wf(),
        old(join).wf(),
        old(join).settled(),
        old(join).playable(),
        old(join).buffered().len() == 0,
        !old(join).done(old(join).active()),
    ensures
        polled(*old(child), *old(join), *final(child), *final(join), alive, state),
    decreases old(child).height(), 1nat,
{
    let ghost first_child = *child;
    let ghost first_join = *join;
    let ghost side = join.active();
    let ghost fine = in_step(first_child, first_join);
    let ghost mut heard: Seq<Delta<TupleView>> = Seq::empty();
    proof {
        lemma_same_node(first_child);
    }
    loop
        invariant_except_break
            join.buffered().len() == 0,
            !join.hashed() ==> join.playable(),
            forall|i: int|
                0 <= i < heard.len() ==> gives_rows(
                    first_join,
                    heard.take(i),
                    #[trigger] heard[i],
                ).len() == 0,
            !join.done(side),
            child.fuel() <= first_child.fuel(),
            join.told(side).len() + child.fuel() <= first_join.told(side).len()
                + first_child.fuel(),
            fine ==> in_step(*child, *join) && join.playable() && same_bag(
                child.goal(),
                first_child.goal(),
            ),
            first_child.clean() ==> child.clean() && same_failures(
                first_child.sources(),
                child.sources(),
            ),
            fine && first_child.additive() ==> child.additive(),
        invariant
            first_child == *old(child),
            first_join == *old(join),
            side == first_join.active(),
            fine == in_step(first_child, first_join),
            same_node(first_child, *child),
            child.held() == played(first_child.held(), heard),
            same_bag(join.told(side), played(first_join.told(side), heard)),
            join.wf(),
            join.hashed() == first_join.hashed(),
            join.pairing() == first_join.pairing(),
            join.active() == side,
            join.held() == first_join.held(),
            join.told(side.opposite()) == first_join.told(side.opposite()),
            join.done(side.opposite()) == first_join.done(side.opposite()),
        ensures
            fine ==> join.playable(),
            !join.hashed() ==> join.playable(),
            failed(*join) ==> join.buffered().len() == 1,
            listened(first_child, first_join, *child, *join, heard),
            join.done(side) ==> !child.live() && child.fuel() == 0,
            join.buffered().len() == 0 && !join.done(side) ==> child.live() && alive,
            join.buffered().len() == 0 ==> child.fuel() == 0,
            join.buffered().len() > 0 ==> !join.done(side),
            first_child.clean() ==> if failed(*join) {
                justified(join.buffered().last()->Err_0, first_child.sources(), alive)
            } else {
                &&& child.clean()
                &&& no_errors(join.buffered())
                &&& same_failures(first_child.sources(), child.sources())
                &&& join.buffered().len() == 0 ==> none_failing(child.sources())
            },
            fine && first_child.additive() ==> {
                &&& child.additive()
                &&& of_kind(join.buffered(), DeltaKind::Addition)
            },
            if failed(*join) {
                fine ==> {
                    &&& tolerable(join.buffered().last()->Err_0, alive, child.blind())
                    &&& harmless(*join) ==> side_interrupted(first_child, *child, *join)
                }
            } else {
                &&& child.fuel() <= first_child.fuel()
                &&& join.told(side).len() + child.fuel() <= first_join.told(side).len()
                    + first_child.fuel()
                &&& join.buffered().len() <= first_join.told(side.opposite()).len()
                &&& join.buffered().len() > 0 ==> child.fuel() < first_child.fuel()
                &&& fine ==> in_step(*child, *join) && same_bag(child.goal(), first_child.goal())
                &&& fine && join.buffered().len() == 0 ==> same_bag(child.held(), child.goal())
            },
        decreases child.fuel(),
    {
        let ghost last_child = *child;
        let ghost last_join = *join;
        let item = child.next(alive);
        proof {
            if heard.len() > 0 {
                let last = heard.len() - 1;
                assert(heard.take(last) =~= heard.drop_last());
                assert(heard[last] == heard.last());
            }
            lemma_same_node_transitive(first_child, last_child, *child);
            if fine && same_bag(child.goal(), last_child.goal()) {
                lemma_same_bag_transitive(child.goal(), last_child.goal(), first_child.goal());
            }
            if first_child.clean() {
                lemma_failures_transitive(
                    first_child.sources(),
                    last_child.sources(),
                    child.sources(),
                );
                if item is Some && item->0 is Err {
                    lemma_justified(item->0->Err_0, first_child.sources(), last_child.sources(), alive);
                }
            }
        }
        match item {
            Some(Ok(StreamingItem::Item(delta))) => {
                let ghost change = delta_view(delta);
                join.take(delta);
                proof {
                    let more = heard.push(change);
                    let mine = played(first_join.told(side), heard);
                    lemma_played_push(first_child.held(), heard, change);
                    lemma_played_push(first_join.told(side), heard, change);
                    lemma_same_step(last_join.told(side), mine, change);
                    lemma_same_bag_transitive(
                        join.told(side),
                        step(last_join.told(side), change),
                        step(mine, change),
                    );
                    assert forall|i: int|
                        0 <= i < more.len() - 1 implies gives_rows(
                        first_join,
                        more.take(i),
                        #[trigger] more[i],
                    ).len() == 0 by {
                        assert(more.take(i) =~= heard.take(i));
                        assert(more[i] == heard[i]);
                    }
                    assert(more.drop_last() =~= heard);
                    if join.buffered().len() == 0 {
                        assert(result_rows(join.buffered()) =~= Seq::empty());
                        lemma_weight_same_bag(
                            result_rows(join.buffered()),
                            gives_rows(first_join, heard, change),
                            |row: TupleView| 0int,
                        );
                        assert(more.take(heard.len() as int) =~= heard);
                    }
                    heard = more;
                    if fine {
                        lemma_same_step(last_join.told(side), last_child.held(), change);
                        lemma_same_bag_transitive(
                            join.told(side),
                            step(last_join.told(side), change),
                            child.held(),
                        );
                    }
                    if join.buffered().len() > 0 {
                        assert(join.buffered()[join.buffered().len() - 1] is Ok);
                    }
                }
                if !join.is_empty() {
                    break;
                }
            },
            Some(Ok(StreamingItem::Pending)) => {
                break;
            },
            Some(Err(error)) => {
                join.fail(error);
                proof {
                    if fine {
                        lemma_told_all(last_join);
                        assert(join.told(JoinSide::Left) == last_join.told(JoinSide::Left));
                        assert(join.told(JoinSide::Right) == last_join.told(JoinSide::Right));
                    }
                }
                break;
            },
            None => {
                join.end_active_side();
                break;
            },
        }
    }
    let ghost found = *join;
    join.settle();
    proof {
        assert(join.told(side) == found.told(side));
        assert(join.told(side.opposite()) == found.told(side.opposite()));
        if !found.playable() {
            let last = join.buffered().len() - 1;
            assert(join.buffered()[last] is Err);
            assert(!no_errors(join.buffered()));
        }
        assert(listened(first_child, first_join, *child, *join, heard));
    }
    if !join.is_empty() {
        PollState::Item
    } else if join.is_done(join.active_side()) {
        PollState::Done
    } else {
        PollState::Pending
    }
}

/// What a node keeps while a side of it is polled.
pub open spec fn moved(before: DeltaNode, after: DeltaNode) -> bool {
    &&& after.fuel() <= before.fuel()
    &&& before.sound() ==> {
        &&& after.sound()
        &&& after.held() == before.held()
        &&& same_bag(after.goal(), before.goal())
    }
}

proof fn lemma_moved_transitive(a: DeltaNode, b: DeltaNode, c: DeltaNode)
    requires
        moved(a, b),
        moved(b, c),
    ensures
        moved(a, c),
{
    if a.sound() {
        lemma_same_bag_transitive(c.goal(), b.goal(), a.goal());
    }
}

proof fn lemma_all_sound_add(a: Seq<LiveQuadDeltaSource>, b: Seq<LiveQuadDeltaSource>)
    ensures
        all_sound(a + b) <==> all_sound(a) && all_sound(b),
{
    let all = a + b;
    if all_sound(all) {
        assert forall|i: int| 0 <= i < a.len() implies (#[trigger] a[i]).sound() by {
            assert(all[i].sound());
        }
        assert forall|i: int| 0 <= i < b.len() implies (#[trigger] b[i]).sound() by {
            assert(all[a.len() + i].sound());
        }
    }
    if all_sound(a) && all_sound(b) {
        assert forall|i: int| 0 <= i < all.len() implies (#[trigger] all[i]).sound() by {
            if i < a.len() {
                assert(a[i].sound());
            } else {
                assert(b[i - a.len()].sound());
            }
        }
    }
}

proof fn lemma_same_subscriptions_add(
    a: Seq<LiveQuadDeltaSource>,
    new_a: Seq<LiveQuadDeltaSource>,
    b: Seq<LiveQuadDeltaSource>,
    new_b: Seq<LiveQuadDeltaSource>,
)
    requires
        same_subscriptions(a, new_a),
        same_subscriptions(b, new_b),
    ensures
        same_subscriptions(a + b, new_a + new_b),
{
    let all = new_a + new_b;
    assert forall|i: int| 0 <= i < all.len() implies (#[trigger] all[i]).subscription() == (a
        + b)[i].subscription() && all[i].pattern() == (a + b)[i].pattern() by {
        if i < a.len() {
            assert(new_a[i].subscription() == a[i].subscription());
        } else {
            assert(new_b[i - a.len()].subscription() == b[i - a.len()].subscription());
        }
    }
}

proof fn lemma_on_course_add(
    a: Seq<LiveQuadDeltaSource>,
    new_a: Seq<LiveQuadDeltaSource>,
    b: Seq<LiveQuadDeltaSource>,
    new_b: Seq<LiveQuadDeltaSource>,
)
    requires
        on_course(a, new_a),
        on_course(b, new_b),
    ensures
        on_course(a + b, new_a + new_b),
{
    let all = new_a + new_b;
    assert forall|i: int| 0 <= i < all.len() implies keeps_course((a + b)[i], #[trigger] all[i]) by {
        if i < a.len() {
            assert(keeps_course(a[i], new_a[i]));
        } else {
            assert(keeps_course(b[i - a.len()], new_b[i - a.len()]));
        }
    }
}

/// A join node whose sides are the same at another moment is the same.
proof fn lemma_same_join(
    left: DeltaNode,
    right: DeltaNode,
    join: SymmetricJoinIterator,
    new_left: DeltaNode,
    new_right: DeltaNode,
    new_join: SymmetricJoinIterator,
)
    requires
        same_node(left, new_left),
        same_node(right, new_right),
        join_node(new_left, new_right, new_join).wf(),
        new_join.pairing() == join.pairing(),
    ensures
        same_node(join_node(left, right, join), join_node(new_left, new_right, new_join)),
{
    lemma_same_join_shape(left, right, join, new_left, new_right, new_join);
    lemma_on_course_add(
        left.sources(),
        new_left.sources(),
        right.sources(),
        new_right.sources(),
    );
}

proof fn lemma_same_join_shape(
    left: DeltaNode,
    right: DeltaNode,
    join: SymmetricJoinIterator,
    new_left: DeltaNode,
    new_right: DeltaNode,
    new_join: SymmetricJoinIterator,
)
    requires
        same_shape(left, new_left),
        same_shape(right, new_right),
        join_node(new_left, new_right, new_join).wf(),
        new_join.pairing() == join.pairing(),
    ensures
        same_shape(join_node(left, right, join), join_node(new_left, new_right, new_join)),
{
    let before = join_node(left, right, join);
    let after = join_node(new_left, new_right, new_join);
    lemma_same_subscriptions_add(
        left.sources(),
        new_left.sources(),
        right.sources(),
        new_right.sources(),
    );
    assert forall|listing: Seq<EncodedQuad>| #[trigger]
        after.answer(listing) == before.answer(listing) by {
        assert(new_left.answer(listing) == left.answer(listing));
        assert(new_right.answer(listing) == right.answer(listing));
    }
}

/// What a join node tells of the failures of its sources while it is polled.
pub open spec fn tidied(
    before: DeltaNode,
    after: DeltaNode,
    join: SymmetricJoinIterator,
    alive: bool,
) -> bool {
    before.clean() ==> if failed(join) {
        justified(join.buffered().last()->Err_0, before.sources(), alive)
    } else {
        &&& after.clean()
        &&& same_failures(before.sources(), after.sources())
    }
}

/// What a poll of the left side does to the node.
proof fn lemma_polled_left(
    left: DeltaNode,
    right: DeltaNode,
    join: SymmetricJoinIterator,
    new_left: DeltaNode,
    new_join: SymmetricJoinIterator,
    alive: bool,
    state: PollState,
)
    requires
        join_node(left, right, join).wf(),
        join.buffered().len() == 0,
        join.active() == JoinSide::Left,
        polled(left, join, new_left, new_join, alive, state),
    ensures
        ({
            let before = join_node(left, right, join);
            let after = join_node(new_left, right, new_join);
            &&& same_node(before, after)
            &&& !failed(new_join) ==> moved(before, after)
            &&& before.sound() && failed(new_join) ==> tolerable(
                new_join.buffered().last()->Err_0,
                alive,
                before.blind(),
            )
            &&& before.sound() && harmless(new_join) ==> {
                &&& interrupted(new_left, right, new_join)
                &&& same_bag(after.goal(), before.goal())
            }
            &&& before.sound() && !failed(new_join) && state != PollState::Item ==> same_bag(
                new_left.held(),
                new_left.goal(),
            )
            &&& before.additive() && before.sound() ==> after.additive()
            &&& tidied(before, after, new_join, alive)
            &&& before.clean() && !failed(new_join) && state != PollState::Item ==> none_failing(
                new_left.sources(),
            )
        }),
{
    let before = join_node(left, right, join);
    let after = join_node(new_left, right, new_join);
    let pairing = join.pairing();
    assert(JoinSide::Left.opposite() == JoinSide::Right);
    lemma_same_node(right);
    lemma_same_join(left, right, join, new_left, right, new_join);
    lemma_all_sound_add(left.sources(), right.sources());
    lemma_all_sound_add(new_left.sources(), right.sources());
    if before.clean() {
        lemma_failures_add(
            left.sources(),
            new_left.sources(),
            right.sources(),
            right.sources(),
        );
        if failed(new_join) {
            lemma_justified_add(
                new_join.buffered().last()->Err_0,
                left.sources(),
                right.sources(),
                alive,
            );
        }
    }
    if !failed(new_join) {
        lemma_join_fuel(
            new_join.buffered().len(),
            join.told(JoinSide::Left).len(),
            join.told(JoinSide::Right).len(),
            left.fuel(),
            right.fuel(),
            new_join.told(JoinSide::Left).len(),
            new_left.fuel(),
        );
    }
    if before.sound() && (!failed(new_join) || harmless(new_join)) {
        lemma_joined_same(new_left.goal(), left.goal(), right.goal(), right.goal(), pairing);
    }
}

/// What a poll of the right side does to the node.
proof fn lemma_polled_right(
    left: DeltaNode,
    right: DeltaNode,
    join: SymmetricJoinIterator,
    new_right: DeltaNode,
    new_join: SymmetricJoinIterator,
    alive: bool,
    state: PollState,
)
    requires
        join_node(left, right, join).wf(),
        join.buffered().len() == 0,
        join.active() == JoinSide::Right,
        polled(right, join, new_right, new_join, alive, state),
    ensures
        ({
            let before = join_node(left, right, join);
            let after = join_node(left, new_right, new_join);
            &&& same_node(before, after)
            &&& !failed(new_join) ==> moved(before, after)
            &&& before.sound() && failed(new_join) ==> tolerable(
                new_join.buffered().last()->Err_0,
                alive,
                before.blind(),
            )
            &&& before.sound() && harmless(new_join) ==> {
                &&& interrupted(left, new_right, new_join)
                &&& same_bag(after.goal(), before.goal())
            }
            &&& before.sound() && !failed(new_join) && state != PollState::Item ==> same_bag(
                new_right.held(),
                new_right.goal(),
            )
            &&& before.additive() && before.sound() ==> after.additive()
            &&& tidied(before, after, new_join, alive)
            &&& before.clean() && !failed(new_join) && state != PollState::Item ==> none_failing(
                new_right.sources(),
            )
        }),
{
    let before = join_node(left, right, join);
    let after = join_node(left, new_right, new_join);
    let pairing = join.pairing();
    assert(JoinSide::Right.opposite() == JoinSide::Left);
    lemma_same_node(left);
    lemma_same_join(left, right, join, left, new_right, new_join);
    lemma_all_sound_add(left.sources(), right.sources());
    lemma_all_sound_add(left.sources(), new_right.sources());
    if before.clean() {
        lemma_failures_add(
            left.sources(),
            left.sources(),
            right.sources(),
            new_right.sources(),
        );
        if failed(new_join) {
            lemma_justified_add(
                new_join.buffered().last()->Err_0,
                left.sources(),
                right.sources(),
                alive,
            );
        }
    }
    if !failed(new_join) {
        lemma_join_fuel(
            new_join.buffered().len(),
            join.told(JoinSide::Right).len(),
            join.told(JoinSide::Left).len(),
            right.fuel(),
            left.fuel(),
            new_join.told(JoinSide::Right).len(),
            new_right.fuel(),
        );
    }
    if before.sound() && (!failed(new_join) || harmless(new_join)) {
        lemma_joined_same(left.goal(), left.goal(), new_right.goal(), right.goal(), pairing);
    }
}

/// A join whose sides have led to their goals, and which has handed out everything, has led
/// to its goal.
proof fn lemma_join_paused(left: DeltaNode, right: DeltaNode, join: SymmetricJoinIterator)
    requires
        join_node(left, right, join).sound(),
        join.buffered().len() == 0,
        same_bag(left.held(), left.goal()),
        same_bag(right.held(), right.goal()),
    ensures
        same_bag(join.held(), join_node(left, right, join).goal()),
{
    let pairing = join.pairing();
    let heard = joined(join.told(JoinSide::Left), join.told(JoinSide::Right), pairing);
    lemma_told_all(join);
    lemma_same_bag_transitive(join.told(JoinSide::Left), left.held(), left.goal());
    lemma_same_bag_transitive(join.told(JoinSide::Right), right.held(), right.goal());
    lemma_joined_same(
        join.told(JoinSide::Left),
        left.goal(),
        join.told(JoinSide::Right),
        right.goal(),
        pairing,
    );
    lemma_same_bag_transitive(join.held(), heard, join_node(left, right, join).goal());
}

/// A result of a join as an item of a stream.
fn to_item(result: JoinResult) -> (item: TupleItem)
    ensures
        item == match result {
            Ok(delta) => Some(Ok::<_, QueryEvaluationError>(StreamingItem::Item(delta))),
            Err(error) => Some(Err(error)),
        },
{
    match result {
        Ok(delta) => Some(Ok(StreamingItem::Item(delta))),
        Err(error) => Some(Err(error)),
    }
}

/// Polls the side of a join whose turn it is.
fn poll_side(
    left: &mut DeltaNode,
    right: &mut DeltaNode,
    join: &mut SymmetricJoinIterator,
    alive: bool,
) -> (state: PollState)
    requires
        join_node(*old(left), *old(right), *old(join)).wf(),
        old(join).buffered().len() == 0,
    ensures
        final(join).active() == old(join).active(),
        final(join).held() == old(join).held(),
        same_node(
            join_node(*old(left), *old(right), *old(join)),
            join_node(*final(left), *final(right), *final(join)),
        ),
        state == PollState::Item <==> final(join).buffered().len() > 0,
        state == PollState::Pending ==> alive && join_node(
            *old(left),
            *old(right),
            *old(join),
        ).live(),
        state == PollState::Done ==> final(join).done(old(join).active()),
        state == PollState::Pending ==> !final(join).done(old(join).active()),
        old(join).done(old(join).active().opposite()) ==> final(join).done(
            old(join).active().opposite(),
        ),
        match old(join).active() {
            JoinSide::Left => *final(right) == *old(right),
            JoinSide::Right => *final(left) == *old(left),
        },
        final(join).done(old(join).active().opposite()) == old(join).done(
            old(join).active().opposite(),
        ),
        state != PollState::Item ==> match old(join).active() {
            JoinSide::Left => final(left).fuel() == 0,
            JoinSide::Right => final(right).fuel() == 0,
        },
        join_node(*old(left), *old(right), *old(join)).additive() && join_node(
            *old(left),
            *old(right),
            *old(join),
        ).sound() ==> join_node(*final(left), *final(right), *final(join)).additive(),
        !failed(*final(join)) ==> moved(
            join_node(*old(left), *old(right), *old(join)),
            join_node(*final(left), *final(right), *final(join)),
        ),
        tidied(
            join_node(*old(left), *old(right), *old(join)),
            join_node(*final(left), *final(right), *final(join)),
            *final(join),
            alive,
        ),
        join_node(*old(left), *old(right), *old(join)).clean() && !failed(*final(join)) && state
            != PollState::Item ==> match old(join).active() {
            JoinSide::Left => none_failing(final(left).sources()),
            JoinSide::Right => none_failing(final(right).sources()),
        },
        join_node(*old(left), *old(right), *old(join)).sound() ==> {
            &&& failed(*final(join)) ==> tolerable(
                final(join).buffered().last()->Err_0,
                alive,
                join_node(*old(left), *old(right), *old(join)).blind(),
            )
            &&& harmless(*final(join)) ==> {
                &&& interrupted(*final(left), *final(right), *final(join))
                &&& same_bag(
                    join_node(*final(left), *final(right), *final(join)).goal(),
                    join_node(*old(left), *old(right), *old(join)).goal(),
                )
            }
            &&& state != PollState::Item ==> match old(join).active() {
                JoinSide::Left => same_bag(final(left).held(), final(left).goal()),
                JoinSide::Right => same_bag(final(right).held(), final(right).goal()),
            }
        },
    decreases old(left).height() + old(right).height(), 2nat,
{
    let ghost old_left = *left;
    let ghost old_right = *right;
    let ghost old_join = *join;
    let side = join.active_side();
    if join.is_done(side) {
        proof {
            lemma_same_node(join_node(old_left, old_right, old_join));
        }
        return PollState::Done;
    }
    match side {
        JoinSide::Left => {
            let state = poll_active_side(left, join, alive);
            proof {
                lemma_polled_left(old_left, old_right, old_join, *left, *join, alive, state);
            }
            state
        },
        JoinSide::Right => {
            let state = poll_active_side(right, join, alive);
            proof {
                lemma_polled_right(old_left, old_right, old_join, *right, *join, alive, state);
            }
            state
        },
    }
}

/// Turning to the other side does not change a join node.
proof fn lemma_switched(
    left: DeltaNode,
    right: DeltaNode,
    join: SymmetricJoinIterator,
    new_join: SymmetricJoinIterator,
)
    requires
        join_node(left, right, join).wf(),
        new_join.like(join),
        new_join.playable(),
        forall|side: JoinSide| #[trigger] new_join.done(side) == join.done(side),
    ensures
        same_node(join_node(left, right, join), join_node(left, right, new_join)),
        moved(join_node(left, right, join), join_node(left, right, new_join)),
{
    let before = join_node(left, right, join);
    let after = join_node(left, right, new_join);
    assert(new_join.told(JoinSide::Left) == join.told(JoinSide::Left));
    assert(new_join.told(JoinSide::Right) == join.told(JoinSide::Right));
    assert(new_join.done(JoinSide::Left) == join.done(JoinSide::Left));
    assert(new_join.done(JoinSide::Right) == join.done(JoinSide::Right));
    assert(after.wf());
    lemma_same_node(left);
    lemma_same_node(right);
    lemma_same_join(left, right, join, left, right, new_join);
    if before.sound() {
        assert(new_join.sound()) by {
            assert forall|row: TupleView| #[trigger]
                count(new_join.held(), row) + balance(new_join.buffered(), row) == count(
                    joined(
                        new_join.told(JoinSide::Left),
                        new_join.told(JoinSide::Right),
                        new_join.pairing(),
                    ),
                    row,
                ) by {
                assert(count(join.held(), row) + balance(join.buffered(), row) == count(
                    joined(
                        join.told(JoinSide::Left),
                        join.told(JoinSide::Right),
                        join.pairing(),
                    ),
                    row,
                ));
            }
        }
    }
}

/// Handing out a result of a join node.
fn pop_result(
    left: &DeltaNode,
    right: &DeltaNode,
    join: &mut SymmetricJoinIterator,
) -> (result: Option<JoinResult>)
    requires
        join_node(*left, *right, *old(join)).wf(),
    ensures
        final(join).active() == old(join).active(),
        forall|side: JoinSide| #[trigger] final(join).done(side) == old(join).done(side),
        same_node(
            join_node(*left, *right, *old(join)),
            join_node(*left, *right, *final(join)),
        ),
        join_node(*left, *right, *final(join)).goal() == join_node(
            *left,
            *right,
            *old(join),
        ).goal(),
        join_node(*left, *right, *old(join)).additive() ==> {
            &&& join_node(*left, *right, *final(join)).additive()
            &&& result matches Some(result) ==> (result matches Ok(delta) && delta.kind_of()
                == DeltaKind::Addition)
        },
        match result {
            Some(result) => {
                &&& old(join).buffered().len() > 0
                &&& result == old(join).buffered().last()
                &&& final(join).buffered() == old(join).buffered().drop_last()
                &&& final(join).held() == match result {
                    Ok(delta) => step(old(join).held(), delta_view(delta)),
                    Err(_) => old(join).held(),
                }
                &&& join_node(*left, *right, *final(join)).fuel() < join_node(
                    *left,
                    *right,
                    *old(join),
                ).fuel()
                &&& join_node(*left, *right, *old(join)).sound() ==> {
                    &&& result is Ok
                    &&& applies(old(join).held(), delta_view(result->Ok_0))
                    &&& join_node(*left, *right, *final(join)).sound()
                }
                &&& interrupted(*left, *right, *old(join)) ==> join_node(
                    *left,
                    *right,
                    *final(join),
                ).sound()
            },
            None => {
                &&& old(join).buffered().len() == 0
                &&& final(join).buffered().len() == 0
                &&& final(join).held() == old(join).held()
                &&& moved(
                    join_node(*left, *right, *old(join)),
                    join_node(*left, *right, *final(join)),
                )
            },
        },
{
    let ghost before = *join;
    let result = join.pop();
    proof {
        let new_node = join_node(*left, *right, *join);
        assert(join.told(JoinSide::Left) == before.told(JoinSide::Left));
        assert(join.told(JoinSide::Right) == before.told(JoinSide::Right));
        assert(join.done(JoinSide::Left) == before.done(JoinSide::Left));
        assert(join.done(JoinSide::Right) == before.done(JoinSide::Right));
        assert(new_node.wf());
        lemma_same_node(*left);
        lemma_same_node(*right);
        lemma_same_join(*left, *right, before, *left, *right, *join);
        if interrupted(*left, *right, before) {
            lemma_told_all(*join);
            lemma_all_sound_add(left.sources(), right.sources());
        }
        if result is None {
            lemma_told_all(before);
            lemma_told_all(*join);
        }
    }
    result
}

/// The next change of a join. Each side gets its turn, so that neither starves the other.
fn next_joined(
    left: &mut DeltaNode,
    right: &mut DeltaNode,
    join: &mut SymmetricJoinIterator,
    alive: bool,
) -> (item: TupleItem)
    requires
        join_node(*old(left), *old(right), *old(join)).wf(),
    ensures
        same_node(
            join_node(*old(left), *old(right), *old(join)),
            join_node(*final(left), *final(right), *final(join)),
        ),
        flows(
            join_node(*old(left), *old(right), *old(join)).flow(),
            join_node(*final(left), *final(right), *final(join)).flow(),
            item_view(item),
        ),
        may_come(
            join_node(*old(left), *old(right), *old(join)).sound(),
            alive,
            join_node(*old(left), *old(right), *old(join)).blind(),
            item,
        ),
        honest(
            join_node(*old(left), *old(right), *old(join)),
            join_node(*final(left), *final(right), *final(join)),
            alive,
            item,
        ),
        adds(
            join_node(*old(left), *old(right), *old(join)),
            join_node(*final(left), *final(right), *final(join)),
            item,
        ),
    decreases old(left).height() + old(right).height(), 3nat,
{
    let ghost start = join_node(*left, *right, *join);
    if let Some(result) = pop_result(left, right, join) {
        return to_item(result);
    }
    let ghost opened = join_node(*left, *right, *join);
    if join.is_done(JoinSide::Left) && join.is_done(JoinSide::Right) {
        proof {
            lemma_join_fuel_none(
                join.told(JoinSide::Left).len(),
                join.told(JoinSide::Right).len(),
            );
            if start.sound() {
                lemma_join_paused(*left, *right, *join);
            }
        }
        return None;
    }
    let first_state = poll_side(left, right, join, alive);
    let ghost polled_once = join_node(*left, *right, *join);
    proof {
        lemma_same_node_transitive(start, opened, polled_once);
        if !failed(*join) {
            lemma_moved_transitive(start, opened, polled_once);
        } else if start.sound() && harmless(*join) {
            lemma_same_bag_transitive(polled_once.goal(), opened.goal(), start.goal());
        }
    }
    let ghost found = *join;
    if let Some(result) = pop_result(left, right, join) {
        proof {
            lemma_same_node_transitive(start, polled_once, join_node(*left, *right, *join));
        }
        return to_item(result);
    }
    let ghost emptied = join_node(*left, *right, *join);
    let ghost emptied_join = *join;
    join.switch_side();
    let ghost switched = join_node(*left, *right, *join);
    proof {
        lemma_switched(*left, *right, emptied_join, *join);
        lemma_same_node_transitive(start, polled_once, emptied);
        lemma_moved_transitive(start, polled_once, emptied);
        lemma_same_node_transitive(start, emptied, switched);
        lemma_moved_transitive(start, emptied, switched);
    }
    let second_state = poll_side(left, right, join, alive);
    let ghost polled_twice = join_node(*left, *right, *join);
    proof {
        lemma_same_node_transitive(start, switched, polled_twice);
        if !failed(*join) {
            lemma_moved_transitive(start, switched, polled_twice);
        } else if start.sound() && harmless(*join) {
            lemma_same_bag_transitive(polled_twice.goal(), switched.goal(), start.goal());
        }
    }
    if let Some(result) = pop_result(left, right, join) {
        proof {
            lemma_same_node_transitive(start, polled_twice, join_node(*left, *right, *join));
        }
        return to_item(result);
    }
    let ghost end = join_node(*left, *right, *join);
    proof {
        lemma_same_node_transitive(start, polled_twice, end);
        lemma_moved_transitive(start, polled_twice, end);
        lemma_join_fuel_none(join.told(JoinSide::Left).len(), join.told(JoinSide::Right).len());
        if start.additive() {
            lemma_additive(start);
        }
        if start.sound() {
            lemma_join_paused(*left, *right, *join);
        }
    }
    if join.is_done(JoinSide::Left) && join.is_done(JoinSide::Right) {
        return None;
    }
    Some(Ok(StreamingItem::Pending))
}

/// The projection node of these parts.
pub open spec fn project_node(inner: DeltaNode, operator: ProjectOperator) -> DeltaNode {
    DeltaNode::Project { inner: Box::new(inner), operator }
}

/// The next change of a projection.
fn next_projected(
    inner: &mut DeltaNode,
    operator: &mut ProjectOperator,
    alive: bool,
) -> (item: TupleItem)
    requires
        project_node(*old(inner), *old(operator)).wf(),
    ensures
        same_node(
            project_node(*old(inner), *old(operator)),
            project_node(*final(inner), *final(operator)),
        ),
        flows(
            project_node(*old(inner), *old(operator)).flow(),
            project_node(*final(inner), *final(operator)).flow(),
            item_view(item),
        ),
        may_come(
            project_node(*old(inner), *old(operator)).sound(),
            alive,
            old(inner).blind(),
            item,
        ),
        honest(*old(inner), *final(inner), alive, item),
        adds(
            project_node(*old(inner), *old(operator)),
            project_node(*final(inner), *final(operator)),
            item,
        ),
    decreases old(inner).height(), 1nat,
{
    let ghost first_inner = *inner;
    let ghost first_operator = *operator;
    let ghost start = project_node(*inner, *operator);
    let ghost f = operator.projection();
    proof {
        lemma_same_node(first_inner);
    }
    loop
        invariant
            first_inner == *old(inner),
            first_operator == *old(operator),
            start == project_node(first_inner, first_operator),
            same_node(first_inner, *inner),
            operator.wf(),
            f == operator.projection(),
            f == first_operator.projection(),
            inner.fuel() <= first_inner.fuel(),
            operator.held() == first_operator.held(),
            start.sound() ==> project_node(*inner, *operator).sound() && same_bag(
                inner.goal(),
                first_inner.goal(),
            ),
            first_inner.clean() ==> inner.clean() && same_failures(
                first_inner.sources(),
                inner.sources(),
            ),
            start.additive() && start.sound() ==> inner.additive(),
        decreases inner.fuel(),
    {
        let ghost last_inner = *inner;
        let ghost last_operator = *operator;
        let item = inner.next(alive);
        proof {
            lemma_same_node_transitive(first_inner, last_inner, *inner);
            lemma_same_project(first_inner, first_operator, *inner, *operator);
            if first_inner.clean() {
                lemma_failures_transitive(
                    first_inner.sources(),
                    last_inner.sources(),
                    inner.sources(),
                );
                if item is Some && item->0 is Err {
                    lemma_justified(item->0->Err_0, first_inner.sources(), last_inner.sources(), alive);
                }
            }
            if start.sound() && same_bag(inner.goal(), last_inner.goal()) {
                lemma_same_bag_transitive(inner.goal(), last_inner.goal(), first_inner.goal());
                lemma_filter_map_same_bag(inner.goal(), first_inner.goal(), f);
            }
        }
        match item {
            Some(Ok(StreamingItem::Item(delta))) => {
                let ghost full = delta_view(delta);
                proof {
                    if start.sound() {
                        lemma_mapped_step(last_inner.held(), last_operator.held(), f, full);
                    }
                }
                let change = operator.take(delta);
                proof {
                    lemma_same_project(first_inner, first_operator, *inner, *operator);
                }
                if let Some(change) = change {
                    return Some(Ok(StreamingItem::Item(change)));
                }
            },
            Some(Ok(StreamingItem::Pending)) => {
                proof {
                    if start.sound() {
                        lemma_mapped_pause(inner.held(), inner.goal(), operator.held(), f);
                    }
                }
                return Some(Ok(StreamingItem::Pending));
            },
            Some(Err(error)) => {
                return Some(Err(error));
            },
            None => {
                proof {
                    if start.sound() {
                        lemma_mapped_pause(inner.held(), inner.goal(), operator.held(), f);
                    }
                }
                return None;
            },
        }
    }
}

proof fn lemma_same_project(
    inner: DeltaNode,
    operator: ProjectOperator,
    new_inner: DeltaNode,
    new_operator: ProjectOperator,
)
    requires
        same_shape(inner, new_inner),
        new_operator.wf(),
        new_operator.projection() == operator.projection(),
    ensures
        same_shape(project_node(inner, operator), project_node(new_inner, new_operator)),
        on_course(inner.sources(), new_inner.sources()) ==> same_node(
            project_node(inner, operator),
            project_node(new_inner, new_operator),
        ),
{
    let before = project_node(inner, operator);
    let after = project_node(new_inner, new_operator);
    assert forall|listing: Seq<EncodedQuad>| #[trigger]
        after.answer(listing) == before.answer(listing) by {
        assert(new_inner.answer(listing) == inner.answer(listing));
    }
}

/// The node of these parts.
pub open spec fn stats_node(inner: DeltaNode, stats: NodeStats) -> DeltaNode {
    DeltaNode::Stats { inner: Box::new(inner), stats }
}

proof fn lemma_same_stats(
    inner: DeltaNode,
    stats: NodeStats,
    new_inner: DeltaNode,
    new_stats: NodeStats,
)
    requires
        same_shape(inner, new_inner),
        new_stats.follows(stats),
        stats_node(new_inner, new_stats).wf(),
    ensures
        same_shape(stats_node(inner, stats), stats_node(new_inner, new_stats)),
        on_course(inner.sources(), new_inner.sources()) ==> same_node(
            stats_node(inner, stats),
            stats_node(new_inner, new_stats),
        ),
{
    let before = stats_node(inner, stats);
    let after = stats_node(new_inner, new_stats);
    assert forall|listing: Seq<EncodedQuad>| #[trigger]
        after.answer(listing) == before.answer(listing) by {
        assert(new_inner.answer(listing) == inner.answer(listing));
    }
}

/// The next change of a node of which is measured how long it takes and counted how often
/// it hands out a row.
fn next_counted(inner: &mut DeltaNode, stats: &mut NodeStats, alive: bool) -> (item: TupleItem)
    requires
        stats_node(*old(inner), *old(stats)).wf(),
    ensures
        same_node(*old(inner), *final(inner)),
        flows(old(inner).flow(), final(inner).flow(), item_view(item)),
        may_come(old(inner).sound(), alive, old(inner).blind(), item),
        honest(*old(inner), *final(inner), alive, item),
        adds(*old(inner), *final(inner), item),
        final(stats).follows(*old(stats)),
        final(stats).replies@ == old(stats).replies@.push(item_view(item)),
        stats_node(*final(inner), *final(stats)).wf(),
    decreases old(inner).height(), 1nat,
{
    let ghost old_inner = *inner;
    let ghost old_stats = *stats;
    if !stats.run_stats {
        let item = inner.next(alive);
        stats.replies = Ghost(old_stats.replies@.push(item_view(item)));
        proof {
            lemma_counted(old_inner, old_stats, *inner, item_view(item));
        }
        return item;
    }
    let start = Timer::now();
    let item = inner.next(alive);
    let duration = start.elapsed();
    stats.add_time(duration);
    if let Some(Ok(StreamingItem::Item(_))) = &item {
        stats.add_row();
    }
    stats.replies = Ghost(old_stats.replies@.push(item_view(item)));
    proof {
        lemma_counted(old_inner, old_stats, *inner, item_view(item));
        assert(stats.spans@.drop_last() =~= old_stats.spans@);
    }
    item
}

/// One more answer is one more change to hold, or none.
proof fn lemma_counted(inner: DeltaNode, stats: NodeStats, new_inner: DeltaNode, reply: Reply)
    requires
        inner.held() == played(Seq::empty(), changes_in(stats.replies@)),
        flows(inner.flow(), new_inner.flow(), reply),
    ensures
        new_inner.held() == played(Seq::empty(), changes_in(stats.replies@.push(reply))),
        changes_in(stats.replies@.push(reply)).len() == changes_in(stats.replies@).len() + if (
        reply matches Some(Ok(StreamingItem::Item(_)))) {
            1nat
        } else {
            0nat
        },
{
    lemma_changes_push(stats.replies@, reply);
    if let Some(Ok(StreamingItem::Item(change))) = reply {
        lemma_played_push(Seq::empty(), changes_in(stats.replies@), change);
    }
}

impl DeltaNode {
    /// The next change. `alive` tells whether the query was not cancelled.
    pub fn next(&mut self, alive: bool) -> (item: TupleItem)
        requires
            old(self).wf(),
        ensures
            same_node(*old(self), *final(self)),
            flows(old(self).flow(), final(self).flow(), item_view(item)),
            may_come(old(self).sound(), alive, old(self).blind(), item),
            honest(*old(self), *final(self), alive, item),
            *old(self) is Stats ==> final(self).replies() == old(self).replies().push(
                item_view(item),
            ),
            adds(*old(self), *final(self), item),
        decreases old(self).height(), 0nat,
    {
        let ghost before = *self;
        match self {
            DeltaNode::Values(operator) => {
                let item = operator.next();
                proof {
                    lemma_same(before.sources());
                }
                item
            },
            DeltaNode::QuadPattern(operator) => {
                let ghost old_operator = *operator;
                let item = operator.next(alive);
                proof {
                    assert(patterns_of(operator.sources()) =~= patterns_of(old_operator.sources()));
                }
                item
            },
            DeltaNode::Join { left, right, join } => next_joined(
                &mut **left,
                &mut **right,
                join,
                alive,
            ),
            DeltaNode::Project { inner, operator } => next_projected(
                &mut **inner,
                operator,
                alive,
            ),
            DeltaNode::Stats { inner, stats } => {
                let ghost old_inner = **inner;
                let ghost old_stats = *stats;
                let item = next_counted(&mut **inner, stats, alive);
                proof {
                    lemma_same_stats(old_inner, old_stats, **inner, *stats);
                    lemma_changes_push(old_stats.replies@, item_view(item));
                }
                item
            },
        }
    }
}

/// Whether sources that took over what waited for them are the same sources.
proof fn lemma_refilled_same(
    before: Seq<LiveQuadDeltaSource>,
    after: Seq<LiveQuadDeltaSource>,
    old_storage: Storage,
    new_storage: Storage,
)
    requires
        refilled(before, after, old_storage, new_storage),
    ensures
        same_subscriptions(before, after),
        patterns_of(after) == patterns_of(before),
{
    assert(patterns_of(after) =~= patterns_of(before));
}

proof fn lemma_same_live(operator: QuadPatternOperator, new_operator: QuadPatternOperator)
    requires
        same_subscriptions(operator.sources(), new_operator.sources()),
    ensures
        new_operator.live() == operator.live(),
{
    let a = operator.sources();
    let b = new_operator.sources();
    operator.lemma_parts();
    new_operator.lemma_parts();
    if operator.live() {
        let i = choose|i: int| 0 <= i < a.len() && (#[trigger] a[i]).subscription() is Some;
        assert(b[i].subscription() is Some);
    }
    if new_operator.live() {
        let i = choose|i: int| 0 <= i < b.len() && (#[trigger] b[i]).subscription() is Some;
        assert(a[i].subscription() is Some);
    }
}

/// Nothing waits for a query to which no further changes may come.
proof fn lemma_quiet(node: DeltaNode, storage: Storage)
    ensures
        !node.live() ==> nothing_waits(node.sources(), storage),
{
    law_live_queries_have_subscriptions(node);
    if !node.live() {
        assert forall|i: int| 0 <= i < node.sources().len() implies (
        #[trigger] node.sources()[i]).subscription() is None by {}
    }
}

impl DeltaNode {
    /// Takes over the changes that wait for the sources.
    pub fn refill(&mut self, storage: &mut Storage)
        requires
            old(self).wf(),
            old(storage).wf(),
        ensures
            same_shape(*old(self), *final(self)),
            final(self).held() == old(self).held(),
            final(self).replies() == old(self).replies(),
            final(self).measured() == old(self).measured(),
            old(self).additive() ==> final(self).additive(),
            old(self).consistent() ==> final(self).consistent(),
            !old(self).live() ==> final(self).goal() == old(self).goal(),
            nothing_waits(old(self).sources(), *old(storage)) ==> final(self).fuel()
                == old(self).fuel(),
            old(self).clean() ==> final(self).clean(),
            same_failures(old(self).sources(), final(self).sources()),
            refilled(old(self).sources(), final(self).sources(), *old(storage), *final(storage)),
        decreases old(self).height(),
    {
        let ghost before = *self;
        let ghost first = *storage;
        match self {
            DeltaNode::Values(_) => {
                proof {
                    lemma_same_node(before);
                    crate::attachment::lemma_refilled_none(first);
                }
            },
            DeltaNode::QuadPattern(operator) => {
                let ghost old_operator = *operator;
                operator.refill(storage);
                proof {
                    lemma_refilled_same(
                        old_operator.sources(),
                        operator.sources(),
                        first,
                        *storage,
                    );
                    lemma_same_live(old_operator, *operator);
                    old_operator.lemma_parts();
                    operator.lemma_parts();
                    if nothing_waits(old_operator.sources(), first) {
                        lemma_same_left(old_operator.sources(), operator.sources());
                    }
                }
            },
            DeltaNode::Join { left, right, join } => {
                let ghost old_left = **left;
                let ghost old_right = **right;
                left.refill(storage);
                let ghost second = *storage;
                right.refill(storage);
                proof {
                    if nothing_waits(old_left.sources() + old_right.sources(), first) {
                        lemma_nothing_waits_add(
                            old_left.sources(),
                            old_right.sources(),
                            first,
                            second,
                        );
                    }
                    lemma_quiet(old_left, first);
                    lemma_quiet(old_right, second);
                    lemma_refilled_add(
                        old_left.sources(),
                        left.sources(),
                        old_right.sources(),
                        right.sources(),
                        first,
                        second,
                        *storage,
                    );
                    assert(join_node(**left, **right, *join).wf());
                    lemma_same_join_shape(old_left, old_right, *join, **left, **right, *join);
                }
            },
            DeltaNode::Project { inner, operator } => {
                let ghost old_inner = **inner;
                inner.refill(storage);
                proof {
                    lemma_same_project(old_inner, *operator, **inner, *operator);
                }
            },
            DeltaNode::Stats { inner, stats } => {
                let ghost old_inner = **inner;
                inner.refill(storage);
                proof {
                    lemma_same_stats(old_inner, *stats, **inner, *stats);
                }
            },
        }
    }

    /// What was measured.
    pub fn stats(&self) -> (nodes: Vec<EvalNodeWithStats>)
        ensures
            views(nodes@) == self.measured(),
        decreases self,
    {
        let mut nodes: Vec<EvalNodeWithStats> = Vec::new();
        match self {
            DeltaNode::Values(_) => {
                assert(views(nodes@) =~= self.measured());
            },
            DeltaNode::QuadPattern(_) => {
                assert(views(nodes@) =~= self.measured());
            },
            DeltaNode::Join { left, right, .. } => {
                let mut left_nodes = left.stats();
                let mut right_nodes = right.stats();
                nodes.append(&mut left_nodes);
                nodes.append(&mut right_nodes);
                assert(views(nodes@) =~= self.measured());
            },
            DeltaNode::Project { inner, .. } => {
                nodes = inner.stats();
            },
            DeltaNode::Stats { inner, stats } => {
                let node = EvalNodeWithStats {
                    label: stats.label,
                    children: inner.stats(),
                    exec_count: stats.exec_count.duplicate(),
                    exec_duration: stats.exec_duration,
                };
                nodes.push(node);
                proof {
                    assert(node@.children =~= views(node.children@));
                    assert(views(nodes@) =~= self.measured());
                }
            },
        }
        nodes
    }

    /// Ends the subscriptions of the sources.
    pub fn close(self, storage: &mut Storage)
        requires
            old(storage).wf(),
        ensures
            released(self.sources(), *old(storage), *final(storage)),
        decreases self,
    {
        let ghost first = *storage;
        match self {
            DeltaNode::Values(_) => {
                proof {
                    assert forall|id: usize| !crate::attachment::belongs(
                        Seq::<LiveQuadDeltaSource>::empty(),
                        id,
                    ) by {}
                }
            },
            DeltaNode::QuadPattern(operator) => operator.close(storage),
            DeltaNode::Join { left, right, .. } => {
                let ghost left_sources = left.sources();
                let ghost right_sources = right.sources();
                (*left).close(storage);
                let ghost second = *storage;
                (*right).close(storage);
                proof {
                    lemma_released_add(left_sources, right_sources, first, second, *storage);
                }
            },
            DeltaNode::Project { inner, .. } => (*inner).close(storage),
            DeltaNode::Stats { inner, .. } => (*inner).close(storage),
        }
    }
}

/// Whether a source has a subscription.
pub open spec fn subscribed(sources: Seq<LiveQuadDeltaSource>) -> bool {
    exists|i: int| 0 <= i < sources.len() && (#[trigger] sources[i]).subscription() is Some
}

/// Further changes may come to a query exactly where one of its sources has a subscription.
pub proof fn law_live_queries_have_subscriptions(node: DeltaNode)
    ensures
        node.live() == subscribed(node.sources()),
    decreases node,
{
    match node {
        DeltaNode::Values(_) => {},
        DeltaNode::QuadPattern(operator) => {
            operator.lemma_parts();
        },
        DeltaNode::Join { left, right, .. } => {
            law_live_queries_have_subscriptions(*left);
            law_live_queries_have_subscriptions(*right);
            let a = left.sources();
            let b = right.sources();
            if subscribed(a) {
                let i = choose|i: int|
                    0 <= i < a.len() && (#[trigger] a[i]).subscription() is Some;
                assert((a + b)[i] == a[i]);
            }
            if subscribed(b) {
                let i = choose|i: int|
                    0 <= i < b.len() && (#[trigger] b[i]).subscription() is Some;
                assert((a + b)[a.len() + i] == b[i]);
            }
            if subscribed(a + b) {
                let i = choose|i: int|
                    0 <= i < (a + b).len() && (#[trigger] (a + b)[i]).subscription() is Some;
                if i < a.len() {
                    assert(a[i].subscription() is Some);
                } else {
                    assert(b[i - a.len()].subscription() is Some);
                }
            }
        },
        DeltaNode::Project { inner, .. } => law_live_queries_have_subscriptions(*inner),
        DeltaNode::Stats { inner, .. } => law_live_queries_have_subscriptions(*inner),
    }
}

proof fn lemma_lead_to_parts(
    a: Seq<LiveQuadDeltaSource>,
    b: Seq<LiveQuadDeltaSource>,
    listing: Seq<EncodedQuad>,
)
    requires
        lead_to(a + b, listing),
    ensures
        lead_to(a, listing),
        lead_to(b, listing),
{
    let all = a + b;
    assert forall|i: int| 0 <= i < a.len() implies same_bag(
        source_goal()(#[trigger] a[i]),
        picked(listing, a[i].pattern()),
    ) by {
        assert(same_bag(source_goal()(all[i]), picked(listing, all[i].pattern())));
    }
    assert forall|i: int| 0 <= i < b.len() implies same_bag(
        source_goal()(#[trigger] b[i]),
        picked(listing, b[i].pattern()),
    ) by {
        let k = a.len() + i;
        assert(same_bag(source_goal()(all[k]), picked(listing, all[k].pattern())));
    }
}

/// Where the sources of a query lead to the quads of a list, the query leads to the rows
/// that it has over that list.
pub proof fn law_query_leads_to_its_answer(node: DeltaNode, listing: Seq<EncodedQuad>)
    requires
        lead_to(node.sources(), listing),
    ensures
        same_bag(node.goal(), node.answer(listing)),
    decreases node,
{
    match node {
        DeltaNode::Values(_) => {},
        DeltaNode::QuadPattern(operator) => {
            operator.lemma_parts();
            let shape = operator.quads().shape();
            let read = led_to(operator.sources());
            let all = all_picked(listing, patterns_of(operator.sources()));
            lemma_led_to_picked(operator.sources(), listing);
            lemma_shaped_same(shape, read, all);
            lemma_filter_map_same_bag(
                shaped(shape, read),
                shaped(shape, all),
                operator.matched(),
            );
        },
        DeltaNode::Join { left, right, join } => {
            lemma_lead_to_parts(left.sources(), right.sources(), listing);
            law_query_leads_to_its_answer(*left, listing);
            law_query_leads_to_its_answer(*right, listing);
            lemma_joined_same(
                left.goal(),
                left.answer(listing),
                right.goal(),
                right.answer(listing),
                join.pairing(),
            );
        },
        DeltaNode::Project { inner, operator } => {
            law_query_leads_to_its_answer(*inner, listing);
            lemma_filter_map_same_bag(
                inner.goal(),
                inner.answer(listing),
                operator.projection(),
            );
        },
        DeltaNode::Stats { inner, .. } => {
            law_query_leads_to_its_answer(*inner, listing);
        },
    }
}

/// A query whose rows are all given has answered with some of its rows, each at most as often
/// as it has it.
pub proof fn law_given_rows_are_not_exceeded(node: DeltaNode)
    requires
        node.additive(),
        node.consistent(),
    ensures
        sub_bag(node.held(), node.goal()),
        node.held().len() <= node.goal().len(),
    decreases node,
{
    match node {
        DeltaNode::Values(operator) => operator.lemma_within(),
        DeltaNode::QuadPattern(_) => {},
        DeltaNode::Join { left, right, join } => {
            law_given_rows_are_not_exceeded(*left);
            law_given_rows_are_not_exceeded(*right);
            let heard = joined(
                join.told(JoinSide::Left),
                join.told(JoinSide::Right),
                join.pairing(),
            );
            lemma_joined_same(
                join.told(JoinSide::Left),
                left.held(),
                join.told(JoinSide::Right),
                right.held(),
                join.pairing(),
            );
            let held = joined(left.held(), right.held(), join.pairing());
            lemma_joined_sub_bag(
                left.held(),
                left.goal(),
                right.held(),
                right.goal(),
                join.pairing(),
            );
            assert forall|row: TupleView| #[trigger] count(join.held(), row) <= count(
                node.goal(),
                row,
            ) by {
                lemma_balance(join.buffered(), DeltaKind::Addition, row);
                lemma_count(result_rows(join.buffered()), row);
                assert(count(join.held(), row) + balance(join.buffered(), row) == count(heard, row));
                assert(count(heard, row) == count(held, row));
                assert(count(held, row) <= count(node.goal(), row));
            }
        },
        DeltaNode::Project { inner, operator } => {
            law_given_rows_are_not_exceeded(*inner);
            let images = filter_map(inner.held(), operator.projection());
            lemma_filter_map_sub_bag(inner.held(), inner.goal(), operator.projection());
            assert forall|row: TupleView| #[trigger] count(node.held(), row) <= count(
                node.goal(),
                row,
            ) by {
                assert(count(operator.held(), row) == count(images, row));
                assert(count(images, row) <= count(node.goal(), row));
            }
        },
        DeltaNode::Stats { inner, .. } => law_given_rows_are_not_exceeded(*inner),
    }
    lemma_sub_bag_len(node.held(), node.goal());
}

/// A query whose rows are all given, and which has none left, has answered with each of its
/// rows once, as an addition, and with no other change.
pub proof fn law_given_rows_come_once(node: DeltaNode, listing: Seq<EncodedQuad>)
    requires
        node is Stats,
        node.wf(),
        node.additive(),
        same_bag(node.held(), node.goal()),
    ensures
        changes_in(node.replies()) == additions(node.held()),
        same_bag(node.held(), node.answer(listing)),
        changes_in(node.replies()).len() == node.answer(listing).len(),
{
    lemma_only_additions(changes_in(node.replies()));
    lemma_additive(node);
    law_query_leads_to_its_answer(node, listing);
    lemma_same_bag_transitive(node.held(), node.goal(), node.answer(listing));
    lemma_weight_same_bag(node.held(), node.answer(listing), |row: TupleView| 0int);
}

} // verus!
