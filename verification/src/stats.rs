//! How often the nodes of a query hand out a row, and how long that takes.

use crate::delta::{Delta, StreamingItem};
use crate::error::QueryEvaluationError;
use crate::tally::Tally;
use crate::tuple::TupleView;
use oxsdatatypes::DayTimeDuration;
use std::time::{Duration, Instant};
use vstd::prelude::*;

verus! {

/// A point of the clock.
#[verifier::external_type_specification]
#[verifier::external_body]
pub struct ExInstant(std::time::Instant);

/// `std::time::Instant::now`: the present point of the clock, of which nothing is claimed.
#[verifier::external_body]
fn clock() -> Instant {
    Instant::now()
}

/// `std::time::Instant::elapsed`: the time since a point of the clock, as whole seconds and
/// the nanoseconds of the second that has begun. How much time it is depends on the clock
/// and is not claimed.
#[verifier::external_body]
fn since(start: &Instant) -> (elapsed: (u64, u32))
    ensures
        elapsed.1 < 1_000_000_000,
{
    let elapsed = start.elapsed();
    (elapsed.as_secs(), elapsed.subsec_nanos())
}

/// `oxsdatatypes::DayTimeDuration::try_from` on a span of time, given as whole seconds and
/// nanoseconds: the span in units of 10^-18 seconds. No span of time is too long for that.
#[verifier::external_body]
fn day_time(seconds: u64, nanoseconds: u32) -> (units: Option<i128>)
    requires
        nanoseconds < 1_000_000_000,
    ensures
        units == Some(units_of(seconds, nanoseconds) as i128),
{
    match DayTimeDuration::try_from(Duration::new(seconds, nanoseconds)) {
        Ok(duration) => Some(i128::from_be_bytes(duration.to_be_bytes())),
        Err(_) => None,
    }
}

/// A span of time in units of 10^-18 seconds.
pub open spec fn units_of(seconds: u64, nanoseconds: u32) -> int {
    (seconds * 1_000_000_000 + nanoseconds) * 1_000_000_000
}

/// Whether a number of units of 10^-18 seconds is a span of time: whole seconds, and
/// nanoseconds that make no second.
pub open spec fn is_span(units: int) -> bool {
    exists|seconds: u64, nanoseconds: u32|
        nanoseconds < 1_000_000_000 && units == #[trigger] units_of(seconds, nanoseconds)
}

/// A span of time, given as whole seconds and nanoseconds, in units of 10^-18 seconds.
pub fn span_units(seconds: u64, nanoseconds: u32) -> (units: Option<i128>)
    requires
        nanoseconds < 1_000_000_000,
    ensures
        units matches Some(units) && units == units_of(seconds, nanoseconds),
{
    assert(0 <= units_of(seconds, nanoseconds) <= i128::MAX);
    day_time(seconds, nanoseconds)
}

/// `oxsdatatypes::DayTimeDuration::checked_add`, on durations in units of 10^-18 seconds:
/// their sum, unless it is out of range.
#[verifier::external_body]
fn add_durations(a: i128, b: i128) -> (sum: Option<i128>)
    ensures
        sum == total(a, b),
{
    DayTimeDuration::from_be_bytes(a.to_be_bytes())
        .checked_add(DayTimeDuration::from_be_bytes(b.to_be_bytes()))
        .map(|sum| i128::from_be_bytes(sum.to_be_bytes()))
}

/// The sum of two numbers, unless it is out of range.
pub open spec fn total(a: i128, b: i128) -> Option<i128> {
    if i128::MIN <= a + b <= i128::MAX {
        Some((a + b) as i128)
    } else {
        None
    }
}

/// Measures time.
pub struct Timer {
    start: Instant,
}

impl Timer {
    pub fn now() -> Timer {
        Timer { start: clock() }
    }

    /// The time since the start, in units of 10^-18 seconds: a span of time, which is there
    /// whatever the clock says. How long it is depends on the clock; [`span_units`] says what
    /// becomes of what the clock says.
    pub fn elapsed(&self) -> (units: Option<i128>)
        ensures
            units matches Some(units) && units >= 0 && is_span(units as int),
    {
        let (seconds, nanoseconds) = since(&self.start);
        span_units(seconds, nanoseconds)
    }
}

/// The kinds of nodes of a query.
#[derive(Clone, Copy, PartialEq, Eq, Structural, Debug)]
pub enum NodeLabel {
    Values,
    QuadPattern,
    Path,
    Graph,
    Join,
    Minus,
    LeftJoin,
    Filter,
    Union,
    Extend,
    OrderBy,
    Distinct,
    Reduced,
    Slice,
    Project,
    Group,
    Service,
}

/// A node of a query, with what was measured of it and of its children.
pub struct EvalNodeWithStats {
    pub label: NodeLabel,
    pub children: Vec<EvalNodeWithStats>,
    pub exec_count: Tally,
    pub exec_duration: Option<i128>,
}

/// A node of a query by its kind, its children, how often it handed out a row, and how long
/// that took.
pub struct StatsView {
    pub label: NodeLabel,
    pub children: Seq<StatsView>,
    pub exec_count: nat,
    pub exec_duration: Option<i128>,
}

/// The time that is measured before there is anything to measure.
pub open spec fn no_time(run_stats: bool) -> Option<i128> {
    if run_stats {
        Some(0i128)
    } else {
        None
    }
}

impl EvalNodeWithStats {
    pub open spec fn view(&self) -> StatsView
        decreases self,
    {
        StatsView {
            label: self.label,
            children: Seq::new(
                self.children@.len(),
                |i: int|
                    if 0 <= i < self.children@.len() {
                        self.children@[i].view()
                    } else {
                        arbitrary()
                    },
            ),
            exec_count: self.exec_count@,
            exec_duration: self.exec_duration,
        }
    }
}

/// Nodes of queries by their views.
pub open spec fn views(nodes: Seq<EvalNodeWithStats>) -> Seq<StatsView> {
    nodes.map_values(|node: EvalNodeWithStats| node.view())
}

/// What a node answers when it is asked for its next change.
pub type Reply = Option<Result<StreamingItem<Delta<TupleView>>, QueryEvaluationError>>;

/// The changes among the answers of a node.
pub open spec fn changes_in(replies: Seq<Reply>) -> Seq<Delta<TupleView>>
    decreases replies.len(),
{
    if replies.len() == 0 {
        Seq::empty()
    } else {
        let before = changes_in(replies.drop_last());
        match replies.last() {
            Some(Ok(StreamingItem::Item(change))) => before.push(change),
            _ => before,
        }
    }
}

pub proof fn lemma_changes_push(replies: Seq<Reply>, reply: Reply)
    ensures
        changes_in(replies.push(reply)) == match reply {
            Some(Ok(StreamingItem::Item(change))) => changes_in(replies).push(change),
            _ => changes_in(replies),
        },
{
    assert(replies.push(reply).drop_last() =~= replies);
}

/// What spans of time come to together. A sum that is out of range ends the measurement.
pub open spec fn total_of(spans: Seq<i128>) -> Option<i128>
    decreases spans.len(),
{
    if spans.len() == 0 {
        Some(0i128)
    } else {
        match total_of(spans.drop_last()) {
            Some(so_far) => total(so_far, spans.last()),
            None => None,
        }
    }
}

/// What is measured of one node.
pub struct NodeStats {
    pub label: NodeLabel,
    pub run_stats: bool,
    pub exec_count: Tally,
    pub exec_duration: Option<i128>,
    /// What the node has answered so far.
    pub replies: Ghost<Seq<Reply>>,
    /// The times that were measured so far.
    pub spans: Ghost<Seq<i128>>,
}

impl NodeStats {
    /// How often the node handed out a row.
    pub open spec fn count(&self) -> nat {
        self.exec_count@
    }

    /// Whether a node is the same node with the same count.
    pub open spec fn same_but_time(&self, other: NodeStats) -> bool {
        self.label == other.label && self.run_stats == other.run_stats && self.exec_count@
            == other.exec_count@ && self.replies == other.replies
    }

    /// Whether the count is that of the changes that the node has answered with, and the time
    /// is that of its start and of its answers together: for each of them the clock has told
    /// a span of time. Where nothing is to be measured, nothing is.
    pub open spec fn wf(&self) -> bool {
        if self.run_stats {
            &&& self.count() == changes_in(self.replies@).len()
            &&& self.spans@.len() == self.replies@.len() + 1
            &&& forall|i: int|
                0 <= i < self.spans@.len() ==> is_span((#[trigger] self.spans@[i]) as int)
            &&& self.exec_duration == total_of(self.spans@)
        } else {
            &&& self.count() == 0
            &&& self.spans@.len() == 0
            &&& self.exec_duration is None
        }
    }

    /// Whether a node is the same node later.
    pub open spec fn follows(&self, before: NodeStats) -> bool {
        &&& self.label == before.label
        &&& self.run_stats == before.run_stats
        &&& before.replies@.is_prefix_of(self.replies@)
        &&& before.spans@.is_prefix_of(self.spans@)
    }

    pub fn new(label: NodeLabel, run_stats: bool) -> (stats: Self)
        ensures
            stats.label == label,
            stats.run_stats == run_stats,
            stats.exec_count@ == 0,
            stats.exec_duration == no_time(run_stats),
            stats.replies@.len() == 0,
            stats.spans@.len() == 0,
    {
        NodeStats {
            label,
            run_stats,
            exec_count: Tally::new(),
            exec_duration: if run_stats {
                Some(0)
            } else {
                None
            },
            replies: Ghost(Seq::empty()),
            spans: Ghost(Seq::empty()),
        }
    }

    /// Adds a duration. A sum that is out of range ends the measurement.
    pub fn add_time(&mut self, duration: Option<i128>)
        ensures
            final(self).same_but_time(*old(self)),
            final(self).exec_duration == match (old(self).exec_duration, duration) {
                (Some(so_far), Some(duration)) => total(so_far, duration),
                _ => None,
            },
            final(self).spans@ == match duration {
                Some(duration) => old(self).spans@.push(duration),
                None => old(self).spans@,
            },
    {
        if let Some(duration) = duration {
            self.spans = Ghost(self.spans@.push(duration));
        }
        self.exec_duration = match (self.exec_duration, duration) {
            (Some(so_far), Some(duration)) => add_durations(so_far, duration),
            _ => None,
        };
    }

    /// Counts a row that was handed out.
    pub fn add_row(&mut self)
        ensures
            final(self).label == old(self).label,
            final(self).run_stats == old(self).run_stats,
            final(self).exec_count@ == old(self).exec_count@ + 1,
            final(self).exec_duration == old(self).exec_duration,
            final(self).replies == old(self).replies,
            final(self).spans == old(self).spans,
    {
        self.exec_count.add();
    }
}

/// Spans of time come to their sum, as long as no sum on the way is out of range.
pub proof fn law_times_add_up(spans: Seq<i128>, more: i128)
    ensures
        total_of(Seq::empty()) == Some(0i128),
        total_of(spans) matches Some(sum) ==> total_of(spans.push(more)) == if i128::MIN <= sum
            + more <= i128::MAX {
            Some((sum + more) as i128)
        } else {
            None
        },
        total_of(spans) is None ==> total_of(spans.push(more)) is None,
{
    assert(spans.push(more).drop_last() =~= spans);
}

/// The changes that a node has answered with are its answers that are changes, in their order.
pub proof fn law_changes_are_taken_from_the_answers(replies: Seq<Reply>, reply: Reply)
    ensures
        changes_in(Seq::empty()).len() == 0,
        reply matches Some(Ok(StreamingItem::Item(change))) ==> changes_in(replies.push(reply))
            == changes_in(replies).push(change),
        !(reply matches Some(Ok(StreamingItem::Item(_)))) ==> changes_in(replies.push(reply))
            == changes_in(replies),
{
    assert(replies.push(reply).drop_last() =~= replies);
}

/// A second is a thousand million nanoseconds, and a nanosecond a thousand million units.
pub proof fn law_units_of_time(seconds: u64, nanoseconds: u32)
    requires
        seconds < u64::MAX,
        nanoseconds < u32::MAX,
    ensures
        units_of(0, 0) == 0,
        units_of(seconds, (nanoseconds + 1) as u32) == units_of(seconds, nanoseconds)
            + 1_000_000_000,
        units_of((seconds + 1) as u64, nanoseconds) == units_of(seconds, nanoseconds)
            + 1_000_000_000_000_000_000,
{
}

} // verus!
