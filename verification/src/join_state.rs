//! A join that is kept up to date: what it has heard, what it has to hand out, and what
//! its consumer holds.

use crate::bag::{count, is, lemma_count, same_bag, weight};
use crate::delta::{Delta, DeltaKind};
use crate::error::QueryEvaluationError;
use crate::join::{
    by_bindings, by_key, joined, lemma_joined_left, lemma_joined_right, lemma_joined_same, Pairing,
};
use crate::join_values::{
    delta_view, of_kind, partners, result_rows, JoinResult, JoinSide, SymmetricHashJoinValues,
    SymmetricNestedLoopJoinValues,
};
use crate::replay::{applies, lemma_step_count, signed, step};
use crate::tuple::{InternalTuple, TupleView};
use vstd::prelude::*;

verus! {

/// What a join has heard of its sides.
pub enum JoinValues {
    Hash(SymmetricHashJoinValues),
    NestedLoop(SymmetricNestedLoopJoinValues),
}

impl JoinValues {
    pub open spec fn wf(&self) -> bool {
        self matches JoinValues::Hash(values) ==> values.wf()
    }

    pub open spec fn pairing(&self) -> Pairing {
        match self {
            JoinValues::Hash(values) => by_key(values.key()),
            JoinValues::NestedLoop(_) => by_bindings(),
        }
    }

    pub open spec fn told(&self, side: JoinSide, active: JoinSide) -> Seq<TupleView> {
        match self {
            JoinValues::Hash(values) => values.told(side, active),
            JoinValues::NestedLoop(values) => values.told(side),
        }
    }

    pub open spec fn settled(&self) -> bool {
        self matches JoinValues::Hash(values) ==> values.settled()
    }

    pub open spec fn playable(&self, active: JoinSide) -> bool {
        self matches JoinValues::Hash(values) ==> values.playable(active)
    }
}

/// By how much a result alters how often `row` occurs.
pub open spec fn result_sign(row: TupleView) -> spec_fn(JoinResult) -> int {
    |result: JoinResult|
        match result {
            Ok(delta) => signed(row)(delta_view(delta)),
            Err(_) => 0,
        }
}

/// By how much results alter how often `row` occurs.
pub open spec fn balance(results: Seq<JoinResult>, row: TupleView) -> int {
    weight(results, result_sign(row))
}

/// Whether results are changes of one kind.
pub open spec fn uniform(results: Seq<JoinResult>) -> bool {
    of_kind(results, DeltaKind::Addition) || of_kind(results, DeltaKind::Deletion)
}

pub(crate) proof fn lemma_balance(results: Seq<JoinResult>, kind: DeltaKind, row: TupleView)
    requires
        of_kind(results, kind),
    ensures
        balance(results, row) == match kind {
            DeltaKind::Addition => count(result_rows(results), row),
            DeltaKind::Deletion => -count(result_rows(results), row),
        },
    decreases results.len(),
{
    if results.len() > 0 {
        let front = results.drop_last();
        assert forall|i: int| 0 <= i < front.len() implies (#[trigger] front[i]) is Ok
            && front[i]->Ok_0.kind_of() == kind by {
            assert(front[i] == results[i]);
        }
        lemma_balance(front, kind, row);
        assert(result_rows(results).drop_last() =~= result_rows(front));
        assert(results[results.len() - 1] is Ok);
    }
}

/// The rows that a change of one side gives. A deletion of a row that is not there gives
/// none, unless rows are found by a hash: there the deletion is found out later.
pub open spec fn rows_given(
    hashed: bool,
    pairing: Pairing,
    side: JoinSide,
    told: Seq<TupleView>,
    others: Seq<TupleView>,
    change: Delta<TupleView>,
) -> Seq<TupleView> {
    if hashed || applies(told, change) {
        partners(pairing, side, change.value_of(), others)
    } else {
        Seq::empty()
    }
}

/// A symmetric join of two streams of changes, without the streams.
pub struct SymmetricJoinIterator {
    values: JoinValues,
    buffered_results: Vec<JoinResult>,
    left_done: bool,
    right_done: bool,
    active_side: JoinSide,
    held: Ghost<Seq<TupleView>>,
}

impl SymmetricJoinIterator {
    pub closed spec fn wf(&self) -> bool {
        self.values.wf()
    }

    pub closed spec fn pairing(&self) -> Pairing {
        self.values.pairing()
    }

    /// Whether rows are found by the hash of key columns.
    pub closed spec fn hashed(&self) -> bool {
        self.values is Hash
    }

    /// What was heard of a side.
    pub closed spec fn told(&self, side: JoinSide) -> Seq<TupleView> {
        self.values.told(side, self.active_side)
    }

    /// Whether no change is left to apply.
    pub closed spec fn settled(&self) -> bool {
        self.values.settled()
    }

    /// Whether the changes that are left can be applied.
    pub closed spec fn playable(&self) -> bool {
        self.values.playable(self.active_side)
    }

    /// The results that wait to be handed out.
    pub closed spec fn buffered(&self) -> Seq<JoinResult> {
        self.buffered_results@
    }

    pub closed spec fn done(&self, side: JoinSide) -> bool {
        match side {
            JoinSide::Left => self.left_done,
            JoinSide::Right => self.right_done,
        }
    }

    pub closed spec fn active(&self) -> JoinSide {
        self.active_side
    }

    /// What the consumer holds.
    pub closed spec fn held(&self) -> Seq<TupleView> {
        self.held@
    }

    /// Whether the results that wait lead the consumer to the join of what was heard.
    pub open spec fn sound(&self) -> bool {
        &&& uniform(self.buffered())
        &&& forall|row: TupleView| #[trigger]
            count(self.held(), row) + balance(self.buffered(), row) == count(
                joined(self.told(JoinSide::Left), self.told(JoinSide::Right), self.pairing()),
                row,
            )
    }

    /// A join by the hash of key columns.
    pub fn by_hash(key: Vec<usize>) -> (join: Self)
        ensures
            join.starts(by_key(key@)),
    {
        Self::start(JoinValues::Hash(SymmetricHashJoinValues::new(key)))
    }

    /// A join by comparison of all rows.
    pub fn by_nested_loop() -> (join: Self)
        ensures
            join.starts(by_bindings()),
    {
        Self::start(JoinValues::NestedLoop(SymmetricNestedLoopJoinValues::new()))
    }

    /// Whether the join has heard nothing yet.
    pub open spec fn starts(&self, pairing: Pairing) -> bool {
        &&& self.wf()
        &&& self.pairing() == pairing
        &&& self.settled()
        &&& self.playable()
        &&& self.buffered().len() == 0
        &&& self.held() == Seq::<TupleView>::empty()
        &&& forall|side: JoinSide| #[trigger] self.told(side) == Seq::<TupleView>::empty()
        &&& forall|side: JoinSide| !#[trigger] self.done(side)
        &&& self.sound()
    }

    fn start(values: JoinValues) -> (join: Self)
        requires
            values.wf(),
            values.settled(),
            forall|side: JoinSide, active: JoinSide| #[trigger]
                values.told(side, active) == Seq::<TupleView>::empty(),
            forall|active: JoinSide| #[trigger] values.playable(active),
        ensures
            join.starts(values.pairing()),
    {
        let join = SymmetricJoinIterator {
            values,
            buffered_results: Vec::new(),
            left_done: false,
            right_done: false,
            active_side: JoinSide::Left,
            held: Ghost(Seq::empty()),
        };
        assert(joined(Seq::empty(), Seq::empty(), values.pairing()) =~= Seq::empty());
        join
    }

    /// Where nothing is left to apply it does not matter which side is active.
    proof fn lemma_settled(&self, side: JoinSide)
        requires
            self.settled(),
        ensures
            forall|s: JoinSide| #[trigger] self.values.told(s, side) == self.told(s),
            self.playable(),
    {
        if let JoinValues::Hash(values) = self.values {
            values.lemma_settled();
            assert forall|s: JoinSide| #[trigger] self.values.told(s, side) == self.told(s) by {
                assert(values.told(s, side) == values.told(s, self.active_side));
            }
        }
    }

    pub fn is_done(&self, side: JoinSide) -> (done: bool)
        ensures
            done == self.done(side),
    {
        match side {
            JoinSide::Left => self.left_done,
            JoinSide::Right => self.right_done,
        }
    }

    pub fn active_side(&self) -> (side: JoinSide)
        ensures
            side == self.active(),
    {
        self.active_side
    }

    pub fn is_empty(&self) -> (empty: bool)
        ensures
            empty == (self.buffered().len() == 0),
    {
        self.buffered_results.len() == 0
    }

    /// Whether a join is another one but for which sides are done and which is active.
    pub open spec fn like(&self, other: Self) -> bool {
        &&& self.wf() == other.wf()
        &&& self.hashed() == other.hashed()
        &&& self.pairing() == other.pairing()
        &&& forall|side: JoinSide| #[trigger] self.told(side) == other.told(side)
        &&& self.settled() == other.settled()
        &&& self.buffered() == other.buffered()
        &&& self.held() == other.held()
    }

    /// Notes that the active side has ended.
    pub fn end_active_side(&mut self)
        ensures
            final(self).like(*old(self)),
            final(self).playable() == old(self).playable(),
            final(self).active() == old(self).active(),
            final(self).done(old(self).active()),
            final(self).done(old(self).active().opposite()) == old(self).done(
                old(self).active().opposite(),
            ),
    {
        match self.active_side {
            JoinSide::Left => {
                self.left_done = true;
            },
            JoinSide::Right => {
                self.right_done = true;
            },
        }
    }

    /// Turns to the other side.
    pub fn switch_side(&mut self)
        requires
            old(self).settled(),
        ensures
            final(self).like(*old(self)),
            final(self).playable(),
            final(self).active() == old(self).active().opposite(),
            forall|side: JoinSide| #[trigger] final(self).done(side) == old(self).done(side),
    {
        let ghost before = *self;
        self.active_side = self.active_side.other();
        proof {
            before.lemma_settled(self.active_side);
            self.lemma_settled(self.active_side);
            assert forall|side: JoinSide| #[trigger] self.told(side) == before.told(side) by {
                assert(before.values.told(side, self.active_side) == before.told(side));
            }
        }
    }

    /// Hands out the result that was found last.
    pub fn pop(&mut self) -> (result: Option<JoinResult>)
        ensures
            final(self).wf() == old(self).wf(),
            final(self).hashed() == old(self).hashed(),
            final(self).pairing() == old(self).pairing(),
            forall|side: JoinSide| #[trigger] final(self).told(side) == old(self).told(side),
            final(self).settled() == old(self).settled(),
            final(self).playable() == old(self).playable(),
            final(self).active() == old(self).active(),
            forall|side: JoinSide| #[trigger] final(self).done(side) == old(self).done(side),
            match result {
                Some(result) => {
                    &&& old(self).buffered().len() > 0
                    &&& result == old(self).buffered().last()
                    &&& final(self).buffered() == old(self).buffered().drop_last()
                    &&& final(self).held() == match result {
                        Ok(delta) => step(old(self).held(), delta_view(delta)),
                        Err(_) => old(self).held(),
                    }
                    &&& old(self).sound() ==> {
                        &&& result is Ok
                        &&& applies(old(self).held(), delta_view(result->Ok_0))
                        &&& final(self).sound()
                    }
                },
                None => old(self).buffered().len() == 0 && final(self).buffered()
                    == old(self).buffered() && final(self).held() == old(self).held(),
            },
    {
        let ghost before = *self;
        let result = self.buffered_results.pop();
        match result {
            Some(result) => {
                if let Ok(delta) = &result {
                    self.held = Ghost(step(before.held@, delta_view(*delta)));
                }
                proof {
                    if before.sound() {
                        self.lemma_popped(before);
                    }
                }
                Some(result)
            },
            None => None,
        }
    }

    proof fn lemma_popped(&self, before: Self)
        requires
            before.sound(),
            before.buffered_results@.len() > 0,
            self.values == before.values,
            self.active_side == before.active_side,
            self.buffered_results@ == before.buffered_results@.drop_last(),
            before.buffered_results@.last() matches Ok(delta) ==> self.held@ == step(
                before.held@,
                delta_view(delta),
            ),
        ensures
            before.buffered_results@.last() is Ok,
            applies(before.held@, delta_view(before.buffered_results@.last()->Ok_0)),
            self.sound(),
    {
        let results = before.buffered_results@;
        let rest = self.buffered_results@;
        let kind = if of_kind(results, DeltaKind::Addition) {
            DeltaKind::Addition
        } else {
            DeltaKind::Deletion
        };
        let last = results.len() - 1;
        assert(results[last] is Ok);
        let change = delta_view(results.last()->Ok_0);
        assert(of_kind(rest, kind)) by {
            assert forall|i: int| 0 <= i < rest.len() implies (#[trigger] rest[i]) is Ok
                && rest[i]->Ok_0.kind_of() == kind by {
                assert(rest[i] == results[i]);
            }
        }
        if let Delta::Deletion(gone) = change {
            lemma_balance(results, kind, gone);
            lemma_balance(rest, kind, gone);
            lemma_count(result_rows(rest), gone);
            lemma_count(before.held@, gone);
            lemma_count(
                joined(before.told(JoinSide::Left), before.told(JoinSide::Right), before.pairing()),
                gone,
            );
            assert(count(before.held(), gone) + balance(before.buffered(), gone) == count(
                joined(before.told(JoinSide::Left), before.told(JoinSide::Right), before.pairing()),
                gone,
            ));
            assert(balance(results, gone) == balance(rest, gone) - 1);
        }
        assert forall|row: TupleView| #[trigger]
            count(self.held(), row) + balance(self.buffered(), row) == count(
                joined(self.told(JoinSide::Left), self.told(JoinSide::Right), self.pairing()),
                row,
            ) by {
            lemma_step_count(before.held@, change, row);
            assert(balance(results, row) == balance(rest, row) + signed(row)(change));
            assert(count(before.held(), row) + balance(before.buffered(), row) == count(
                joined(before.told(JoinSide::Left), before.told(JoinSide::Right), before.pairing()),
                row,
            ));
        }
    }

    /// Takes in a change of the active side.
    pub fn take(&mut self, delta: Delta<InternalTuple>)
        requires
            old(self).wf(),
            old(self).buffered().len() == 0,
        ensures
            final(self).wf(),
            final(self).hashed() == old(self).hashed(),
            final(self).pairing() == old(self).pairing(),
            final(self).active() == old(self).active(),
            forall|side: JoinSide| #[trigger] final(self).done(side) == old(self).done(side),
            final(self).held() == old(self).held(),
            same_bag(
                result_rows(final(self).buffered()),
                rows_given(
                    old(self).hashed(),
                    old(self).pairing(),
                    old(self).active(),
                    old(self).told(old(self).active()),
                    old(self).told(old(self).active().opposite()),
                    delta_view(delta),
                ),
            ),
            !old(self).hashed() ==> final(self).playable(),
            final(self).told(old(self).active().opposite()) == old(self).told(
                old(self).active().opposite(),
            ),
            same_bag(
                final(self).told(old(self).active()),
                step(old(self).told(old(self).active()), delta_view(delta)),
            ),
            final(self).told(old(self).active()).len() <= old(self).told(old(self).active()).len()
                + 1,
            final(self).buffered().len() <= old(self).told(old(self).active().opposite()).len(),
            of_kind(final(self).buffered(), delta.kind_of()),
            applies(old(self).told(old(self).active()), delta_view(delta)) && old(self).playable()
                ==> final(self).playable(),
            applies(old(self).told(old(self).active()), delta_view(delta)) && old(self).sound()
                ==> final(self).sound(),
    {
        let ghost before = *self;
        let ghost side = self.active_side;
        let ghost change = delta_view(delta);
        match &mut self.values {
            JoinValues::Hash(values) => {
                values.take(self.active_side, delta, &mut self.buffered_results);
            },
            JoinValues::NestedLoop(values) => {
                values.take(self.active_side, delta, &mut self.buffered_results);
            },
        }
        proof {
            lemma_step_len(before.told(side), change);
            if applies(before.told(side), change) && before.sound() {
                self.lemma_taken(before, change);
            }
        }
    }

    proof fn lemma_taken(&self, before: Self, change: Delta<TupleView>)
        requires
            before.sound(),
            before.buffered_results@.len() == 0,
            applies(before.told(before.active_side), change),
            self.active_side == before.active_side,
            self.held == before.held,
            self.pairing() == before.pairing(),
            self.told(before.active_side.opposite()) == before.told(
                before.active_side.opposite(),
            ),
            same_bag(
                self.told(before.active_side),
                step(before.told(before.active_side), change),
            ),
            of_kind(self.buffered_results@, change.kind_of()),
            same_bag(
                result_rows(self.buffered_results@),
                partners(
                    before.pairing(),
                    before.active_side,
                    change.value_of(),
                    before.told(before.active_side.opposite()),
                ),
            ),
        ensures
            self.sound(),
    {
        let side = before.active_side;
        let pairing = before.pairing();
        let mine = before.told(side);
        let others = before.told(side.opposite());
        let results = self.buffered_results@;
        assert(before.buffered_results@ =~= Seq::empty());
        assert forall|row: TupleView| #[trigger]
            count(self.held(), row) + balance(self.buffered(), row) == count(
                joined(self.told(JoinSide::Left), self.told(JoinSide::Right), self.pairing()),
                row,
            ) by {
            assert(count(before.held(), row) + balance(before.buffered(), row) == count(
                joined(before.told(JoinSide::Left), before.told(JoinSide::Right), before.pairing()),
                row,
            ));
            lemma_balance(results, change.kind_of(), row);
            assert(count(result_rows(results), row) == count(
                partners(pairing, side, change.value_of(), others),
                row,
            ));
            match side {
                JoinSide::Left => {
                    lemma_joined_left(mine, others, pairing, change, row);
                    lemma_joined_same(self.told(side), step(mine, change), others, others, pairing);
                    assert(count(joined(self.told(side), others, pairing), row) == count(
                        joined(step(mine, change), others, pairing),
                        row,
                    ));
                },
                JoinSide::Right => {
                    lemma_joined_right(others, mine, pairing, change, row);
                    lemma_joined_same(others, others, self.told(side), step(mine, change), pairing);
                    assert(count(joined(others, self.told(side), pairing), row) == count(
                        joined(others, step(mine, change), pairing),
                        row,
                    ));
                },
            }
        }
    }

    /// Notes that the active side has failed.
    pub fn fail(&mut self, error: QueryEvaluationError)
        ensures
            final(self).wf() == old(self).wf(),
            final(self).hashed() == old(self).hashed(),
            final(self).pairing() == old(self).pairing(),
            final(self).active() == old(self).active(),
            final(self).settled() == old(self).settled(),
            final(self).playable() == old(self).playable(),
            forall|side: JoinSide| #[trigger] final(self).done(side) == old(self).done(side),
            forall|side: JoinSide| #[trigger] final(self).told(side) == old(self).told(side),
            final(self).held() == old(self).held(),
            final(self).buffered() == old(self).buffered().push(Err(error)),
    {
        self.buffered_results.push(Err(error));
    }

    /// Applies the changes that were taken in.
    pub fn settle(&mut self)
        requires
            old(self).wf(),
        ensures
            final(self).wf(),
            final(self).hashed() == old(self).hashed(),
            final(self).pairing() == old(self).pairing(),
            final(self).active() == old(self).active(),
            final(self).settled(),
            final(self).playable(),
            forall|side: JoinSide| #[trigger] final(self).done(side) == old(self).done(side),
            forall|side: JoinSide| #[trigger] final(self).told(side) == old(self).told(side),
            final(self).held() == old(self).held(),
            old(self).playable() ==> final(self).buffered() == old(self).buffered(),
            !old(self).playable() ==> final(self).buffered().len() > 0
                && final(self).buffered().last() == Err::<
                Delta<InternalTuple>,
                QueryEvaluationError,
            >(QueryEvaluationError::NonExistingTupleDeleted),
    {
        let ghost before = *self;
        if let JoinValues::Hash(values) = &mut self.values {
            values.settle(self.active_side, &mut self.buffered_results);
        }
        proof {
            self.lemma_settled(self.active_side);
            assert forall|side: JoinSide| #[trigger] self.told(side) == before.told(side) by {
                match (self.values, before.values) {
                    (JoinValues::Hash(now), JoinValues::Hash(then)) => {
                        assert(now.told(side, self.active_side) == then.told(
                            side,
                            self.active_side,
                        ));
                    },
                    _ => {},
                }
            }
        }
    }
}

proof fn lemma_step_len(held: Seq<TupleView>, change: Delta<TupleView>)
    ensures
        step(held, change).len() <= held.len() + 1,
{
}

} // verus!
