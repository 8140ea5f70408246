//! What a join has heard of its two sides.

use crate::bag::{
    concat, count, filter_map, is, lemma_filter_map_push, lemma_filter_map_weight,
    lemma_weight_push, lemma_weight_same, lemma_weight_swap_remove, lemma_weight_without, same_bag,
    through, weight,
};
use crate::delta::{Delta, DeltaKind};
use crate::error::{non_existing_tuple_deleted, QueryEvaluationError};
use crate::join::{
    after_left, before_right, by_bindings, by_key, joined, lemma_joined_count, row_joined, times,
    Pairing,
};
use crate::replay::{applies, lemma_played_first, lemma_played_push, played, plays, step};
use crate::tuple::{
    law_combined_symmetric, position, row_key, rows, InternalTuple, InternalTupleSet, TupleView,
};
use vstd::prelude::*;

verus! {

/// A side of a join.
#[derive(Clone, Copy, PartialEq, Eq, Structural, Debug)]
pub enum JoinSide {
    Left,
    Right,
}

impl JoinSide {
    pub open spec fn opposite(self) -> JoinSide {
        match self {
            JoinSide::Left => JoinSide::Right,
            JoinSide::Right => JoinSide::Left,
        }
    }

    pub fn other(self) -> (side: JoinSide)
        ensures
            side == self.opposite(),
    {
        match self {
            JoinSide::Left => JoinSide::Right,
            JoinSide::Right => JoinSide::Left,
        }
    }
}

/// A change of the joined rows, or why there is none.
pub type JoinResult = Result<Delta<InternalTuple>, QueryEvaluationError>;

/// A change of a row, by the row alone.
pub open spec fn delta_view(delta: Delta<InternalTuple>) -> Delta<TupleView> {
    Delta::made(delta.kind_of(), delta.value_of()@)
}

/// Whether all results are changes of one kind.
pub open spec fn of_kind(results: Seq<JoinResult>, kind: DeltaKind) -> bool {
    forall|i: int|
        0 <= i < results.len() ==> ((#[trigger] results[i]) is Ok && results[i]->Ok_0.kind_of()
            == kind)
}

/// The rows of results that are changes.
pub open spec fn result_rows(results: Seq<JoinResult>) -> Seq<TupleView> {
    results.map_values(|result: JoinResult| result->Ok_0.value_of()@)
}

/// The rows that a row of one side is joined to.
pub open spec fn partners(
    pairing: Pairing,
    side: JoinSide,
    row: TupleView,
    others: Seq<TupleView>,
) -> Seq<TupleView> {
    match side {
        JoinSide::Left => filter_map(others, after_left(pairing, row)),
        JoinSide::Right => filter_map(others, before_right(pairing, row)),
    }
}

/// Joins a row of one side to rows of the other.
fn join_row(
    side: JoinSide,
    kind: DeltaKind,
    tuple: &InternalTuple,
    others: &Vec<InternalTuple>,
    results: &mut Vec<JoinResult>,
)
    requires
        old(results)@.len() == 0,
    ensures
        of_kind(final(results)@, kind),
        result_rows(final(results)@) == partners(by_bindings(), side, tuple@, rows(others@)),
        final(results)@.len() <= others@.len(),
{
    let ghost f = match side {
        JoinSide::Left => after_left(by_bindings(), tuple@),
        JoinSide::Right => before_right(by_bindings(), tuple@),
    };
    let ghost all = rows(others@);
    let mut next: usize = 0;
    proof {
        assert(all.take(0) =~= Seq::empty());
        assert(result_rows(results@) =~= filter_map(all.take(0), f));
    }
    while next < others.len()
        invariant
            next <= others@.len(),
            all == rows(others@),
            f == match side {
                JoinSide::Left => after_left(by_bindings(), tuple@),
                JoinSide::Right => before_right(by_bindings(), tuple@),
            },
            of_kind(results@, kind),
            result_rows(results@) == filter_map(all.take(next as int), f),
            results@.len() <= next,
        decreases others@.len() - next,
    {
        let ghost so_far = results@;
        let joined = match side {
            JoinSide::Left => tuple.combine_with(&others[next]),
            JoinSide::Right => others[next].combine_with(tuple),
        };
        proof {
            lemma_filter_map_push(all.take(next as int), all[next as int], f);
            assert(all.take(next as int).push(all[next as int]) =~= all.take(next + 1));
        }
        if let Some(joined) = joined {
            results.push(Ok(Delta::with_kind(kind, joined)));
            assert(result_rows(results@) =~= result_rows(so_far).push(joined@));
        }
        next = next + 1;
    }
    assert(all.take(next as int) =~= all);
}

/// What a join by the hash of key columns has heard of its sides.
pub struct SymmetricHashJoinValues {
    left: InternalTupleSet,
    right: InternalTupleSet,
    pending: Vec<(u64, Delta<InternalTuple>)>,
}

/// The changes that are noted but not applied yet.
pub open spec fn noted(pending: Seq<(u64, Delta<InternalTuple>)>) -> Seq<Delta<TupleView>> {
    pending.map_values(|entry: (u64, Delta<InternalTuple>)| delta_view(entry.1))
}

impl SymmetricHashJoinValues {
    pub closed spec fn wf(&self) -> bool {
        &&& self.left.wf()
        &&& self.right.wf()
        &&& self.left.columns() == self.right.columns()
        &&& forall|i: int|
            0 <= i < self.pending@.len() ==> (#[trigger] self.pending@[i]).0 == row_key(
                self.left.columns(),
                self.pending@[i].1.value_of()@,
            )
    }

    pub closed spec fn key(&self) -> Seq<usize> {
        self.left.columns()
    }

    /// Whether no change is left to apply.
    pub closed spec fn settled(&self) -> bool {
        self.pending@.len() == 0
    }

    closed spec fn stored(&self, side: JoinSide) -> Seq<TupleView> {
        match side {
            JoinSide::Left => self.left@,
            JoinSide::Right => self.right@,
        }
    }

    /// The rows of a side, while changes of the active side are noted.
    pub closed spec fn told(&self, side: JoinSide, active: JoinSide) -> Seq<TupleView> {
        if side == active {
            played(self.stored(side), noted(self.pending@))
        } else {
            self.stored(side)
        }
    }

    /// Whether the changes that are noted can be applied.
    pub closed spec fn playable(&self, active: JoinSide) -> bool {
        plays(self.stored(active), noted(self.pending@))
    }

    pub fn new(key: Vec<usize>) -> (values: Self)
        ensures
            values.wf(),
            values.key() == key@,
            values.settled(),
            forall|side: JoinSide, active: JoinSide| #[trigger]
                values.told(side, active) == Seq::<TupleView>::empty(),
            forall|active: JoinSide| #[trigger] values.playable(active),
    {
        let mut other_key: Vec<usize> = Vec::new();
        let mut next: usize = 0;
        while next < key.len()
            invariant
                next <= key@.len(),
                other_key@ == key@.take(next as int),
            decreases key@.len() - next,
        {
            other_key.push(key[next]);
            next = next + 1;
        }
        assert(other_key@ =~= key@);
        let values = SymmetricHashJoinValues {
            left: InternalTupleSet::new(key),
            right: InternalTupleSet::new(other_key),
            pending: Vec::new(),
        };
        assert(noted(values.pending@) =~= Seq::empty());
        values
    }

    /// Where nothing is noted it does not matter which side is active.
    pub proof fn lemma_settled(&self)
        requires
            self.settled(),
        ensures
            forall|side: JoinSide, active: JoinSide, other: JoinSide|
                #![trigger self.told(side, active), self.told(side, other)]
                self.told(side, active) == self.told(side, other),
            forall|active: JoinSide| #[trigger] self.playable(active),
    {
        assert(noted(self.pending@) =~= Seq::empty());
    }

    /// A change of one side: joins its row to the rows of the other side and notes it.
    pub fn take(
        &mut self,
        side: JoinSide,
        delta: Delta<InternalTuple>,
        results: &mut Vec<JoinResult>,
    )
        requires
            old(self).wf(),
            old(results)@.len() == 0,
        ensures
            final(self).wf(),
            final(self).key() == old(self).key(),
            final(self).told(side.opposite(), side) == old(self).told(side.opposite(), side),
            final(self).told(side, side) == step(old(self).told(side, side), delta_view(delta)),
            old(self).playable(side) && applies(old(self).told(side, side), delta_view(delta))
                ==> final(self).playable(side),
            of_kind(final(results)@, delta.kind_of()),
            same_bag(
                result_rows(final(results)@),
                partners(
                    by_key(old(self).key()),
                    side,
                    delta.value_of()@,
                    old(self).told(side.opposite(), side),
                ),
            ),
            final(results)@.len() <= old(self).told(side.opposite(), side).len(),
    {
        let ghost before = *self;
        let ghost change = delta_view(delta);
        let ghost row = delta.value_of()@;
        let kind = delta.kind();
        let hash: u64;
        match side {
            JoinSide::Left => {
                hash = self.right.tuple_key(delta.value());
                proof {
                    lemma_bucket_partners(self.right, side, row);
                }
                if let Some(bucket) = self.right.get(hash) {
                    join_row(JoinSide::Left, kind, delta.value(), bucket, results);
                } else {
                    assert(self.right.bucket(hash) =~= Seq::empty());
                    assert(result_rows(results@) =~= partners(
                        by_bindings(),
                        JoinSide::Left,
                        row,
                        self.right.bucket(hash),
                    ));
                }
            },
            JoinSide::Right => {
                hash = self.left.tuple_key(delta.value());
                proof {
                    lemma_bucket_partners(self.left, side, row);
                }
                if let Some(bucket) = self.left.get(hash) {
                    join_row(JoinSide::Left, kind, delta.value(), bucket, results);
                } else {
                    assert(self.left.bucket(hash) =~= Seq::empty());
                    assert(result_rows(results@) =~= partners(
                        by_bindings(),
                        JoinSide::Left,
                        row,
                        self.left.bucket(hash),
                    ));
                }
            },
        }
        self.pending.push((hash, delta));
        proof {
            assert(noted(self.pending@) =~= noted(before.pending@).push(change));
            lemma_played_push(before.stored(side), noted(before.pending@), change);
        }
    }

    /// Applies the changes that are noted. A deletion of a row that is not there is an
    /// error.
    pub fn settle(&mut self, side: JoinSide, results: &mut Vec<JoinResult>)
        requires
            old(self).wf(),
        ensures
            final(self).wf(),
            final(self).key() == old(self).key(),
            final(self).settled(),
            forall|s: JoinSide| #[trigger] final(self).told(s, side) == old(self).told(s, side),
            if old(self).playable(side) {
                final(results)@ == old(results)@
            } else {
                final(results)@.len() > 0 && final(results)@.last() == Err::<
                    Delta<InternalTuple>,
                    QueryEvaluationError,
                >(QueryEvaluationError::NonExistingTupleDeleted)
            },
    {
        let ghost before = *self;
        while self.pending.len() > 0
            invariant
                self.wf(),
                before == *old(self),
                self.left.columns() == before.left.columns(),
                self.stored(side.opposite()) == before.stored(side.opposite()),
                played(self.stored(side), noted(self.pending@)) == played(
                    before.stored(side),
                    noted(before.pending@),
                ),
                if before.playable(side) {
                    self.playable(side) && results@ == old(results)@
                } else {
                    !self.playable(side) || (results@.len() > 0 && results@.last() == Err::<
                        Delta<InternalTuple>,
                        QueryEvaluationError,
                    >(QueryEvaluationError::NonExistingTupleDeleted))
                },
            decreases self.pending@.len(),
        {
            let ghost current = *self;
            let (hash, delta) = self.pending.remove(0);
            let ghost change = delta_view(delta);
            proof {
                assert(noted(current.pending@)[0] == change);
                assert(noted(current.pending@).drop_first() =~= noted(self.pending@));
                lemma_played_first(current.stored(side), noted(current.pending@));
                assert(current.pending@[0].0 == hash);
            }
            match delta {
                Delta::Addition(tuple) => match side {
                    JoinSide::Left => self.left.insert(hash, tuple),
                    JoinSide::Right => self.right.insert(hash, tuple),
                },
                Delta::Deletion(tuple) => {
                    let removed = match side {
                        JoinSide::Left => self.left.remove_one(hash, &tuple),
                        JoinSide::Right => self.right.remove_one(hash, &tuple),
                    };
                    if !removed {
                        results.push(Err(non_existing_tuple_deleted()));
                    }
                },
            }
        }
        proof {
            assert(noted(self.pending@) =~= Seq::empty());
            assert(self.playable(side));
            assert forall|s: JoinSide| #[trigger] self.told(s, side) == before.told(s, side) by {
                if s != side {
                    assert(s == side.opposite());
                }
            }
        }
    }
}

/// The rows of the bucket of a row's key are joined to the row as all rows are.
proof fn lemma_bucket_partners(others: InternalTupleSet, side: JoinSide, row: TupleView)
    requires
        others.wf(),
    ensures
        ({
            let bucket = others.bucket(row_key(others.columns(), row));
            &&& same_bag(
                partners(by_bindings(), JoinSide::Left, row, bucket),
                partners(by_key(others.columns()), side, row, others@),
            )
            &&& bucket.len() <= others@.len()
        }),
{
    let key = others.columns();
    let hash = row_key(key, row);
    let bucket = others.bucket(hash);
    let f = after_left(by_bindings(), row);
    let g = match side {
        JoinSide::Left => after_left(by_key(key), row),
        JoinSide::Right => before_right(by_key(key), row),
    };
    assert forall|image: TupleView| #[trigger]
        count(filter_map(bucket, f), image) == count(filter_map(others@, g), image) by {
        lemma_filter_map_weight(bucket, f, is(image));
        lemma_filter_map_weight(others@, g, is(image));
        others.lemma_bucket_weight(hash, through(f, is(image)));
        let h = |other: TupleView|
            if row_key(others.columns(), other) == hash {
                through(f, is(image))(other)
            } else {
                0
            };
        assert forall|i: int| 0 <= i < others@.len() implies h(#[trigger] others@[i]) == through(
            g,
            is(image),
        )(others@[i]) by {
            law_combined_symmetric(row, others@[i]);
        }
        lemma_weight_same(others@, h, through(g, is(image)));
    }
    let one = |other: TupleView| 1int;
    others.lemma_bucket_weight(hash, one);
    lemma_len(bucket);
    lemma_part(
        others@,
        |other: TupleView|
            if row_key(others.columns(), other) == hash {
                one(other)
            } else {
                0
            },
    );
}

proof fn lemma_len<T>(items: Seq<T>)
    ensures
        weight(items, |item: T| 1int) == items.len(),
    decreases items.len(),
{
    if items.len() > 0 {
        lemma_len(items.drop_last());
    }
}

proof fn lemma_part<T>(items: Seq<T>, g: spec_fn(T) -> int)
    requires
        forall|item: T| #[trigger] g(item) <= 1,
    ensures
        weight(items, g) <= items.len(),
    decreases items.len(),
{
    if items.len() > 0 {
        lemma_part(items.drop_last(), g);
        assert(g(items.last()) <= 1);
    }
}

/// What a join by comparison of all rows has heard of its sides.
pub struct SymmetricNestedLoopJoinValues {
    left: Vec<InternalTuple>,
    right: Vec<InternalTuple>,
}

impl SymmetricNestedLoopJoinValues {
    /// The rows of a side.
    pub closed spec fn told(&self, side: JoinSide) -> Seq<TupleView> {
        match side {
            JoinSide::Left => rows(self.left@),
            JoinSide::Right => rows(self.right@),
        }
    }

    pub fn new() -> (values: Self)
        ensures
            forall|side: JoinSide| #[trigger] values.told(side) == Seq::<TupleView>::empty(),
    {
        let values = SymmetricNestedLoopJoinValues { left: Vec::new(), right: Vec::new() };
        assert forall|side: JoinSide| #[trigger]
            values.told(side) == Seq::<TupleView>::empty() by {
            assert(values.told(side) =~= Seq::<TupleView>::empty());
        }
        values
    }

    /// A change of one side: joins its row to the rows of the other side. A deletion of a
    /// row that is not there changes nothing.
    pub fn take(
        &mut self,
        side: JoinSide,
        delta: Delta<InternalTuple>,
        results: &mut Vec<JoinResult>,
    )
        requires
            old(results)@.len() == 0,
        ensures
            final(self).told(side.opposite()) == old(self).told(side.opposite()),
            same_bag(final(self).told(side), step(old(self).told(side), delta_view(delta))),
            final(self).told(side).len() <= old(self).told(side).len() + 1,
            of_kind(final(results)@, delta.kind_of()),
            result_rows(final(results)@) == if applies(old(self).told(side), delta_view(delta)) {
                partners(
                    by_bindings(),
                    side,
                    delta.value_of()@,
                    old(self).told(side.opposite()),
                )
            } else {
                Seq::<TupleView>::empty()
            },
            final(results)@.len() <= old(self).told(side.opposite()).len(),
    {
        match side {
            JoinSide::Left => take_row(side, delta, &mut self.left, &self.right, results),
            JoinSide::Right => take_row(side, delta, &mut self.right, &self.left, results),
        }
    }
}

fn take_row(
    side: JoinSide,
    delta: Delta<InternalTuple>,
    values: &mut Vec<InternalTuple>,
    others: &Vec<InternalTuple>,
    results: &mut Vec<JoinResult>,
)
    requires
        old(results)@.len() == 0,
    ensures
        same_bag(rows(final(values)@), step(rows(old(values)@), delta_view(delta))),
        final(values)@.len() <= old(values)@.len() + 1,
        of_kind(final(results)@, delta.kind_of()),
        result_rows(final(results)@) == if applies(rows(old(values)@), delta_view(delta)) {
            partners(by_bindings(), side, delta.value_of()@, rows(others@))
        } else {
            Seq::<TupleView>::empty()
        },
        final(results)@.len() <= others@.len(),
{
    let ghost before = rows(values@);
    let ghost change = delta_view(delta);
    let (kind, tuple) = delta.into_parts();
    match kind {
        DeltaKind::Addition => {
            join_row(side, kind, &tuple, others, results);
            values.push(tuple);
            assert(rows(values@) =~= step(before, change));
        },
        DeltaKind::Deletion => {
            if let Some(found) = position(values, &tuple) {
                values.swap_remove(found);
                proof {
                    assert(rows(values@) =~= before.update(found as int, before.last()).drop_last());
                    assert forall|row: TupleView| #[trigger]
                        count(rows(values@), row) == count(step(before, change), row) by {
                        lemma_weight_swap_remove(before, found as int, is(row));
                        lemma_weight_without(before, tuple@, is(row));
                    }
                }
                join_row(side, kind, &tuple, others, results);
            } else {
                assert(result_rows(results@) =~= Seq::<TupleView>::empty());
            }
        },
    }
}

/// A change of a row stays a change of its kind, and each side of a join is opposite to the
/// other one.
pub proof fn law_changes_of_rows_keep_their_kind(tuple: InternalTuple, side: JoinSide)
    ensures
        delta_view(Delta::Addition(tuple)) == Delta::Addition(tuple@),
        delta_view(Delta::Deletion(tuple)) == Delta::Deletion(tuple@),
        side.opposite() != side,
        side.opposite().opposite() == side,
{
}

/// The rows that a row is joined to are those that its side, with this row alone, is joined
/// to.
pub proof fn law_partners_are_what_a_row_is_joined_to(
    pairing: Pairing,
    row: TupleView,
    others: Seq<TupleView>,
)
    ensures
        partners(pairing, JoinSide::Left, row, others) == joined(seq![row], others, pairing),
        same_bag(
            partners(pairing, JoinSide::Right, row, others),
            joined(others, seq![row], pairing),
        ),
{
    assert(seq![row].drop_last() =~= Seq::<TupleView>::empty());
    assert(concat(seq![row].drop_last(), row_joined(others, pairing)) =~= Seq::empty());
    assert(joined(seq![row], others, pairing) =~= filter_map(others, after_left(pairing, row)));
    assert forall|item: TupleView| #[trigger]
        count(partners(pairing, JoinSide::Right, row, others), item) == count(
            joined(others, seq![row], pairing),
            item,
        ) by {
        lemma_joined_count(others, seq![row], pairing, item);
        lemma_filter_map_weight(others, before_right(pairing, row), is(item));
        let g = through(before_right(pairing, row), is(item));
        let h = times(seq![row], pairing, item);
        assert forall|i: int| 0 <= i < others.len() implies g(#[trigger] others[i]) == h(
            others[i],
        ) by {
            let f = after_left(pairing, others[i]);
            assert(filter_map(seq![row].drop_last(), f) =~= Seq::empty());
            lemma_filter_map_push(Seq::<TupleView>::empty(), row, f);
            assert(seq![row] =~= Seq::<TupleView>::empty().push(row));
            lemma_filter_map_weight(seq![row], f, is(item));
            lemma_weight_push(Seq::<TupleView>::empty(), row, through(f, is(item)));
            assert(weight(Seq::<TupleView>::empty(), through(f, is(item))) == 0);
        }
        lemma_weight_same(others, g, h);
    }
}

} // verus!
