//! What a consumer holds after it has applied a sequence of changes.

use crate::bag::{
    count, filter_map, is, lemma_count, lemma_filter_map_contains, lemma_filter_map_same_bag,
    lemma_filter_map_weight, lemma_same_bag_transitive, lemma_weight_push, lemma_weight_without,
    same_bag, through, without,
};
use crate::delta::{Delta, StreamingItem};
use crate::error::QueryEvaluationError;
use vstd::prelude::*;

verus! {

/// By how much a change alters how often `item` occurs.
pub open spec fn signed<T>(item: T) -> spec_fn(Delta<T>) -> int {
    |delta: Delta<T>|
        match delta {
            Delta::Addition(value) => if value == item {
                1int
            } else {
                0int
            },
            Delta::Deletion(value) => if value == item {
                -1int
            } else {
                0int
            },
        }
}

/// Whether a change can be applied: what it deletes is there.
pub open spec fn applies<T>(held: Seq<T>, delta: Delta<T>) -> bool {
    delta matches Delta::Deletion(value) ==> held.contains(value)
}

/// What is held after one change.
pub open spec fn step<T>(held: Seq<T>, delta: Delta<T>) -> Seq<T> {
    match delta {
        Delta::Addition(value) => held.push(value),
        Delta::Deletion(value) => if held.contains(value) {
            without(held, value)
        } else {
            held
        },
    }
}

/// What is held after a sequence of changes.
pub open spec fn played<T>(held: Seq<T>, events: Seq<Delta<T>>) -> Seq<T>
    decreases events.len(),
{
    if events.len() == 0 {
        held
    } else {
        step(played(held, events.drop_last()), events.last())
    }
}

/// Whether every change of a sequence can be applied when its turn comes.
pub open spec fn plays<T>(held: Seq<T>, events: Seq<Delta<T>>) -> bool
    decreases events.len(),
{
    events.len() == 0 || (plays(held, events.drop_last()) && applies(
        played(held, events.drop_last()),
        events.last(),
    ))
}

/// A change alters the number of occurrences of its value and of nothing else.
pub proof fn lemma_step_count<T>(held: Seq<T>, delta: Delta<T>, item: T)
    requires
        applies(held, delta),
    ensures
        count(step(held, delta), item) == count(held, item) + signed(item)(delta),
{
    match delta {
        Delta::Addition(value) => {
            lemma_weight_push(held, value, is(item));
        },
        Delta::Deletion(value) => {
            lemma_weight_without(held, value, is(item));
        },
    }
}

/// Applying two sequences one after the other is applying them as one.
pub proof fn lemma_played_add<T>(held: Seq<T>, a: Seq<Delta<T>>, b: Seq<Delta<T>>)
    ensures
        played(held, a + b) == played(played(held, a), b),
        plays(held, a + b) <==> plays(held, a) && plays(played(held, a), b),
    decreases b.len(),
{
    if b.len() == 0 {
        assert(a + b =~= a);
    } else {
        assert((a + b).drop_last() =~= a + b.drop_last());
        lemma_played_add(held, a, b.drop_last());
    }
}

/// Applying a sequence starts with its first change.
pub proof fn lemma_played_first<T>(held: Seq<T>, events: Seq<Delta<T>>)
    requires
        events.len() > 0,
    ensures
        played(held, events) == played(step(held, events[0]), events.drop_first()),
        plays(held, events) <==> applies(held, events[0]) && plays(
            step(held, events[0]),
            events.drop_first(),
        ),
{
    let first = seq![events[0]];
    assert(events =~= first + events.drop_first());
    lemma_played_add(held, first, events.drop_first());
    assert(first.drop_last() =~= Seq::empty());
    assert(played(held, first) == step(held, events[0])) by {
        assert(played(held, first.drop_last()) == held);
    }
    assert(plays(held, first) <==> applies(held, events[0])) by {
        assert(plays(held, first.drop_last()));
        assert(played(held, first.drop_last()) == held);
    }
}

/// One more change at the end.
pub proof fn lemma_played_push<T>(held: Seq<T>, events: Seq<Delta<T>>, delta: Delta<T>)
    ensures
        played(held, events.push(delta)) == step(played(held, events), delta),
        plays(held, events.push(delta)) <==> plays(held, events) && applies(
            played(held, events),
            delta,
        ),
{
    assert(events.push(delta).drop_last() =~= events);
}

/// The image of a change under a partial function on its value.
pub open spec fn mapped<T, U>(f: spec_fn(T) -> Option<U>, delta: Delta<T>) -> Option<Delta<U>> {
    match f(delta.value_of()) {
        Some(image) => Some(Delta::made(delta.kind_of(), image)),
        None => None,
    }
}

/// A change alters the images of what is held by its own image.
pub proof fn lemma_mapped_count<T, U>(
    inner: Seq<T>,
    f: spec_fn(T) -> Option<U>,
    delta: Delta<T>,
    item: U,
)
    requires
        applies(inner, delta),
    ensures
        count(filter_map(step(inner, delta), f), item) == count(filter_map(inner, f), item)
            + match mapped(f, delta) {
            Some(image) => signed(item)(image),
            None => 0int,
        },
{
    let g = through(f, is(item));
    lemma_filter_map_weight(inner, f, is(item));
    lemma_filter_map_weight(step(inner, delta), f, is(item));
    match delta {
        Delta::Addition(value) => {
            lemma_weight_push(inner, value, g);
        },
        Delta::Deletion(value) => {
            lemma_weight_without(inner, value, g);
        },
    }
}

/// The image of what is deleted is among the images.
pub proof fn lemma_mapped_applies<T, U>(inner: Seq<T>, f: spec_fn(T) -> Option<U>, delta: Delta<T>)
    requires
        applies(inner, delta),
    ensures
        mapped(f, delta) matches Some(Delta::Deletion(gone)) ==> count(
            filter_map(inner, f),
            gone,
        ) > 0,
{
    if let Some(Delta::Deletion(gone)) = mapped(f, delta) {
        let value = delta.value_of();
        let i = choose|i: int| 0 <= i < inner.len() && inner[i] == value;
        assert(f(inner[i]) == Some(gone));
        lemma_filter_map_contains(inner, f, gone);
        lemma_count(filter_map(inner, f), gone);
    }
}

/// One who holds the images of what another holds keeps doing so by applying the images of
/// the changes.
pub proof fn lemma_mapped_step<T, U>(
    inner: Seq<T>,
    held: Seq<U>,
    f: spec_fn(T) -> Option<U>,
    delta: Delta<T>,
)
    requires
        same_bag(held, filter_map(inner, f)),
        applies(inner, delta),
    ensures
        match mapped(f, delta) {
            Some(image) => applies(held, image) && same_bag(
                step(held, image),
                filter_map(step(inner, delta), f),
            ),
            None => same_bag(held, filter_map(step(inner, delta), f)),
        },
{
    let after = step(inner, delta);
    lemma_mapped_applies(inner, f, delta);
    match mapped(f, delta) {
        Some(image) => {
            if let Delta::Deletion(gone) = image {
                assert(count(held, gone) == count(filter_map(inner, f), gone));
                lemma_count(held, gone);
            }
            assert(applies(held, image));
            assert forall|item: U| #[trigger]
                count(step(held, image), item) == count(filter_map(after, f), item) by {
                lemma_mapped_count(inner, f, delta, item);
                lemma_step_count(held, image, item);
                assert(count(held, item) == count(filter_map(inner, f), item));
            }
        },
        None => {
            assert forall|item: U| #[trigger]
                count(held, item) == count(filter_map(after, f), item) by {
                lemma_mapped_count(inner, f, delta, item);
                assert(count(held, item) == count(filter_map(inner, f), item));
            }
        },
    }
}

/// What a stream of changes is at one moment: what its consumer holds, what it leads to
/// with the changes that are known so far, whether that can be relied on, how many changes
/// it can hand out at most, and whether further changes may come.
pub struct Flow<T> {
    pub held: Seq<T>,
    pub goal: Seq<T>,
    pub sound: bool,
    pub fuel: nat,
    pub live: bool,
}

/// What an item of a stream tells of the stream before and after it. A stream that hands
/// out no change, though it may go on later, has led its consumer to its goal. An error
/// leaves the consumer with what it holds.
pub open spec fn flows<T>(
    before: Flow<T>,
    after: Flow<T>,
    item: Option<Result<StreamingItem<Delta<T>>, QueryEvaluationError>>,
) -> bool {
    &&& after.live == before.live
    &&& match item {
        Some(Ok(StreamingItem::Item(delta))) => {
            &&& after.fuel < before.fuel
            &&& after.held == step(before.held, delta)
            &&& before.sound ==> {
                &&& after.sound
                &&& applies(before.held, delta)
                &&& same_bag(after.goal, before.goal)
            }
        },
        Some(Ok(StreamingItem::Pending)) => before.live && paused(before, after),
        None => !before.live && paused(before, after),
        Some(Err(error)) => {
            &&& after.held == before.held
            &&& before.sound && error == QueryEvaluationError::UnexpectedDefaultGraph ==> {
                &&& after.sound
                &&& same_bag(after.goal, before.goal)
            }
        },
    }
}

/// A stream has nothing to hand out right now.
pub open spec fn paused<T>(before: Flow<T>, after: Flow<T>) -> bool {
    &&& after.fuel == 0
    &&& after.held == before.held
    &&& before.sound ==> {
        &&& after.sound
        &&& same_bag(after.goal, before.goal)
        &&& same_bag(after.held, after.goal)
    }
}

/// Bags of the same solutions stay so under the same change.
pub proof fn lemma_same_step<T>(a: Seq<T>, b: Seq<T>, change: Delta<T>)
    requires
        same_bag(a, b),
    ensures
        same_bag(step(a, change), step(b, change)),
        applies(a, change) <==> applies(b, change),
{
    let value = change.value_of();
    lemma_count(a, value);
    lemma_count(b, value);
    assert(count(a, value) == count(b, value));
    assert forall|other: T| #[trigger]
        count(step(a, change), other) == count(step(b, change), other) by {
        assert(count(a, other) == count(b, other));
        if applies(a, change) {
            lemma_step_count(a, change, other);
            lemma_step_count(b, change, other);
        }
    }
}

/// What is there, as additions.
pub open spec fn additions<T>(items: Seq<T>) -> Seq<Delta<T>> {
    items.map_values(|item: T| Delta::Addition(item))
}

/// Adding one after the other leads from nothing to all.
pub proof fn lemma_additions_played<T>(items: Seq<T>)
    ensures
        plays(Seq::empty(), additions(items)),
        played(Seq::empty(), additions(items)) == items,
    decreases items.len(),
{
    if items.len() > 0 {
        lemma_additions_played(items.drop_last());
        assert(additions(items).drop_last() =~= additions(items.drop_last()));
        assert(items.drop_last().push(items.last()) =~= items);
    } else {
        assert(items =~= Seq::empty());
    }
}

/// Whether changes only add.
pub open spec fn only_additions<T>(changes: Seq<Delta<T>>) -> bool {
    forall|i: int| 0 <= i < changes.len() ==> (#[trigger] changes[i]) is Addition
}

/// Changes that only add are the additions of what they lead to from nothing.
pub proof fn lemma_only_additions<T>(changes: Seq<Delta<T>>)
    requires
        only_additions(changes),
    ensures
        changes == additions(played(Seq::empty(), changes)),
{
    let items = changes.map_values(|change: Delta<T>| change.value_of());
    assert(changes =~= additions(items)) by {
        assert forall|i: int| 0 <= i < changes.len() implies changes[i] == additions(items)[i] by {
            assert(changes[i] is Addition);
        }
    }
    lemma_additions_played(items);
}

/// Images of a stream that pauses: one who holds the images has been led to the images of
/// the goal.
pub proof fn lemma_mapped_pause<T, U>(
    inner: Seq<T>,
    goal: Seq<T>,
    held: Seq<U>,
    f: spec_fn(T) -> Option<U>,
)
    requires
        same_bag(held, filter_map(inner, f)),
        same_bag(inner, goal),
    ensures
        same_bag(held, filter_map(goal, f)),
{
    lemma_filter_map_same_bag(inner, goal, f);
    lemma_same_bag_transitive(held, filter_map(inner, f), filter_map(goal, f));
}

/// An addition makes its value occur once more, a deletion once less if it occurs; nothing
/// else changes.
pub proof fn law_changes_change_how_often_values_occur<T>(held: Seq<T>, value: T, item: T)
    ensures
        count(step(held, Delta::Addition(value)), item) == count(held, item) + if item == value {
            1int
        } else {
            0int
        },
        count(step(held, Delta::Deletion(value)), item) == count(held, item) - if item == value
            && count(held, value) > 0 {
            1int
        } else {
            0int
        },
        applies(held, Delta::Addition(value)),
        applies(held, Delta::Deletion(value)) <==> count(held, value) > 0,
{
    lemma_count(held, value);
    lemma_step_count(held, Delta::Addition(value), item);
    if held.contains(value) {
        lemma_step_count(held, Delta::Deletion(value), item);
    }
}

/// Changes are applied one after the other.
pub proof fn law_changes_are_applied_one_after_the_other<T>(
    held: Seq<T>,
    first: Seq<Delta<T>>,
    then: Seq<Delta<T>>,
    change: Delta<T>,
)
    ensures
        played(held, first + then) == played(played(held, first), then),
        played(held, seq![change]) == step(held, change),
        played(held, Seq::empty()) == held,
{
    lemma_played_add(held, first, then);
    assert(seq![change].drop_last() =~= Seq::<Delta<T>>::empty());
    assert(played(held, seq![change].drop_last()) == held);
}

} // verus!
