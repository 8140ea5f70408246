//! Bringing many sources of changes up to date with a store.

use crate::delta::Delta;
use crate::live::SubscriberView;
use crate::numeric_encoder::EncodedQuad;
use crate::source::LiveQuadDeltaSource;
use crate::storage::{emptied, waiting_changes, Storage};
use vstd::prelude::*;

verus! {

/// Whether no two sources share a subscription.
pub open spec fn separate(sources: Seq<LiveQuadDeltaSource>) -> bool {
    forall|i: int, j: int|
        0 <= i < j < sources.len() && (#[trigger] sources[i]).subscription() is Some ==> sources[i].subscription()
            != (#[trigger] sources[j]).subscription()
}

/// Whether sources with a subscription follow a store, and the others are in order.
pub open spec fn attached(sources: Seq<LiveQuadDeltaSource>, storage: Storage) -> bool {
    forall|i: int|
        0 <= i < sources.len() ==> if (#[trigger] sources[i]).subscription() is Some {
            sources[i].follows(storage)
        } else {
            sources[i].sound()
        }
}

/// Whether all sources are in order.
pub open spec fn all_sound(sources: Seq<LiveQuadDeltaSource>) -> bool {
    forall|i: int| 0 <= i < sources.len() ==> (#[trigger] sources[i]).sound()
}

/// Whether nothing waits for the sources in a store.
pub open spec fn nothing_waits(sources: Seq<LiveQuadDeltaSource>, storage: Storage) -> bool {
    forall|i: int|
        0 <= i < sources.len() && (#[trigger] sources[i]).subscription() is Some ==> waiting_changes(
            storage.subscribers(),
            sources[i].subscription()->0,
        ).len() == 0
}

/// Whether a subscription belongs to one of the sources.
pub open spec fn belongs(sources: Seq<LiveQuadDeltaSource>, id: usize) -> bool {
    exists|i: int| 0 <= i < sources.len() && (#[trigger] sources[i]).subscription() == Some(id)
}

/// What waits for a source.
pub open spec fn waiting_for(source: LiveQuadDeltaSource, storage: Storage) -> Seq<
    Delta<EncodedQuad>,
> {
    match source.subscription() {
        Some(id) => waiting_changes(storage.subscribers(), id),
        None => Seq::empty(),
    }
}

/// Whether a source is another one but for more changes to hand out.
pub open spec fn extended(
    before: LiveQuadDeltaSource,
    after: LiveQuadDeltaSource,
    more: Seq<Delta<EncodedQuad>>,
) -> bool {
    &&& after.wf()
    &&& after.held() == before.held()
    &&& after.failure() == before.failure()
    &&& after.subscription() == before.subscription()
    &&& after.pattern() == before.pattern()
    &&& after.events() == before.events() + more
}

/// The store after sources have taken over what waited for them.
pub open spec fn taken_over(
    sources: Seq<LiveQuadDeltaSource>,
    before: Storage,
    after: Storage,
) -> bool {
    &&& after.wf()
    &&& after.table() == before.table()
    &&& after.on_disk() == before.on_disk()
    &&& after.read_only() == before.read_only()
    &&& after.registry() == before.registry()
    &&& after.subscribers().dom() == before.subscribers().dom()
    &&& forall|id: usize| #[trigger]
        after.subscribers().contains_key(id) ==> after.subscribers()[id] == if belongs(
            sources,
            id,
        ) {
            SubscriberView { changes: Seq::empty(), ..before.subscribers()[id] }
        } else {
            before.subscribers()[id]
        }
}

/// Whether sources have the changes to hand out that they had.
pub open spec fn same_events(
    before: Seq<LiveQuadDeltaSource>,
    after: Seq<LiveQuadDeltaSource>,
) -> bool {
    &&& after.len() == before.len()
    &&& forall|i: int|
        0 <= i < before.len() ==> (#[trigger] after[i]).events() == before[i].events()
}

/// Whether sources have taken over what waited for them, as far as no two share a
/// subscription.
pub open spec fn refilled(
    before: Seq<LiveQuadDeltaSource>,
    after: Seq<LiveQuadDeltaSource>,
    old_storage: Storage,
    new_storage: Storage,
) -> bool {
    &&& after.len() == before.len()
    &&& taken_over(before, old_storage, new_storage)
    &&& forall|i: int|
        0 <= i < before.len() ==> (#[trigger] after[i]).wf() && after[i].held() == before[i].held()
            && after[i].failure() == before[i].failure() && after[i].subscription()
            == before[i].subscription() && after[i].pattern() == before[i].pattern()
    &&& separate(before) ==> forall|i: int|
        0 <= i < before.len() ==> extended(
            before[i],
            #[trigger] after[i],
            waiting_for(before[i], old_storage),
        )
    &&& nothing_waits(before, old_storage) ==> same_events(before, after)
}

/// No sources, nothing to take over.
pub proof fn lemma_refilled_none(storage: Storage)
    requires
        storage.wf(),
    ensures
        refilled(Seq::empty(), Seq::empty(), storage, storage),
{
}

/// One source has taken over what waited for it.
pub proof fn lemma_refilled_one(
    source: LiveQuadDeltaSource,
    after: LiveQuadDeltaSource,
    old_storage: Storage,
    new_storage: Storage,
)
    requires
        extended(source, after, waiting_for(source, old_storage)),
        new_storage.wf(),
        new_storage.table() == old_storage.table(),
        new_storage.on_disk() == old_storage.on_disk(),
        new_storage.read_only() == old_storage.read_only(),
        new_storage.registry() == old_storage.registry(),
        new_storage.subscribers() == match source.subscription() {
            Some(id) => emptied(old_storage.subscribers(), id),
            None => old_storage.subscribers(),
        },
    ensures
        refilled(seq![source], seq![after], old_storage, new_storage),
{
    let sources = seq![source];
    assert forall|id: usize| #[trigger] belongs(sources, id) <==> source.subscription() == Some(
        id,
    ) by {
        if source.subscription() == Some(id) {
            assert(sources[0].subscription() == Some(id));
        }
    }
    assert(new_storage.subscribers().dom() =~= old_storage.subscribers().dom());
    if nothing_waits(sources, old_storage) {
        assert(sources[0].subscription() == source.subscription());
        assert(waiting_for(source, old_storage) =~= Seq::empty());
        assert(after.events() =~= source.events());
    }
}

/// Where nothing waits for sources, nothing waits for any of them, also after some have taken
/// over what waited for them.
pub(crate) proof fn lemma_nothing_waits_add(
    a: Seq<LiveQuadDeltaSource>,
    b: Seq<LiveQuadDeltaSource>,
    first: Storage,
    second: Storage,
)
    requires
        nothing_waits(a + b, first),
        taken_over(a, first, second),
    ensures
        nothing_waits(a, first),
        nothing_waits(b, second),
{
    let all = a + b;
    assert forall|i: int|
        0 <= i < a.len() && (#[trigger] a[i]).subscription() is Some implies waiting_changes(
        first.subscribers(),
        a[i].subscription()->0,
    ).len() == 0 by {
        assert(all[i].subscription() is Some);
    }
    assert forall|i: int|
        0 <= i < b.len() && (#[trigger] b[i]).subscription() is Some implies waiting_changes(
        second.subscribers(),
        b[i].subscription()->0,
    ).len() == 0 by {
        let id = b[i].subscription()->0;
        assert(all[a.len() + i].subscription() is Some);
        assert(second.subscribers().contains_key(id) == first.subscribers().contains_key(id));
    }
}

/// Taking over one after the other is taking over all.
pub proof fn lemma_refilled_add(
    a: Seq<LiveQuadDeltaSource>,
    new_a: Seq<LiveQuadDeltaSource>,
    b: Seq<LiveQuadDeltaSource>,
    new_b: Seq<LiveQuadDeltaSource>,
    first: Storage,
    second: Storage,
    third: Storage,
)
    requires
        refilled(a, new_a, first, second),
        refilled(b, new_b, second, third),
    ensures
        refilled(a + b, new_a + new_b, first, third),
{
    let all = a + b;
    let new_all = new_a + new_b;
    assert forall|id: usize| #[trigger] belongs(all, id) <==> belongs(a, id) || belongs(b, id) by {
        lemma_belongs_add(a, b, id);
    }
    assert(taken_over(all, first, third)) by {
        assert forall|id: usize| #[trigger]
            third.subscribers().contains_key(id) implies third.subscribers()[id] == if belongs(
            all,
            id,
        ) {
            SubscriberView { changes: Seq::empty(), ..first.subscribers()[id] }
        } else {
            first.subscribers()[id]
        } by {
            assert(second.subscribers().contains_key(id));
            assert(first.subscribers().contains_key(id));
        }
    }
    assert forall|i: int| 0 <= i < all.len() implies (#[trigger] new_all[i]).wf()
        && new_all[i].held() == all[i].held() && new_all[i].failure() == all[i].failure()
        && new_all[i].subscription() == all[i].subscription() && new_all[i].pattern()
        == all[i].pattern() by {
        if i < a.len() {
            assert(new_all[i] == new_a[i]);
        } else {
            assert(new_all[i] == new_b[i - a.len()]);
        }
    }
    if nothing_waits(all, first) {
        lemma_nothing_waits_add(a, b, first, second);
        assert forall|i: int| 0 <= i < all.len() implies (#[trigger] new_all[i]).events()
            == all[i].events() by {
            if i < a.len() {
                assert(new_all[i] == new_a[i]);
            } else {
                assert(new_all[i] == new_b[i - a.len()]);
            }
        }
    }
    if separate(all) {
        assert(separate(a)) by {
            assert forall|i: int, j: int|
                0 <= i < j < a.len() && (
                #[trigger] a[i]).subscription() is Some implies a[i].subscription() != (
            #[trigger] a[j]).subscription() by {
                assert(all[i].subscription() != all[j].subscription());
            }
        }
        assert(separate(b)) by {
            assert forall|i: int, j: int|
                0 <= i < j < b.len() && (
                #[trigger] b[i]).subscription() is Some implies b[i].subscription() != (
            #[trigger] b[j]).subscription() by {
                assert(all[a.len() + i].subscription() != all[a.len() + j].subscription());
            }
        }
        assert forall|i: int| 0 <= i < all.len() implies extended(
            all[i],
            #[trigger] new_all[i],
            waiting_for(all[i], first),
        ) by {
            if i < a.len() {
                assert(extended(a[i], new_a[i], waiting_for(a[i], first)));
            } else {
                let k = i - a.len();
                assert(extended(b[k], new_b[k], waiting_for(b[k], second)));
                if let Some(id) = b[k].subscription() {
                    assert(!belongs(a, id)) by {
                        if belongs(a, id) {
                            let j = choose|j: int|
                                0 <= j < a.len() && (#[trigger] a[j]).subscription() == Some(id);
                            assert(all[j].subscription() != all[i].subscription());
                        }
                    }
                    if first.subscribers().contains_key(id) {
                        assert(second.subscribers().contains_key(id));
                    } else {
                        assert(!second.subscribers().contains_key(id));
                    }
                }
            }
        }
    }
}

/// Sources that follow a store and have taken over what waited for them still follow it,
/// are in order, and nothing waits for them.
pub proof fn law_refilled_sources_are_up_to_date(
    before: Seq<LiveQuadDeltaSource>,
    after: Seq<LiveQuadDeltaSource>,
    old_storage: Storage,
    new_storage: Storage,
)
    requires
        refilled(before, after, old_storage, new_storage),
        separate(before),
        attached(before, old_storage),
    ensures
        separate(after),
        attached(after, new_storage),
        all_sound(after),
        nothing_waits(after, new_storage),
{
    assert forall|i: int, j: int|
        0 <= i < j < after.len() && (
        #[trigger] after[i]).subscription() is Some implies after[i].subscription() != (
    #[trigger] after[j]).subscription() by {
        assert(before[i].subscription() == after[i].subscription());
        assert(before[j].subscription() == after[j].subscription());
    }
    assert forall|i: int| 0 <= i < after.len() implies (#[trigger] after[i]).sound()
        && if after[i].subscription() is Some {
        &&& after[i].follows(new_storage)
        &&& waiting_changes(new_storage.subscribers(), after[i].subscription()->0).len() == 0
    } else {
        true
    } by {
        assert(extended(before[i], after[i], waiting_for(before[i], old_storage)));
        if let Some(id) = before[i].subscription() {
            assert(before[i].follows(old_storage));
            assert(belongs(before, id));
            assert(new_storage.subscribers().contains_key(id));
            assert(after[i].events() + Seq::<Delta<EncodedQuad>>::empty() =~= after[i].events());
        } else {
            assert(before[i].sound());
            assert(after[i].events() =~= before[i].events());
        }
    }
}

/// The store after sources have ended their subscriptions.
pub open spec fn released(
    sources: Seq<LiveQuadDeltaSource>,
    before: Storage,
    after: Storage,
) -> bool {
    &&& after.wf()
    &&& after.table() == before.table()
    &&& after.on_disk() == before.on_disk()
    &&& after.read_only() == before.read_only()
    &&& after.registry() == before.registry()
    &&& forall|id: usize| #[trigger]
        after.subscribers().contains_key(id) <==> before.subscribers().contains_key(id) && !belongs(
            sources,
            id,
        )
    &&& forall|id: usize| #[trigger]
        after.subscribers().contains_key(id) ==> after.subscribers()[id]
            == before.subscribers()[id]
}

/// One more source has ended its subscription.
pub proof fn lemma_released_next(
    sources: Seq<LiveQuadDeltaSource>,
    at: int,
    first: Storage,
    second: Storage,
    third: Storage,
)
    requires
        0 <= at < sources.len(),
        released(sources.take(at), first, second),
        third.wf(),
        third.table() == second.table(),
        third.on_disk() == second.on_disk(),
        third.read_only() == second.read_only(),
        third.registry() == second.registry(),
        third.subscribers() == match sources[at].subscription() {
            Some(id) => second.subscribers().remove(id),
            None => second.subscribers(),
        },
    ensures
        released(sources.take(at + 1), first, third),
{
    let seen = sources.take(at);
    let more = sources.take(at + 1);
    assert forall|id: usize| #[trigger] belongs(more, id) <==> belongs(seen, id)
        || sources[at].subscription() == Some(id) by {
        if belongs(seen, id) {
            let i = choose|i: int|
                0 <= i < seen.len() && (#[trigger] seen[i]).subscription() == Some(id);
            assert(more[i].subscription() == Some(id));
        }
        if belongs(more, id) {
            let i = choose|i: int|
                0 <= i < more.len() && (#[trigger] more[i]).subscription() == Some(id);
            if i < at {
                assert(seen[i].subscription() == Some(id));
            }
        }
        assert(more[at] == sources[at]);
    }
    assert forall|id: usize| #[trigger]
        third.subscribers().contains_key(id) <==> first.subscribers().contains_key(id) && !belongs(
            more,
            id,
        ) by {
        assert(second.subscribers().contains_key(id) <==> first.subscribers().contains_key(id)
            && !belongs(seen, id));
    }
    assert forall|id: usize| #[trigger]
        third.subscribers().contains_key(id) implies third.subscribers()[id]
        == first.subscribers()[id] by {
        assert(second.subscribers().contains_key(id));
    }
}

/// Ending subscriptions one after the other is ending all.
pub proof fn lemma_released_add(
    a: Seq<LiveQuadDeltaSource>,
    b: Seq<LiveQuadDeltaSource>,
    first: Storage,
    second: Storage,
    third: Storage,
)
    requires
        released(a, first, second),
        released(b, second, third),
    ensures
        released(a + b, first, third),
{
    let all = a + b;
    assert forall|id: usize| #[trigger] belongs(all, id) <==> belongs(a, id) || belongs(b, id) by {
        lemma_belongs_add(a, b, id);
    }
    assert forall|id: usize| #[trigger]
        third.subscribers().contains_key(id) <==> first.subscribers().contains_key(id) && !belongs(
            all,
            id,
        ) by {
        assert(second.subscribers().contains_key(id) <==> first.subscribers().contains_key(id)
            && !belongs(a, id));
    }
    assert forall|id: usize| #[trigger]
        third.subscribers().contains_key(id) implies third.subscribers()[id]
        == first.subscribers()[id] by {
        assert(second.subscribers().contains_key(id));
    }
}

pub proof fn lemma_belongs_add(
    a: Seq<LiveQuadDeltaSource>,
    b: Seq<LiveQuadDeltaSource>,
    id: usize,
)
    ensures
        belongs(a + b, id) <==> belongs(a, id) || belongs(b, id),
{
    let all = a + b;
    if belongs(a, id) {
        let i = choose|i: int| 0 <= i < a.len() && (#[trigger] a[i]).subscription() == Some(id);
        assert(all[i].subscription() == Some(id));
    }
    if belongs(b, id) {
        let i = choose|i: int| 0 <= i < b.len() && (#[trigger] b[i]).subscription() == Some(id);
        assert(all[a.len() + i].subscription() == Some(id));
    }
    if belongs(all, id) {
        let i = choose|i: int| 0 <= i < all.len() && (#[trigger] all[i]).subscription() == Some(id);
        if i < a.len() {
            assert(a[i].subscription() == Some(id));
        } else {
            assert(b[i - a.len()].subscription() == Some(id));
        }
    }
}

/// Sources that take over what waits for them leave nothing of it behind, and leave what waits
/// for others.
pub proof fn law_sources_take_over_what_waits_for_them(
    sources: Seq<LiveQuadDeltaSource>,
    before: Storage,
    after: Storage,
    i: int,
    id: usize,
)
    requires
        taken_over(sources, before, after),
        0 <= i < sources.len(),
    ensures
        waiting_for(sources[i], after).len() == 0,
        (forall|j: int|
            0 <= j < sources.len() ==> (#[trigger] sources[j]).subscription() != Some(id))
            ==> waiting_changes(after.subscribers(), id) == waiting_changes(
            before.subscribers(),
            id,
        ),
        after.subscribers().contains_key(id) <==> before.subscribers().contains_key(id),
{
    if let Some(own) = sources[i].subscription() {
        assert(belongs(sources, own));
    }
    assert(after.subscribers().contains_key(id) <==> after.subscribers().dom().contains(id));
    assert(before.subscribers().contains_key(id) <==> before.subscribers().dom().contains(id));
}

/// Sources that end their subscriptions leave none of them in the store, and leave all others
/// as they are.
pub proof fn law_ended_subscriptions_are_gone(
    sources: Seq<LiveQuadDeltaSource>,
    before: Storage,
    after: Storage,
    i: int,
    id: usize,
)
    requires
        released(sources, before, after),
        0 <= i < sources.len(),
    ensures
        sources[i].subscription() matches Some(own) ==> !after.subscribers().contains_key(own),
        (forall|j: int|
            0 <= j < sources.len() ==> (#[trigger] sources[j]).subscription() != Some(id))
            && before.subscribers().contains_key(id) ==> after.subscribers().contains_key(id)
            && after.subscribers()[id] == before.subscribers()[id],
{
    if let Some(own) = sources[i].subscription() {
        assert(belongs(sources, own));
    }
    assert(after.subscribers().contains_key(id) <==> before.subscribers().contains_key(id)
        && !belongs(sources, id));
}

} // verus!
