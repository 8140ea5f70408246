//! Starting many sources of changes on a store.

use crate::attachment::{all_sound, attached, belongs, lemma_belongs_add, nothing_waits, separate};
use crate::error::StorageError;
use crate::live::SubscriberView;
use crate::numeric_encoder::EncodedQuad;
use crate::source::LiveQuadDeltaSource;
use crate::storage::{waiting_changes, Storage, StorageReader};
use crate::subscription::{read_pattern, IncrementalQuadPattern};
use vstd::prelude::*;

verus! {

/// The damage that sources of a reader meet.
pub open spec fn damage_met(reader: StorageReader, storage: Storage) -> Option<StorageError> {
    if reader.refreshes() {
        storage.table().damage()
    } else {
        reader.table().damage()
    }
}

/// Whether a source stands at the start of a pattern.
pub open spec fn at_start(
    source: LiveQuadDeltaSource,
    ask: IncrementalQuadPattern,
    reader: StorageReader,
    before: Storage,
    after: Storage,
    notifier: usize,
) -> bool {
    &&& source.wf()
    &&& source.held() == Seq::<EncodedQuad>::empty()
    &&& source.pattern() == read_pattern(ask)
    &&& source.initial() == source.events().len()
    &&& source.failure() == damage_met(reader, before)
    &&& match source.subscription() {
        Some(id) => {
            &&& reader.refreshes()
            &&& !before.subscribers().contains_key(id)
            &&& after.subscribers().contains_key(id)
            &&& after.subscribers()[id] == (SubscriberView {
                pattern: ask,
                changes: Seq::empty(),
                notifier,
            })
            &&& damage_met(reader, before) is None ==> source.follows(after)
        },
        None => {
            &&& !reader.refreshes()
            &&& damage_met(reader, before) is None ==> source.reads(reader.table())
        },
    }
}

/// Whether sources were started, one for each pattern, and the store was left as it is but
/// for their subscriptions.
pub open spec fn opened(
    sources: Seq<LiveQuadDeltaSource>,
    asks: Seq<IncrementalQuadPattern>,
    reader: StorageReader,
    before: Storage,
    after: Storage,
    notifier: usize,
) -> bool {
    &&& sources.len() == asks.len()
    &&& after.wf()
    &&& after.table() == before.table()
    &&& after.on_disk() == before.on_disk()
    &&& after.read_only() == before.read_only()
    &&& separate(sources)
    &&& forall|i: int|
        0 <= i < sources.len() ==> at_start(
            #[trigger] sources[i],
            asks[i],
            reader,
            before,
            after,
            notifier,
        )
    &&& forall|id: usize| #[trigger]
        after.subscribers().contains_key(id) <==> before.subscribers().contains_key(id) || belongs(
            sources,
            id,
        )
    &&& forall|id: usize| #[trigger]
        before.subscribers().contains_key(id) ==> after.subscribers()[id]
            == before.subscribers()[id]
}

/// No pattern, no source.
pub proof fn lemma_opened_none(reader: StorageReader, storage: Storage, notifier: usize)
    requires
        storage.wf(),
    ensures
        opened(Seq::empty(), Seq::empty(), reader, storage, storage, notifier),
{
    assert forall|id: usize| !belongs(Seq::<LiveQuadDeltaSource>::empty(), id) by {}
}

/// It does not matter for sources who is to be notified of what else changes.
pub proof fn lemma_opened_from(
    sources: Seq<LiveQuadDeltaSource>,
    asks: Seq<IncrementalQuadPattern>,
    reader: StorageReader,
    before: Storage,
    same: Storage,
    after: Storage,
    notifier: usize,
)
    requires
        opened(sources, asks, reader, same, after, notifier),
        same.table() == before.table(),
        same.on_disk() == before.on_disk(),
        same.read_only() == before.read_only(),
        same.subscribers() == before.subscribers(),
    ensures
        opened(sources, asks, reader, before, after, notifier),
{
    assert forall|i: int| 0 <= i < sources.len() implies at_start(
        #[trigger] sources[i],
        asks[i],
        reader,
        before,
        after,
        notifier,
    ) by {
        assert(at_start(sources[i], asks[i], reader, same, after, notifier));
    }
}

/// One source for one pattern.
pub proof fn lemma_opened_one(
    source: LiveQuadDeltaSource,
    ask: IncrementalQuadPattern,
    reader: StorageReader,
    before: Storage,
    after: Storage,
    notifier: usize,
)
    requires
        before.wf(),
        source.starts(
            reader,
            before,
            after,
            ask.subject,
            ask.predicate,
            ask.object,
            ask.graph_name,
            notifier,
        ),
    ensures
        opened(seq![source], seq![ask], reader, before, after, notifier),
{
    let sources = seq![source];
    assert forall|id: usize| #[trigger] belongs(sources, id) <==> source.subscription() == Some(
        id,
    ) by {
        if source.subscription() == Some(id) {
            assert(sources[0].subscription() == Some(id));
        }
    }
    assert(at_start(source, ask, reader, before, after, notifier));
}

/// A source that was started before others stays at its start.
proof fn lemma_at_start_later(
    source: LiveQuadDeltaSource,
    ask: IncrementalQuadPattern,
    reader: StorageReader,
    first: Storage,
    second: Storage,
    third: Storage,
    notifier: usize,
)
    requires
        at_start(source, ask, reader, first, second, notifier),
        third.table() == second.table(),
        forall|id: usize| #[trigger]
            second.subscribers().contains_key(id) ==> third.subscribers().contains_key(id)
                && third.subscribers()[id] == second.subscribers()[id],
    ensures
        at_start(source, ask, reader, first, third, notifier),
{
    if let Some(id) = source.subscription() {
        assert(second.subscribers().contains_key(id));
    }
}

/// Starting sources one after the other is starting all.
pub proof fn lemma_opened_add(
    a: Seq<LiveQuadDeltaSource>,
    asks_a: Seq<IncrementalQuadPattern>,
    b: Seq<LiveQuadDeltaSource>,
    asks_b: Seq<IncrementalQuadPattern>,
    reader: StorageReader,
    first: Storage,
    second: Storage,
    third: Storage,
    notifier: usize,
)
    requires
        opened(a, asks_a, reader, first, second, notifier),
        opened(b, asks_b, reader, second, third, notifier),
    ensures
        opened(a + b, asks_a + asks_b, reader, first, third, notifier),
{
    let all = a + b;
    let asks = asks_a + asks_b;
    assert forall|id: usize| #[trigger] belongs(all, id) <==> belongs(a, id) || belongs(b, id) by {
        lemma_belongs_add(a, b, id);
    }
    assert forall|id: usize| #[trigger]
        second.subscribers().contains_key(id) implies third.subscribers().contains_key(id)
        && third.subscribers()[id] == second.subscribers()[id] by {
        assert(third.subscribers().contains_key(id) <==> second.subscribers().contains_key(id)
            || belongs(b, id));
    }
    assert forall|id: usize| #[trigger]
        first.subscribers().contains_key(id) implies third.subscribers()[id]
        == first.subscribers()[id] by {
        assert(second.subscribers().contains_key(id));
    }
    assert forall|id: usize| #[trigger]
        third.subscribers().contains_key(id) <==> first.subscribers().contains_key(id) || belongs(
            all,
            id,
        ) by {
        assert(second.subscribers().contains_key(id) <==> first.subscribers().contains_key(id)
            || belongs(a, id));
    }
    assert forall|i: int| 0 <= i < all.len() implies at_start(
        #[trigger] all[i],
        asks[i],
        reader,
        first,
        third,
        notifier,
    ) by {
        if i < a.len() {
            assert(at_start(a[i], asks_a[i], reader, first, second, notifier));
            lemma_at_start_later(a[i], asks_a[i], reader, first, second, third, notifier);
        } else {
            let k = i - a.len();
            assert(at_start(b[k], asks_b[k], reader, second, third, notifier));
            if let Some(id) = b[k].subscription() {
                if first.subscribers().contains_key(id) {
                    assert(second.subscribers().contains_key(id));
                }
            }
        }
    }
    assert forall|i: int, j: int|
        0 <= i < j < all.len() && (#[trigger] all[i]).subscription() is Some implies all[i].subscription()
        != (#[trigger] all[j]).subscription() by {
        if j < a.len() {
            assert(a[i].subscription() != a[j].subscription());
        } else if i >= a.len() {
            assert(b[i - a.len()].subscription() != b[j - a.len()].subscription());
        } else {
            let k = j - a.len();
            let id = a[i].subscription()->0;
            assert(at_start(a[i], asks_a[i], reader, first, second, notifier));
            assert(second.subscribers().contains_key(id));
            assert(at_start(b[k], asks_b[k], reader, second, third, notifier));
        }
    }
}

/// Sources that were started on a store that could be read are in order. Those with
/// subscriptions follow the store, and nothing waits for them.
pub proof fn law_started_sources_are_up_to_date(
    sources: Seq<LiveQuadDeltaSource>,
    asks: Seq<IncrementalQuadPattern>,
    reader: StorageReader,
    before: Storage,
    after: Storage,
    notifier: usize,
)
    requires
        opened(sources, asks, reader, before, after, notifier),
        damage_met(reader, before) is None,
    ensures
        all_sound(sources),
        attached(sources, after),
        nothing_waits(sources, after),
{
    assert forall|i: int| 0 <= i < sources.len() implies (#[trigger] sources[i]).sound()
        && if sources[i].subscription() is Some {
        &&& sources[i].follows(after)
        &&& waiting_changes(after.subscribers(), sources[i].subscription()->0).len() == 0
    } else {
        true
    } by {
        assert(at_start(sources[i], asks[i], reader, before, after, notifier));
        if let Some(id) = sources[i].subscription() {
            let waiting = after.subscribers()[id].changes;
            assert(sources[i].events() + waiting =~= sources[i].events());
        }
    }
}

/// The rows that cannot be read are those of the store for a view that follows it, and those
/// of the view for one that does not.
pub proof fn law_damage_is_that_of_what_is_read(reader: StorageReader, storage: Storage)
    ensures
        reader.refreshes() ==> damage_met(reader, storage) == storage.table().damage(),
        !reader.refreshes() ==> damage_met(reader, storage) == reader.table().damage(),
{
}

/// A query that follows a store has a subscription of its own for each pattern that it asks
/// for, and no other subscription is touched.
pub proof fn law_every_pattern_is_subscribed_to(
    sources: Seq<LiveQuadDeltaSource>,
    asks: Seq<IncrementalQuadPattern>,
    reader: StorageReader,
    before: Storage,
    after: Storage,
    notifier: usize,
    i: int,
)
    requires
        opened(sources, asks, reader, before, after, notifier),
        0 <= i < asks.len(),
    ensures
        reader.refreshes() ==> (sources[i].subscription() matches Some(id)
            && after.subscribers().contains_key(id) && !before.subscribers().contains_key(id)
            && after.subscribers()[id].pattern == asks[i] && after.subscribers()[id].notifier
            == notifier),
        !reader.refreshes() ==> sources[i].subscription() is None,
        forall|id: usize| #[trigger]
            before.subscribers().contains_key(id) ==> after.subscribers().contains_key(id)
                && after.subscribers()[id] == before.subscribers()[id],
{
    assert(at_start(sources[i], asks[i], reader, before, after, notifier));
}

} // verus!
