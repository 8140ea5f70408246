//! The quads of a pattern as a stream of changes: first what is there, then what changes.

use crate::bag::{count, is, lemma_count, lemma_count_unique, lemma_filter_map_contains};
use crate::delta::{Delta, StreamingItem};
use crate::error::StorageError;
use crate::fx::{lists, occurs, FxKey};
use crate::live::{heard, hears, queued, SubscriberView};
use crate::numeric_encoder::{encoded_words, EncodedQuad, EncodedTerm, EncodedTriple};
use crate::replay::{
    additions, applies, lemma_additions_played, lemma_played_add, lemma_played_first,
    lemma_played_push, lemma_step_count, played, plays, step,
};
use crate::storage::{
    emptied, spec_copied, waiting_changes, DecodingQuadIterator, Storage, StorageReader,
};
use crate::subscription::{graph_wanted, read_pattern, watches, IncrementalQuadPattern};
use crate::table::{differs, reported, reports, selects, QuadPattern, QuadTable};
use crate::transaction::{told, Published};
use std::collections::VecDeque;
use std::sync::Arc;
use vstd::prelude::*;

verus! {

/// A quad as queries see it: the default graph has no name.
#[derive(Clone, Copy, PartialEq, Eq, Structural, Debug)]
pub struct InternalQuad {
    pub subject: EncodedTerm,
    pub predicate: EncodedTerm,
    pub object: EncodedTerm,
    pub graph_name: Option<EncodedTerm>,
}

/// The quad as queries see it.
pub open spec fn internal_quad(quad: EncodedQuad) -> InternalQuad {
    InternalQuad {
        subject: quad.subject,
        predicate: quad.predicate,
        object: quad.object,
        graph_name: if quad.graph_name == EncodedTerm::DefaultGraph {
            None
        } else {
            Some(quad.graph_name)
        },
    }
}

impl InternalQuad {
    pub fn from_encoded(quad: EncodedQuad) -> (internal: Self)
        ensures
            internal == internal_quad(quad),
    {
        InternalQuad {
            subject: quad.subject,
            predicate: quad.predicate,
            object: quad.object,
            graph_name: if quad.graph_name.is_default_graph() {
                None
            } else {
                Some(quad.graph_name)
            },
        }
    }
}

/// Queries tell the quads of a store apart.
pub proof fn law_internal_quads_differ(a: EncodedQuad, b: EncodedQuad)
    requires
        a != b,
    ensures
        internal_quad(a) != internal_quad(b),
{
}

impl FxKey for InternalQuad {
    type Model = InternalQuad;

    open spec fn model(&self) -> InternalQuad {
        *self
    }

    open spec fn words(model: InternalQuad) -> Seq<u64> {
        encoded_words(model.subject) + encoded_words(model.predicate) + encoded_words(model.object)
            + match model.graph_name {
            Some(name) => encoded_words(name),
            None => Seq::empty(),
        }
    }

    fn same(&self, other: &Self) -> (result: bool) {
        *self == *other
    }

    fn duplicate(&self) -> (result: Self) {
        *self
    }

    fn to_words(&self) -> (words: Vec<u64>) {
        let mut words: Vec<u64> = Vec::new();
        self.subject.push_words(&mut words);
        self.predicate.push_words(&mut words);
        self.object.push_words(&mut words);
        if let Some(name) = &self.graph_name {
            name.push_words(&mut words);
        }
        assert(words@ =~= Self::words(*self));
        words
    }
}

/// A triple as queries see it.
#[derive(Clone, Copy, PartialEq, Eq, Structural, Debug)]
pub struct InternalTriple {
    pub subject: EncodedTerm,
    pub predicate: EncodedTerm,
    pub object: EncodedTerm,
}

/// The triple as queries see it.
pub open spec fn internal_triple(triple: EncodedTriple) -> InternalTriple {
    InternalTriple {
        subject: triple.subject,
        predicate: triple.predicate,
        object: triple.object,
    }
}

impl InternalTriple {
    pub fn from_encoded(triple: EncodedTriple) -> (internal: Self)
        ensures
            internal == internal_triple(triple),
    {
        InternalTriple {
            subject: triple.subject,
            predicate: triple.predicate,
            object: triple.object,
        }
    }
}

/// The quads that a pattern selects.
pub open spec fn selection(quads: Set<EncodedQuad>, pattern: QuadPattern) -> Set<EncodedQuad> {
    quads.filter(|quad: EncodedQuad| selects(pattern, quad))
}

/// A change of a quad as queries see it.
pub open spec fn internal_delta(change: Delta<EncodedQuad>) -> Delta<InternalQuad> {
    Delta::made(change.kind_of(), internal_quad(change.value_of()))
}

/// How often a quad is to be held by one who follows a pattern of a store.
pub open spec fn presence(
    quads: Set<EncodedQuad>,
    pattern: QuadPattern,
    quad: EncodedQuad,
) -> int {
    if quads.contains(quad) && selects(pattern, quad) {
        1
    } else {
        0
    }
}

/// Whether changes are changes of quads that a pattern selects.
pub open spec fn concerns(events: Seq<Delta<EncodedQuad>>, pattern: QuadPattern) -> bool {
    forall|i: int|
        0 <= i < events.len() ==> selects(pattern, (#[trigger] events[i]).value_of())
}

/// Changes concern a pattern exactly if all parts of them do.
pub proof fn lemma_concerns_add(
    a: Seq<Delta<EncodedQuad>>,
    b: Seq<Delta<EncodedQuad>>,
    pattern: QuadPattern,
)
    ensures
        concerns(a + b, pattern) <==> concerns(a, pattern) && concerns(b, pattern),
{
    let all = a + b;
    if concerns(all, pattern) {
        assert forall|i: int| 0 <= i < a.len() implies selects(
            pattern,
            (#[trigger] a[i]).value_of(),
        ) by {
            assert(selects(pattern, all[i].value_of()));
        }
        assert forall|i: int| 0 <= i < b.len() implies selects(
            pattern,
            (#[trigger] b[i]).value_of(),
        ) by {
            assert(selects(pattern, all[a.len() + i].value_of()));
        }
    }
    if concerns(a, pattern) && concerns(b, pattern) {
        assert forall|i: int| 0 <= i < all.len() implies selects(
            pattern,
            (#[trigger] all[i]).value_of(),
        ) by {
            if i < a.len() {
                assert(selects(pattern, a[i].value_of()));
            } else {
                assert(selects(pattern, b[i - a.len()].value_of()));
            }
        }
    }
}

/// Whether changes lead from what is held to the quads that a pattern selects.
pub open spec fn leads_to(
    held: Seq<EncodedQuad>,
    events: Seq<Delta<EncodedQuad>>,
    quads: Set<EncodedQuad>,
    pattern: QuadPattern,
) -> bool {
    &&& plays(held, events)
    &&& concerns(events, pattern)
    &&& forall|quad: EncodedQuad| #[trigger]
        count(played(held, events), quad) == presence(quads, pattern, quad)
}

/// The quads of a pattern as a stream of changes.
pub struct LiveQuadDeltaSource {
    reader: Arc<StorageReader>,
    snapshot_iter: DecodingQuadIterator,
    subscription_id: Option<usize>,
    snapshot_done: bool,
    live_buffer: VecDeque<Delta<EncodedQuad>>,
    held: Ghost<Seq<EncodedQuad>>,
    pattern: Ghost<QuadPattern>,
}

impl LiveQuadDeltaSource {
    pub closed spec fn wf(&self) -> bool {
        self.snapshot_done ==> self.snapshot_iter.rest().len() == 0
            && self.snapshot_iter.failure() is None
    }

    /// What the consumer holds after the changes handed out so far.
    pub closed spec fn held(&self) -> Seq<EncodedQuad> {
        self.held@
    }

    /// The quads that were there at the start and are to be handed out.
    pub closed spec fn unread(&self) -> Seq<EncodedQuad> {
        self.snapshot_iter.rest()
    }

    /// The changes since the start that are to be handed out.
    pub closed spec fn queue(&self) -> Seq<Delta<EncodedQuad>> {
        self.live_buffer@
    }

    /// The changes that are to be handed out.
    pub closed spec fn events(&self) -> Seq<Delta<EncodedQuad>> {
        additions(self.snapshot_iter.rest()) + self.live_buffer@
    }

    /// How many of the changes are quads that were there at the start.
    pub closed spec fn initial(&self) -> nat {
        self.snapshot_iter.rest().len()
    }

    /// Why not all quads that were there could be read.
    pub closed spec fn failure(&self) -> Option<StorageError> {
        self.snapshot_iter.failure()
    }

    /// The number of the subscription to further changes.
    pub closed spec fn subscription(&self) -> Option<usize> {
        self.subscription_id
    }

    /// The quads that are followed.
    pub closed spec fn pattern(&self) -> QuadPattern {
        self.pattern@
    }

    /// Whether the changes are those of quads of the pattern, and can be applied one after
    /// the other.
    pub open spec fn sound(&self) -> bool {
        &&& self.failure() is None
        &&& plays(self.held(), self.events())
        &&& concerns(self.events(), self.pattern())
    }

    /// Whether this follows a store: what is to be handed out, and what waits for the
    /// subscription, lead to the quads that are committed and selected.
    pub open spec fn follows(&self, storage: Storage) -> bool {
        &&& self.failure() is None
        &&& self.subscription() matches Some(id) && storage.subscribers().contains_key(id)
            && read_pattern(storage.subscribers()[id].pattern) == self.pattern() && leads_to(
            self.held(),
            self.events() + storage.subscribers()[id].changes,
            storage.table().quads(),
            self.pattern(),
        )
    }

    /// Whether this hands out the quads of a view of a store that does not change.
    pub open spec fn reads(&self, table: QuadTable) -> bool {
        &&& self.failure() is None
        &&& self.subscription() is None
        &&& leads_to(self.held(), self.events(), table.quads(), self.pattern())
    }

    /// What a source is at its start, and what its start does to the store.
    pub open spec fn starts(
        &self,
        reader: StorageReader,
        before: Storage,
        after: Storage,
        subject: Option<EncodedTerm>,
        predicate: Option<EncodedTerm>,
        object: Option<EncodedTerm>,
        graph_name: Option<Option<EncodedTerm>>,
        notifier: usize,
    ) -> bool {
        &&& self.wf()
        &&& self.held() == Seq::<EncodedQuad>::empty()
        &&& self.pattern() == (QuadPattern {
            subject,
            predicate,
            object,
            graph_name: graph_wanted(graph_name),
        })
        &&& self.initial() == self.events().len()
        &&& self.queue() == Seq::<Delta<EncodedQuad>>::empty()
        &&& after.wf()
        &&& after.table() == before.table()
        &&& after.on_disk() == before.on_disk()
        &&& after.read_only() == before.read_only()
        &&& after.registry() == before.registry()
        &&& match self.subscription() {
            Some(id) => {
                &&& reader.refreshes()
                &&& !before.subscribers().contains_key(id)
                &&& after.subscribers() == before.subscribers().insert(
                    id,
                    SubscriberView {
                        pattern: IncrementalQuadPattern { subject, predicate, object, graph_name },
                        changes: Seq::empty(),
                        notifier,
                    },
                )
                &&& lists(self.unread(), selection(before.table().quads(), self.pattern()))
                &&& self.failure() == before.table().damage()
                &&& before.table().damage() is None ==> self.follows(after)
            },
            None => {
                &&& !reader.refreshes()
                &&& after == before
                &&& lists(self.unread(), selection(reader.table().quads(), self.pattern()))
                &&& self.failure() == reader.table().damage()
                &&& reader.table().damage() is None ==> self.reads(reader.table())
            },
        }
    }

    /// Starts to follow the quads that have the given terms. Of the graph name the outer
    /// `None` stands for any graph and the inner `None` for the default graph.
    ///
    /// A view of a transaction is isolated. It is not combined with the changes of the
    /// store, which could duplicate or contradict its rows.
    pub fn new(
        reader: Arc<StorageReader>,
        storage: &mut Storage,
        subject: Option<&EncodedTerm>,
        predicate: Option<&EncodedTerm>,
        object: Option<&EncodedTerm>,
        graph_name: Option<Option<EncodedTerm>>,
        notifier: usize,
    ) -> (source: Self)
        requires
            reader.wf(),
            old(storage).wf(),
        ensures
            source.starts(
                *reader,
                *old(storage),
                *final(storage),
                spec_copied(subject),
                spec_copied(predicate),
                spec_copied(object),
                graph_name,
                notifier,
            ),
    {
        let pattern = QuadPattern {
            subject: crate::storage::copied(subject),
            predicate: crate::storage::copied(predicate),
            object: crate::storage::copied(object),
            graph_name: crate::subscription::wanted_graph(graph_name),
        };
        let (subscription_id, reader) = if reader.can_refresh() {
            let (subscription_id, fresh_reader) = reader.subscribe_incremental_quads(
                storage,
                subject,
                predicate,
                object,
                graph_name,
                notifier,
            );
            (
                Some(subscription_id),
                match fresh_reader {
                    Some(fresh_reader) => Arc::new(fresh_reader),
                    None => reader,
                },
            )
        } else {
            (None, reader)
        };
        let snapshot_iter = reader.read(&pattern);
        let ghost rest = snapshot_iter.rest();
        let source = LiveQuadDeltaSource {
            reader,
            snapshot_iter,
            subscription_id,
            snapshot_done: false,
            live_buffer: VecDeque::new(),
            held: Ghost(Seq::empty()),
            pattern: Ghost(pattern),
        };
        proof {
            assert(source.events() =~= additions(rest));
            lemma_additions_lead(rest, reader.table().quads(), pattern);
            assert(source.events() + Seq::<Delta<EncodedQuad>>::empty() =~= source.events());
        }
        source
    }

    /// The quad as queries see it.
    pub fn map_quad(quad: EncodedQuad) -> (internal: InternalQuad)
        ensures
            internal == internal_quad(quad),
    {
        InternalQuad::from_encoded(quad)
    }

    fn next_live_change(&mut self) -> (change: Option<Delta<EncodedQuad>>)
        requires
            old(self).wf(),
            old(self).initial() == 0,
        ensures
            final(self).wf(),
            final(self).failure() == old(self).failure(),
            final(self).subscription() == old(self).subscription(),
            final(self).pattern() == old(self).pattern(),
            final(self).initial() == 0,
            final(self).unread() == old(self).unread(),
            final(self).queue() == match change {
                Some(_) => old(self).queue().drop_first(),
                None => old(self).queue(),
            },
            match change {
                Some(change) => old(self).events().len() > 0 && change == old(self).events()[0]
                    && final(self).events() == old(self).events().drop_first()
                    && final(self).held() == step(old(self).held(), change),
                None => old(self).events().len() == 0 && final(self).events()
                    == old(self).events() && final(self).held() == old(self).held(),
            },
    {
        let ghost before = *self;
        assert(before.events() =~= before.live_buffer@);
        match self.live_buffer.pop_front() {
            Some(change) => {
                self.held = Ghost(step(before.held@, change));
                assert(self.events() =~= before.events().drop_first());
                Some(change)
            },
            None => {
                assert(self.events() =~= before.events());
                None
            },
        }
    }

    /// Takes over the changes that wait for the subscription.
    pub fn refill(&mut self, storage: &mut Storage)
        requires
            old(self).wf(),
            old(storage).wf(),
        ensures
            final(self).wf(),
            final(self).held() == old(self).held(),
            final(self).initial() == old(self).initial(),
            final(self).unread() == old(self).unread(),
            final(self).queue() == old(self).queue() + match old(self).subscription() {
                Some(id) => waiting_changes(old(storage).subscribers(), id),
                None => Seq::empty(),
            },
            final(self).failure() == old(self).failure(),
            final(self).subscription() == old(self).subscription(),
            final(self).pattern() == old(self).pattern(),
            final(storage).wf(),
            final(storage).table() == old(storage).table(),
            final(storage).on_disk() == old(storage).on_disk(),
            final(storage).read_only() == old(storage).read_only(),
            final(storage).registry() == old(storage).registry(),
            match old(self).subscription() {
                Some(id) => final(self).events() == old(self).events() + waiting_changes(
                    old(storage).subscribers(),
                    id,
                ) && final(storage).subscribers() == emptied(old(storage).subscribers(), id),
                None => final(self).events() == old(self).events() && *final(storage) == *old(storage),
            },
            old(self).follows(*old(storage)) ==> final(self).follows(*final(storage))
                && final(self).sound(),
    {
        let ghost before = *self;
        if let Some(subscription_id) = self.subscription_id {
            let mut changes = self.reader.incremental_quad_subscription_changes(
                storage,
                subscription_id,
            );
            self.live_buffer.append(&mut changes);
            proof {
                let waiting = waiting_changes(old(storage).subscribers(), subscription_id);
                assert(self.events() =~= before.events() + waiting);
                if before.follows(*old(storage)) {
                    assert(self.events() + Seq::<Delta<EncodedQuad>>::empty() =~= self.events());
                }
            }
        }
    }

    /// The next change. `Pending` is answered while a subscription may bring further ones.
    pub fn next(&mut self) -> (item: Option<
        Result<StreamingItem<Delta<InternalQuad>>, StorageError>,
    >)
        requires
            old(self).wf(),
        ensures
            final(self).wf(),
            final(self).subscription() == old(self).subscription(),
            final(self).pattern() == old(self).pattern(),
            match item {
                Some(Ok(StreamingItem::Item(change))) => {
                    &&& old(self).initial() > 0 || old(self).failure() is None
                    &&& old(self).events().len() > 0
                    &&& change == internal_delta(old(self).events()[0])
                    &&& final(self).events() == old(self).events().drop_first()
                    &&& final(self).held() == step(old(self).held(), old(self).events()[0])
                    &&& final(self).failure() == old(self).failure()
                },
                Some(Ok(StreamingItem::Pending)) => {
                    &&& old(self).subscription() is Some
                    &&& old(self).events().len() == 0
                    &&& old(self).failure() is None
                    &&& final(self).events() == old(self).events()
                    &&& final(self).held() == old(self).held()
                    &&& final(self).failure() is None
                },
                Some(Err(error)) => {
                    &&& old(self).initial() == 0
                    &&& old(self).failure() == Some(error)
                    &&& final(self).events() == old(self).events()
                    &&& final(self).held() == old(self).held()
                    &&& final(self).failure() is None
                },
                None => {
                    &&& old(self).subscription() is None
                    &&& old(self).events().len() == 0
                    &&& old(self).failure() is None
                    &&& final(self).events() == old(self).events()
                    &&& final(self).held() == old(self).held()
                    &&& final(self).failure() is None
                },
            },
            old(self).sound() ==> final(self).sound(),
            // First the quads that were there, then the changes since, each in their order.
            if old(self).unread().len() > 0 {
                &&& item == Some(
                    Ok::<_, StorageError>(
                        StreamingItem::Item(Delta::Addition(internal_quad(old(self).unread()[0]))),
                    ),
                )
                &&& final(self).unread() == old(self).unread().drop_first()
                &&& final(self).queue() == old(self).queue()
            } else if old(self).failure() is None && old(self).queue().len() > 0 {
                &&& item == Some(
                    Ok::<_, StorageError>(
                        StreamingItem::Item(internal_delta(old(self).queue()[0])),
                    ),
                )
                &&& final(self).unread() == old(self).unread()
                &&& final(self).queue() == old(self).queue().drop_first()
            } else {
                &&& !(item matches Some(Ok(StreamingItem::Item(_))))
                &&& final(self).unread() == old(self).unread()
                &&& final(self).queue() == old(self).queue()
            },
    {
        let ghost before = *self;
        proof {
            if before.events().len() > 0 {
                lemma_played_first(before.held(), before.events());
            }
        }
        if !self.snapshot_done {
            match self.snapshot_iter.next() {
                Some(Ok(quad)) => {
                    self.held = Ghost(step(before.held@, Delta::Addition(quad)));
                    proof {
                        assert(before.events()[0] == Delta::Addition(quad));
                        assert(self.events() =~= before.events().drop_first());
                    }
                    return Some(Ok(StreamingItem::Item(Delta::addition(Self::map_quad(quad)))));
                },
                Some(Err(error)) => {
                    assert(self.events() =~= before.events());
                    return Some(Err(error));
                },
                None => {},
            }
            self.snapshot_done = true;
        }
        assert(self.events() =~= before.events());
        match self.next_live_change() {
            Some(change) => {
                let (kind, quad) = change.into_parts();
                Some(Ok(StreamingItem::Item(Delta::with_kind(kind, Self::map_quad(quad)))))
            },
            None => match self.subscription_id {
                Some(_) => Some(Ok(StreamingItem::Pending)),
                None => None,
            },
        }
    }

    /// Stops to follow the store.
    pub fn close(self, storage: &mut Storage)
        requires
            old(storage).wf(),
        ensures
            final(storage).wf(),
            final(storage).table() == old(storage).table(),
            final(storage).on_disk() == old(storage).on_disk(),
            final(storage).read_only() == old(storage).read_only(),
            final(storage).registry() == old(storage).registry(),
            final(storage).subscribers() == match self.subscription() {
                Some(id) => old(storage).subscribers().remove(id),
                None => old(storage).subscribers(),
            },
    {
        if let Some(subscription_id) = self.subscription_id {
            self.reader.unsubscribe_incremental_quads(storage, subscription_id);
        }
    }
}

/// A source hands out the quads that were there at its start, as additions, and then the
/// changes since, in their order.
pub proof fn law_snapshot_comes_before_changes(source: LiveQuadDeltaSource)
    ensures
        source.events() == additions(source.unread()) + source.queue(),
        source.initial() == source.unread().len(),
{
}

/// Handing out the quads that are there as additions leads from nothing to those quads.
proof fn lemma_additions_lead(
    rest: Seq<EncodedQuad>,
    quads: Set<EncodedQuad>,
    pattern: QuadPattern,
)
    requires
        lists(rest, selection(quads, pattern)),
    ensures
        leads_to(Seq::empty(), additions(rest), quads, pattern),
{
    let wanted = selection(quads, pattern);
    lemma_additions_played(rest);
    assert(rest.no_duplicates()) by {
        assert forall|i: int, j: int| 0 <= i < rest.len() && 0 <= j < rest.len() && i
            != j implies rest[i] != rest[j] by {
            if i < j {
                assert(rest[i].model() != rest[j].model());
            } else {
                assert(rest[j].model() != rest[i].model());
            }
        }
    }
    assert forall|i: int| 0 <= i < additions(rest).len() implies selects(
        pattern,
        (#[trigger] additions(rest)[i]).value_of(),
    ) by {
        assert(wanted.contains(rest[i].model()));
    }
    assert forall|quad: EncodedQuad| #[trigger]
        count(played(Seq::empty(), additions(rest)), quad) == presence(quads, pattern, quad) by {
        lemma_count_unique(rest, quad);
        assert(wanted.contains(quad) <==> occurs(rest, quad));
        if rest.contains(quad) {
            let i = choose|i: int| 0 <= i < rest.len() && rest[i] == quad;
            assert(rest[i].model() == quad);
        }
    }
}

/// Changes that report how a store has changed lead one who holds the selected quads of the
/// store from before to the selected quads of the store after.
proof fn lemma_reports_lead(
    held: Seq<EncodedQuad>,
    pattern: IncrementalQuadPattern,
    changes: Seq<Delta<EncodedQuad>>,
    before: Set<EncodedQuad>,
    after: Set<EncodedQuad>,
    len: nat,
)
    requires
        reports(changes, before, after),
        len <= changes.len(),
        forall|quad: EncodedQuad| #[trigger]
            count(held, quad) == presence(before, read_pattern(pattern), quad),
    ensures
        plays(held, heard(pattern, changes.take(len as int))),
        forall|quad: EncodedQuad| #[trigger]
            count(played(held, heard(pattern, changes.take(len as int))), quad)
                == if reported(changes.take(len as int), quad) {
                presence(after, read_pattern(pattern), quad)
            } else {
                presence(before, read_pattern(pattern), quad)
            },
    decreases len,
{
    let scan = read_pattern(pattern);
    let seen = changes.take(len as int);
    if len == 0 {
        assert(heard(pattern, seen) =~= Seq::empty());
        assert forall|quad: EncodedQuad| !reported(seen, quad) by {}
    } else {
        let front = changes.take(len - 1);
        let change = changes[len - 1];
        let own = change.value_of();
        lemma_reports_lead(held, pattern, changes, before, after, (len - 1) as nat);
        assert(seen =~= front.push(change));
        crate::bag::lemma_filter_map_push(front, change, hears(pattern));
        let heard_front = heard(pattern, front);
        let between = played(held, heard_front);
        assert(!reported(front, own)) by {
            if reported(front, own) {
                let i = choose|i: int| 0 <= i < front.len() && (#[trigger] front[i]).value_of() == own;
                assert(changes[i].value_of() != changes[len - 1].value_of());
            }
        }
        assert(differs(changes[len - 1], before, after));
        assert(count(between, own) == presence(before, scan, own));
        assert forall|quad: EncodedQuad| #[trigger] reported(seen, quad) <==> reported(front, quad)
            || quad == own by {
            if reported(front, quad) {
                let i = choose|i: int|
                    0 <= i < front.len() && (#[trigger] front[i]).value_of() == quad;
                assert(seen[i].value_of() == quad);
            }
            if reported(seen, quad) {
                let i = choose|i: int| 0 <= i < seen.len() && (#[trigger] seen[i]).value_of() == quad;
                if i < front.len() {
                    assert(front[i].value_of() == quad);
                }
            }
            assert(seen[front.len() as int].value_of() == own);
        }
        if watches(pattern, own) {
            lemma_played_push(held, heard_front, change);
            lemma_count(between, own);
            assert(applies(between, change));
            assert forall|quad: EncodedQuad| #[trigger]
                count(played(held, heard(pattern, seen)), quad) == if reported(seen, quad) {
                    presence(after, scan, quad)
                } else {
                    presence(before, scan, quad)
                } by {
                lemma_step_count(between, change, quad);
                assert(count(between, quad) == if reported(front, quad) {
                    presence(after, scan, quad)
                } else {
                    presence(before, scan, quad)
                });
            }
        } else {
            assert(heard(pattern, seen) == heard_front);
            assert forall|quad: EncodedQuad| #[trigger]
                count(played(held, heard(pattern, seen)), quad) == if reported(seen, quad) {
                    presence(after, scan, quad)
                } else {
                    presence(before, scan, quad)
                } by {
                assert(count(between, quad) == if reported(front, quad) {
                    presence(after, scan, quad)
                } else {
                    presence(before, scan, quad)
                });
            }
        }
    }
}

/// One who follows a store goes on to follow it when a commit has told its subscribers
/// exactly what has changed.
pub proof fn law_commits_are_followed(
    source: LiveQuadDeltaSource,
    before: Storage,
    after: Storage,
    published: Published,
)
    requires
        source.follows(before),
        told(before, after, published),
        reports(published.changes@, before.table().quads(), after.table().quads()),
    ensures
        source.follows(after),
{
    let id = source.subscription()->0;
    let subscriber = before.subscribers()[id];
    let changes = published.changes@;
    let waiting = source.events() + subscriber.changes;
    let reached = played(source.held(), waiting);
    let more = heard(subscriber.pattern, changes);
    let old_quads = before.table().quads();
    let new_quads = after.table().quads();
    assert(changes.take(changes.len() as int) =~= changes);
    lemma_reports_lead(
        reached,
        subscriber.pattern,
        changes,
        old_quads,
        new_quads,
        changes.len(),
    );
    assert(after.subscribers() == queued(before.subscribers(), changes));
    assert(after.subscribers()[id].changes == subscriber.changes + more);
    assert(source.events() + after.subscribers()[id].changes =~= waiting + more);
    lemma_played_add(source.held(), waiting, more);
    lemma_concerns_add(waiting, more, source.pattern());
    assert forall|i: int| 0 <= i < more.len() implies selects(
        source.pattern(),
        (#[trigger] more[i]).value_of(),
    ) by {
        lemma_filter_map_contains(changes, hears(subscriber.pattern), more[i]);
        assert(more.contains(more[i]));
    }
    assert forall|quad: EncodedQuad| #[trigger]
        count(played(source.held(), waiting + more), quad) == presence(
            new_quads,
            source.pattern(),
            quad,
        ) by {
        assert(count(played(reached, more), quad) == if reported(changes, quad) {
            presence(new_quads, source.pattern(), quad)
        } else {
            presence(old_quads, source.pattern(), quad)
        });
        if !reported(changes, quad) {
            assert(old_quads.contains(quad) == new_quads.contains(quad));
        }
    }
}

/// One who follows a store and has been handed out everything holds exactly the quads that
/// are committed and selected.
pub proof fn law_followers_hold_what_is_committed(
    source: LiveQuadDeltaSource,
    storage: Storage,
    quad: EncodedQuad,
)
    requires
        source.follows(storage),
        source.events().len() == 0,
        waiting_changes(storage.subscribers(), source.subscription()->0).len() == 0,
    ensures
        count(source.held(), quad) == presence(storage.table().quads(), source.pattern(), quad),
{
    let id = source.subscription()->0;
    let all = source.events() + storage.subscribers()[id].changes;
    assert(all =~= Seq::empty());
    assert(count(played(source.held(), all), quad) == presence(
        storage.table().quads(),
        source.pattern(),
        quad,
    ));
}

/// A triple that queries see has the terms of the stored one in their places, and so has a
/// quad. A change that queries see is of the kind of the stored one.
pub proof fn law_queries_see_what_is_stored(
    triple: EncodedTriple,
    quad: EncodedQuad,
    quads: Set<EncodedQuad>,
    pattern: QuadPattern,
)
    ensures
        internal_triple(triple).subject == triple.subject,
        internal_triple(triple).predicate == triple.predicate,
        internal_triple(triple).object == triple.object,
        internal_quad(quad).subject == quad.subject,
        internal_quad(quad).predicate == quad.predicate,
        internal_quad(quad).object == quad.object,
        internal_quad(quad).graph_name is None <==> quad.graph_name == EncodedTerm::DefaultGraph,
        internal_quad(quad).graph_name is Some ==> internal_quad(quad).graph_name == Some(
            quad.graph_name,
        ),
        internal_delta(Delta::Addition(quad)) == Delta::Addition(internal_quad(quad)),
        internal_delta(Delta::Deletion(quad)) == Delta::Deletion(internal_quad(quad)),
        selection(quads, pattern).contains(quad) <==> quads.contains(quad) && selects(
            pattern,
            quad,
        ),
        presence(quads, pattern, quad) == 1 <==> selection(quads, pattern).contains(quad),
        presence(quads, pattern, quad) == 0 <==> !selection(quads, pattern).contains(quad),
{
}

} // verus!
