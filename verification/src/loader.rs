//! Loading many quads at once.

use crate::error::StorageError;
use crate::model::{Quad, Text};
use crate::numeric_encoder::{
    encoded_quad, entries, quad_entries, quad_strings, EncodedQuad, EncodedTerm, StrHash,
};
use crate::storage::{quad_string_ids, Storage};
use crate::table::{graphs_written, quads_written, reports, QuadTable, WriteOp};
use crate::tracking::{
    intended, newly_visible, settled, DesiredQuadState, IncrementalTransactionState,
    PendingQuadState,
};
use crate::transaction::{
    commit_and_publish, law_strings_stay, lemma_strings_add, publish, put_strings, same_kind,
    strings_written, told, write_all, MemoryStorageTransaction, Published,
};
use crate::validity::{
    all_valid, graph_listed, law_commits_keep_stores_valid, lemma_quad_supplied, lemma_supplied,
    strings_known,
};
use vstd::prelude::*;

verus! {

/// The encoded forms of a list of quads.
pub open spec fn encoded_quads(quads: Seq<Quad>) -> Seq<EncodedQuad> {
    quads.map_values(|quad: Quad| encoded_quad(quad))
}

/// The steps that put a list of quads.
pub open spec fn puts(quads: Seq<EncodedQuad>) -> Seq<WriteOp> {
    quads.map_values(|quad: EncodedQuad| WriteOp::PutQuad(quad))
}

/// The dictionary entries that a list of quads needs.
pub open spec fn all_entries(quads: Seq<Quad>) -> Seq<(StrHash, Seq<u8>)>
    decreases quads.len(),
{
    if quads.len() == 0 {
        Seq::empty()
    } else {
        all_entries(quads.drop_last()) + quad_entries(quads.last())
    }
}

/// Putting quads adds them to what is there.
pub proof fn lemma_puts(before: Set<EncodedQuad>, quads: Seq<EncodedQuad>)
    ensures
        quads_written(before, puts(quads)) == before.union(quads.to_set()),
    decreases quads.len(),
{
    if quads.len() == 0 {
        assert(before =~= before.union(quads.to_set()));
    } else {
        let front = quads.drop_last();
        lemma_puts(before, front);
        assert(puts(quads).drop_last() =~= puts(front));
        assert(quads.to_set() =~= front.to_set().insert(quads.last())) by {
            assert forall|quad: EncodedQuad| #[trigger] quads.contains(quad) <==> front.contains(
                quad,
            ) || quad == quads.last() by {
                if quads.contains(quad) {
                    let i = choose|i: int| 0 <= i < quads.len() && quads[i] == quad;
                    if i < front.len() {
                        assert(front[i] == quad);
                    }
                }
                if front.contains(quad) {
                    let i = choose|i: int| 0 <= i < front.len() && front[i] == quad;
                    assert(quads[i] == quad);
                }
                assert(quads[quads.len() - 1] == quads.last());
            }
        }
        assert(quads_written(before, puts(quads)) =~= before.union(quads.to_set()));
    }
}

/// Whether all strings that quads refer to are known.
pub open spec fn all_known(strings: Map<StrHash, Seq<u8>>, quads: Seq<EncodedQuad>) -> bool {
    forall|i: int| 0 <= i < quads.len() ==> strings_known(strings, #[trigger] quads[i])
}

/// Quads that are accepted come with their strings, and those that were accepted before keep
/// theirs.
pub proof fn law_accepted_quads_bring_their_strings(
    strings: Map<StrHash, Seq<u8>>,
    accepted: Seq<EncodedQuad>,
    entries: Seq<(StrHash, Seq<u8>)>,
    quads: Seq<Quad>,
)
    requires
        all_known(strings_written(strings, entries), accepted),
    ensures
        all_known(
            strings_written(strings, entries + all_entries(quads)),
            accepted + encoded_quads(quads),
        ),
    decreases quads.len(),
{
    if quads.len() == 0 {
        assert(entries + all_entries(quads) =~= entries);
        assert(accepted + encoded_quads(quads) =~= accepted);
    } else {
        let front = quads.drop_last();
        let quad = quads.last();
        law_accepted_quads_bring_their_strings(strings, accepted, entries, front);
        let old_entries = entries + all_entries(front);
        let more = quad_entries(quad);
        let old_known = strings_written(strings, old_entries);
        let known = strings_written(strings, entries + all_entries(quads));
        assert(entries + all_entries(quads) =~= old_entries + more);
        lemma_strings_add(strings, old_entries, more);
        lemma_quad_supplied(quad);
        let old_list = accepted + encoded_quads(front);
        let list = accepted + encoded_quads(quads);
        assert forall|i: int| 0 <= i < list.len() implies strings_known(known, #[trigger] list[i]) by {
            let ids = quad_string_ids(list[i]);
            assert forall|k: int| 0 <= k < ids.len() implies known.contains_key(
                #[trigger] ids[k],
            ) by {
                if i < old_list.len() {
                    assert(old_list[i] == list[i]);
                    assert(strings_known(old_known, old_list[i]));
                    law_strings_stay(old_known, more, ids[k]);
                } else {
                    assert(list[i] == encoded_quad(quad));
                    lemma_supplied(old_known, more, ids[k]);
                }
            }
        }
    }
}

/// Quads that become visible with their strings leave a valid store valid.
pub proof fn law_loads_keep_stores_valid(
    quads: Set<EncodedQuad>,
    graphs: Set<EncodedTerm>,
    strings: Map<StrHash, Seq<u8>>,
    accepted: Seq<EncodedQuad>,
    entries: Seq<(StrHash, Seq<u8>)>,
)
    requires
        all_valid(quads, graphs, strings),
        all_known(strings_written(strings, entries), accepted),
    ensures
        all_valid(
            quads_written(quads, puts(accepted)),
            graphs_written(graphs, puts(accepted)),
            strings_written(strings, entries),
        ),
    decreases accepted.len(),
{
    let known = strings_written(strings, entries);
    if accepted.len() == 0 {
        law_commits_keep_stores_valid(quads, graphs, strings, Seq::empty(), entries);
        assert(puts(accepted) =~= Seq::empty());
    } else {
        let front = accepted.drop_last();
        let last = accepted.len() - 1;
        assert forall|i: int| 0 <= i < front.len() implies strings_known(
            known,
            #[trigger] front[i],
        ) by {
            assert(strings_known(known, accepted[i]));
        }
        law_loads_keep_stores_valid(quads, graphs, strings, front, entries);
        assert(puts(accepted).drop_last() =~= puts(front));
        assert(strings_known(known, accepted[last]));
        let new_quads = quads_written(quads, puts(accepted));
        let new_graphs = graphs_written(graphs, puts(accepted));
        assert forall|quad: EncodedQuad| #[trigger] new_quads.contains(quad) implies graph_listed(
            new_graphs,
            quad,
        ) && strings_known(known, quad) by {
            if quads_written(quads, puts(front)).contains(quad) {
                assert(graph_listed(graphs_written(graphs, puts(front)), quad));
            }
        }
    }
}

/// The quads that are accepted but not visible yet.
pub struct RocksDbStorageBulkLoader {
    pending: Vec<EncodedQuad>,
    strings: Vec<(StrHash, Text)>,
}

pub enum StorageBulkLoaderKind {
    RocksDb(RocksDbStorageBulkLoader),
    Memory(MemoryStorageTransaction),
}

/// Loads quads in batches.
pub struct StorageBulkLoader {
    kind: StorageBulkLoaderKind,
    incremental: IncrementalTransactionState,
    non_atomic: bool,
    reports_progress: bool,
}

impl StorageBulkLoader {
    /// On disk exactly quads that are not visible yet are recorded.
    pub closed spec fn wf(&self) -> bool {
        &&& self.incremental.wf()
        &&& match self.kind {
            StorageBulkLoaderKind::RocksDb(loader) => {
                &&& self.incremental.tracking()
                &&& self.incremental.range_clears().len() == 0
                &&& forall|quad: EncodedQuad| #[trigger]
                    self.incremental.states().contains_key(quad)
                        ==> self.incremental.states()[quad].desired == DesiredQuadState::Present
                        && loader.pending@.contains(quad)
            },
            StorageBulkLoaderKind::Memory(transaction) => transaction.wf()
                && !self.incremental.tracking() && !self.non_atomic,
        }
    }

    pub closed spec fn on_disk(&self) -> bool {
        self.kind is RocksDb
    }

    /// Whether quads may become visible before the commit.
    pub closed spec fn non_atomic(&self) -> bool {
        self.non_atomic
    }

    /// Whether progress is to be reported.
    pub closed spec fn with_progress(&self) -> bool {
        self.reports_progress
    }

    /// The quads that are accepted but not visible yet.
    pub closed spec fn pending(&self) -> Seq<EncodedQuad> {
        match self.kind {
            StorageBulkLoaderKind::RocksDb(loader) => loader.pending@,
            StorageBulkLoaderKind::Memory(transaction) => Seq::empty(),
        }
    }

    /// The strings that are accepted but not known yet.
    pub closed spec fn pending_entries(&self) -> Seq<(StrHash, Seq<u8>)> {
        match self.kind {
            StorageBulkLoaderKind::RocksDb(loader) => entries(loader.strings@),
            StorageBulkLoaderKind::Memory(transaction) => transaction.entries(),
        }
    }

    /// The steps of a load into a store in memory.
    pub closed spec fn ops(&self) -> Seq<WriteOp> {
        match self.kind {
            StorageBulkLoaderKind::RocksDb(loader) => puts(loader.pending@),
            StorageBulkLoaderKind::Memory(transaction) => transaction.ops(),
        }
    }

    /// The contents that a load in memory started from. No other write can have been
    /// committed since.
    pub closed spec fn started_from(&self, table: QuadTable) -> bool {
        self.kind matches StorageBulkLoaderKind::Memory(transaction) ==> transaction.base()
            == table
    }

    pub closed spec fn recorded(&self) -> IncrementalTransactionState {
        self.incremental
    }

    /// Whether every quad that is not visible yet is recorded or was there anyway. Only a
    /// deletion by another transaction of a quad that is loaded twice ends this.
    pub open spec fn covers_pending(&self, before: Set<EncodedQuad>) -> bool {
        forall|quad: EncodedQuad| #[trigger]
            self.pending().contains(quad) ==> self.recorded().states().contains_key(quad)
                || before.contains(quad)
    }

    /// Has progress reported.
    pub fn on_progress(self) -> (loader: Self)
        requires
            self.wf(),
        ensures
            loader.wf(),
            loader.with_progress(),
            loader.same_load(self),
            loader.non_atomic() == self.non_atomic(),
    {
        StorageBulkLoader {
            kind: self.kind,
            incremental: self.incremental,
            non_atomic: self.non_atomic,
            reports_progress: true,
        }
    }

    /// Whether two loaders have accepted the same quads.
    pub open spec fn same_load(&self, other: Self) -> bool {
        &&& self.on_disk() == other.on_disk()
        &&& self.pending() == other.pending()
        &&& self.pending_entries() == other.pending_entries()
        &&& self.ops() == other.ops()
        &&& self.recorded() == other.recorded()
        &&& forall|table: QuadTable| #[trigger]
            self.started_from(table) == other.started_from(table)
    }

    pub fn reports_progress(&self) -> (result: bool)
        ensures
            result == self.with_progress(),
    {
        self.reports_progress
    }

    /// Allows quads to become visible before the commit. In memory they never do.
    pub fn without_atomicity(self) -> (loader: Self)
        requires
            self.wf(),
        ensures
            loader.wf(),
            loader.same_load(self),
            loader.with_progress() == self.with_progress(),
            loader.non_atomic() == (self.on_disk() || self.non_atomic()),
    {
        match self.kind {
            StorageBulkLoaderKind::RocksDb(loader) => StorageBulkLoader {
                kind: StorageBulkLoaderKind::RocksDb(loader),
                incremental: self.incremental,
                non_atomic: true,
                reports_progress: self.reports_progress,
            },
            StorageBulkLoaderKind::Memory(loader) => StorageBulkLoader {
                kind: StorageBulkLoaderKind::Memory(loader),
                incremental: self.incremental,
                non_atomic: self.non_atomic,
                reports_progress: self.reports_progress,
            },
        }
    }

    /// Records that quads are put.
    fn record(&mut self, quads: &Vec<Quad>)
        requires
            old(self).incremental.wf(),
        ensures
            final(self).incremental.wf(),
            final(self).kind == old(self).kind,
            final(self).non_atomic == old(self).non_atomic,
            final(self).reports_progress == old(self).reports_progress,
            final(self).incremental.tracking() == old(self).incremental.tracking(),
            final(self).incremental.range_clears() == old(self).incremental.range_clears(),
            !old(self).incremental.tracking() ==> final(self).incremental == old(self).incremental,
            old(self).incremental.tracking() ==> forall|quad: EncodedQuad| #[trigger]
                final(self).incremental.states().contains_key(quad) <==> {
                    ||| old(self).incremental.states().contains_key(quad)
                    ||| encoded_quads(quads@).contains(quad)
                },
            old(self).incremental.tracking() ==> forall|quad: EncodedQuad| #[trigger]
                final(self).incremental.states().contains_key(quad) ==> if encoded_quads(
                    quads@,
                ).contains(quad) {
                    final(self).incremental.states()[quad].desired == DesiredQuadState::Present
                } else {
                    final(self).incremental.states()[quad] == old(self).incremental.states()[quad]
                },
    {
        let ghost all = encoded_quads(quads@);
        let mut next: usize = 0;
        while next < quads.len()
            invariant
                self.incremental.wf(),
                all == encoded_quads(quads@),
                next <= quads@.len(),
                self.kind == old(self).kind,
                self.non_atomic == old(self).non_atomic,
                self.reports_progress == old(self).reports_progress,
                self.incremental.tracking() == old(self).incremental.tracking(),
                self.incremental.range_clears() == old(self).incremental.range_clears(),
                !old(self).incremental.tracking() ==> self.incremental == old(self).incremental,
                old(self).incremental.tracking() ==> forall|quad: EncodedQuad| #[trigger]
                    self.incremental.states().contains_key(quad) <==> {
                        ||| old(self).incremental.states().contains_key(quad)
                        ||| all.take(next as int).contains(quad)
                    },
                old(self).incremental.tracking() ==> forall|quad: EncodedQuad| #[trigger]
                    self.incremental.states().contains_key(quad) ==> if all.take(
                        next as int,
                    ).contains(quad) {
                        self.incremental.states()[quad].desired == DesiredQuadState::Present
                    } else {
                        self.incremental.states()[quad] == old(self).incremental.states()[quad]
                    },
            decreases quads@.len() - next,
        {
            let ghost seen = all.take(next as int);
            let ghost current = self.incremental.states();
            let ghost quad = all[next as int];
            self.incremental.set_quad_state(&quads[next], DesiredQuadState::Present);
            next = next + 1;
            proof {
                let more = all.take(next as int);
                assert(more =~= seen.push(quad));
                assert forall|other: EncodedQuad| #[trigger] more.contains(other)
                    <==> seen.contains(other) || other == quad by {
                    lemma_contains_push(seen, quad, other);
                }
                if old(self).incremental.tracking() {
                    assert forall|other: EncodedQuad| #[trigger]
                        self.incremental.states().contains_key(other) implies if more.contains(
                        other,
                    ) {
                        self.incremental.states()[other].desired == DesiredQuadState::Present
                    } else {
                        self.incremental.states()[other] == old(self).incremental.states()[other]
                    } by {
                        if other != quad {
                            assert(current.contains_key(other));
                        }
                    }
                }
            }
        }
        assert(all.take(next as int) =~= all);
    }

    /// Accepts a batch of quads. On disk `load` does the file work, on at most the given
    /// number of threads, and tells how many of the accepted quads are visible now; unless
    /// quads may become visible before the commit it makes none visible. The additions
    /// that became visible are published.
    pub fn load_batch<F: FnOnce(usize) -> Result<usize, StorageError>>(
        &mut self,
        storage: &mut Storage,
        quads: Vec<Quad>,
        max_num_threads: usize,
        load: F,
    ) -> (result: Result<Published, StorageError>)
        requires
            old(self).wf(),
            old(storage).wf(),
            old(self).on_disk() == old(storage).on_disk(),
            old(self).on_disk() ==> load.requires((max_num_threads,)),
        ensures
            final(self).wf(),
            final(self).on_disk() == old(self).on_disk(),
            final(self).non_atomic() == old(self).non_atomic(),
            final(self).with_progress() == old(self).with_progress(),
            forall|table: QuadTable| #[trigger]
                final(self).started_from(table) == old(self).started_from(table),
            // In memory.
            !old(self).on_disk() ==> {
                &&& *final(storage) == *old(storage)
                &&& final(self).ops() == old(self).ops() + puts(encoded_quads(quads@))
                &&& final(self).pending_entries() == old(self).pending_entries() + all_entries(
                    quads@,
                )
                &&& result matches Ok(published) && published.changes@.len() == 0
                    && published.wakers@.len() == 0
            },
            // On disk, where the quads become visible as a whole.
            old(self).on_disk() && !old(self).non_atomic() ==> {
                &&& *final(storage) == *old(storage)
                &&& final(self).pending() == old(self).pending() + encoded_quads(quads@)
                &&& final(self).pending_entries() == old(self).pending_entries() + all_entries(
                    quads@,
                )
                &&& old(self).covers_pending(old(storage).table().quads())
                    ==> final(self).covers_pending(final(storage).table().quads())
                &&& match result {
                    Ok(published) => published.changes@.len() == 0 && published.wakers@.len() == 0
                        && exists|count: usize| #[trigger]
                        load.ensures((max_num_threads,), Ok(count)),
                    Err(error) => load.ensures((max_num_threads,), Err(error)),
                }
            },
            // On disk, where the quads become visible step by step.
            old(self).on_disk() && old(self).non_atomic() && result is Err ==> {
                &&& *final(storage) == *old(storage)
                &&& load.ensures((max_num_threads,), Err(result->Err_0))
                &&& final(self).pending() == old(self).pending() + encoded_quads(quads@)
                &&& final(self).pending_entries() == old(self).pending_entries() + all_entries(
                    quads@,
                )
                &&& old(self).covers_pending(old(storage).table().quads())
                    ==> final(self).covers_pending(final(storage).table().quads())
            },
            old(self).on_disk() && old(self).non_atomic() ==> (result matches Ok(published)
                ==> exists|count: usize|
                {
                    &&& #[trigger] load.ensures((max_num_threads,), Ok(count))
                    &&& final(self).became_visible(
                        *old(self),
                        *old(storage),
                        *final(storage),
                        encoded_quads(quads@),
                        all_entries(quads@),
                        count as int,
                    )
                }),
            old(self).on_disk() && old(self).non_atomic() ==> (result matches Ok(published)
                ==> told(*old(storage), *final(storage), published)),
            old(self).on_disk() && old(self).non_atomic() && old(self).covers_pending(
                old(storage).table().quads(),
            ) ==> (result matches Ok(published) ==> {
                &&& reports(
                    published.changes@,
                    old(storage).table().quads(),
                    final(storage).table().quads(),
                )
                &&& final(self).covers_pending(final(storage).table().quads())
            }),
    {
        let ghost start = *self;
        let ghost batch = encoded_quads(quads@);
        self.record(&quads);
        let ghost recorded = self.incremental;
        match &mut self.kind {
            StorageBulkLoaderKind::Memory(transaction) => {
                load_in_memory(transaction, &quads);
                return Ok(nothing_published());
            },
            StorageBulkLoaderKind::RocksDb(loader) => {
                loader.accept(&quads);
            },
        }
        let ghost accepted = *self;
        proof {
            assert(accepted.pending() == start.pending() + batch);
            assert forall|quad: EncodedQuad| #[trigger]
                recorded.states().contains_key(quad) implies recorded.states()[quad].desired
                == DesiredQuadState::Present && accepted.pending().contains(quad) by {
                lemma_contains_add(start.pending(), batch, quad);
            }
            assert forall|quad: EncodedQuad| #[trigger]
                accepted.pending().contains(quad) implies recorded.states().contains_key(quad)
                || start.pending().contains(quad) by {
                lemma_contains_add(start.pending(), batch, quad);
            }
        }
        proof {
            let old_quads = old(storage).table().quads();
            if start.covers_pending(old_quads) {
                assert forall|quad: EncodedQuad| #[trigger]
                    self.pending().contains(quad) implies self.recorded().states().contains_key(
                    quad,
                ) || old_quads.contains(quad) by {
                    if start.pending().contains(quad) {
                        assert(start.recorded().states().contains_key(quad)
                            || old_quads.contains(quad));
                    }
                }
            }
        }
        if !self.non_atomic {
            return match run_load(load, max_num_threads) {
                Ok(count) => {
                    assert(load.ensures((max_num_threads,), Ok(count)));
                    Ok(nothing_published())
                },
                Err(error) => Err(error),
            };
        }
        let before = storage.snapshot();
        let count = match run_load(load, max_num_threads) {
            Ok(count) => count,
            Err(error) => {
                return Err(error);
            },
        };
        proof {
            storage.lemma_parts();
        }
        let mut table = storage.current().duplicate();
        if let StorageBulkLoaderKind::RocksDb(loader) = &mut self.kind {
            loader.ingest(&mut table, count);
        }
        let ghost visible = table.quads();
        storage.replace(table);
        let after = storage.snapshot();
        let ghost between = *storage;
        proof {
            lemma_puts(
                before.table().quads(),
                accepted.pending().take(shorter(count as int, accepted.pending().len() as int)),
            );
        }
        let changes = match self.incremental.take_visible_additions(&before, &after) {
            Ok(changes) => changes,
            Err(error) => {
                assert(false);
                return Err(error);
            },
        };
        let published = publish(storage, changes);
        proof {
            let n = shorter(count as int, accepted.pending().len() as int);
            let all = accepted.pending();
            let old_quads = old(storage).table().quads();
            assert forall|quad: EncodedQuad| #[trigger]
                self.incremental.states().contains_key(quad) implies self.incremental.states()[quad].desired
                == DesiredQuadState::Present && self.pending().contains(quad) by {
                assert(recorded.states().contains_key(quad));
                assert(!visible.contains(quad));
                lemma_contains_split(all, n, quad);
                assert(all.take(n).to_set().contains(quad) == all.take(n).contains(quad));
            }
            if start.covers_pending(old_quads) {
                assert forall|quad: EncodedQuad|
                    visible.contains(quad) == old_quads.union(
                        newly_visible(recorded.states(), old_quads, visible),
                    ).contains(quad) by {
                    if visible.contains(quad) && !old_quads.contains(quad) {
                        assert(all.take(n).to_set().contains(quad));
                        lemma_contains_split(all, n, quad);
                    }
                }
                assert(visible =~= old_quads.union(
                    newly_visible(recorded.states(), old_quads, visible),
                ));
                assert forall|quad: EncodedQuad| #[trigger]
                    self.pending().contains(quad) implies self.recorded().states().contains_key(
                    quad,
                ) || visible.contains(quad) by {
                    lemma_contains_split(all, n, quad);
                    assert(recorded.states().contains_key(quad) || old_quads.contains(quad));
                }
            }
            assert(self.became_visible(
                start,
                *old(storage),
                *storage,
                batch,
                all_entries(quads@),
                count as int,
            ));
        }
        Ok(published)
    }

    /// What the visible quads are after some of the accepted quads have become visible.
    pub open spec fn became_visible(
        &self,
        start: Self,
        before: Storage,
        after: Storage,
        batch: Seq<EncodedQuad>,
        strings: Seq<(StrHash, Seq<u8>)>,
        count: int,
    ) -> bool {
        let all = start.pending() + batch;
        let n = shorter(count, all.len() as int);
        &&& same_kind(before, after)
        &&& self.pending() == all.skip(n)
        &&& self.pending_entries() == Seq::<(StrHash, Seq<u8>)>::empty()
        &&& after.table().quads() == before.table().quads().union(all.take(n).to_set())
        &&& after.table().graphs() == graphs_written(before.table().graphs(), puts(all.take(n)))
        &&& after.table().strings() == strings_written(
            before.table().strings(),
            start.pending_entries() + strings,
        )
        &&& after.table().damage() == before.table().damage()
    }

    /// Makes all accepted quads visible and tells the subscribers. `write` does the file
    /// work; it is not called for a store in memory.
    pub fn commit<F: FnOnce() -> Result<(), StorageError>>(
        self,
        storage: &mut Storage,
        write: F,
    ) -> (result: Result<Published, StorageError>)
        requires
            self.wf(),
            old(storage).wf(),
            self.on_disk() == old(storage).on_disk(),
            !self.on_disk() ==> self.started_from(old(storage).table()),
            self.on_disk() ==> write.requires(()),
        ensures
            result is Ok ==> same_kind(*old(storage), *final(storage)),
            result is Ok ==> final(storage).table().quads() == quads_written(
                old(storage).table().quads(),
                self.ops(),
            ),
            result is Ok ==> final(storage).table().graphs() == graphs_written(
                old(storage).table().graphs(),
                self.ops(),
            ),
            result is Ok ==> final(storage).table().strings() == strings_written(
                old(storage).table().strings(),
                self.pending_entries(),
            ),
            result is Ok ==> final(storage).table().damage() == old(storage).table().damage(),
            result matches Ok(published) ==> told(*old(storage), *final(storage), published),
            result matches Ok(published) ==> (!self.on_disk() || self.covers_pending(
                old(storage).table().quads(),
            )) ==> reports(
                published.changes@,
                old(storage).table().quads(),
                final(storage).table().quads(),
            ),
            result matches Ok(published) ==> self.on_disk()
                ==> self.recorded().changes_prepared(*old(storage), Ok(published.changes@)),
            result is Ok && self.on_disk() ==> exists|outcome: Result<(), StorageError>|
                outcome is Ok && #[trigger] write.ensures((), outcome),
            result is Err ==> *final(storage) == *old(storage),
            result matches Err(error) ==> self.on_disk() && write.ensures((), Err(error)),
    {
        let StorageBulkLoader { kind, incremental, .. } = self;
        match kind {
            StorageBulkLoaderKind::RocksDb(loader) => {
                proof {
                    storage.lemma_parts();
                }
                let mut table = storage.current().duplicate();
                let mut loader = loader;
                let count = loader.pending.len();
                loader.ingest(&mut table, count);
                let result = commit_and_publish(incremental, storage, None, table, write);
                proof {
                    let before = old(storage).table().quads();
                    let states = incremental.states();
                    let all = self.pending();
                    assert(all.take(count as int) =~= all);
                    lemma_puts(before, all);
                    assert(settled(states, incremental.range_clears(), before) == states);
                    if self.covers_pending(before) {
                        assert forall|quad: EncodedQuad| intended(states, before).contains(quad)
                            <==> before.union(all.to_set()).contains(quad) by {
                            assert(all.to_set().contains(quad) == all.contains(quad));
                        }
                        assert(intended(states, before) =~= before.union(all.to_set()));
                        if states == Map::<EncodedQuad, PendingQuadState>::empty() {
                            assert(intended(states, before) =~= before);
                        }
                    }
                }
                result
            },
            StorageBulkLoaderKind::Memory(transaction) => {
                proof {
                    transaction.lemma_parts();
                }
                let changes = transaction.pending_quad_changes();
                let no_write = || -> (outcome: Result<(), StorageError>)
                    ensures
                        outcome is Ok,
                    { Ok(()) };
                commit_and_publish(
                    incremental,
                    storage,
                    Some(changes),
                    transaction.into_contents(),
                    no_write,
                )
            },
        }
    }
}

/// The smaller of two numbers.
pub open spec fn shorter(a: int, b: int) -> int {
    if a < b {
        a
    } else {
        b
    }
}

fn nothing_published() -> (published: Published)
    ensures
        published.changes@.len() == 0,
        published.notified@.len() == 0,
        published.wakers@.len() == 0,
{
    Published { changes: Vec::new(), notified: Vec::new(), wakers: Vec::new() }
}

fn run_load<F: FnOnce(usize) -> Result<usize, StorageError>>(
    load: F,
    max_num_threads: usize,
) -> (outcome: Result<usize, StorageError>)
    requires
        load.requires((max_num_threads,)),
    ensures
        load.ensures((max_num_threads,), outcome),
{
    load(max_num_threads)
}

fn load_in_memory(transaction: &mut MemoryStorageTransaction, quads: &Vec<Quad>)
    requires
        old(transaction).wf(),
    ensures
        final(transaction).wf(),
        final(transaction).base() == old(transaction).base(),
        final(transaction).ops() == old(transaction).ops() + puts(encoded_quads(quads@)),
        final(transaction).entries() == old(transaction).entries() + all_entries(quads@),
{
    let ghost ops = transaction.ops();
    let ghost list = transaction.entries();
    let mut next: usize = 0;
    proof {
        assert(quads@.take(0) =~= Seq::empty());
        assert(ops + puts(encoded_quads(quads@.take(0))) =~= ops);
        assert(list + all_entries(quads@.take(0)) =~= list);
    }
    while next < quads.len()
        invariant
            transaction.wf(),
            next <= quads@.len(),
            transaction.base() == old(transaction).base(),
            transaction.ops() == ops + puts(encoded_quads(quads@.take(next as int))),
            transaction.entries() == list + all_entries(quads@.take(next as int)),
        decreases quads@.len() - next,
    {
        let ghost seen = quads@.take(next as int);
        transaction.write(WriteOp::PutQuad(EncodedQuad::from_quad(&quads[next])));
        transaction.put(&quad_strings(&quads[next]));
        next = next + 1;
        proof {
            let more = quads@.take(next as int);
            assert(more.drop_last() =~= seen);
            assert(transaction.ops() =~= ops + puts(encoded_quads(more)));
            assert(transaction.entries() =~= list + all_entries(more));
        }
    }
    assert(quads@.take(next as int) =~= quads@);
}

impl RocksDbStorageBulkLoader {
    /// Accepts quads.
    fn accept(&mut self, quads: &Vec<Quad>)
        ensures
            final(self).pending@ == old(self).pending@ + encoded_quads(quads@),
            entries(final(self).strings@) == entries(old(self).strings@) + all_entries(quads@),
    {
        let ghost pending = self.pending@;
        let ghost list = entries(self.strings@);
        let mut next: usize = 0;
        proof {
            assert(quads@.take(0) =~= Seq::empty());
            assert(pending + encoded_quads(quads@.take(0)) =~= pending);
            assert(list + all_entries(quads@.take(0)) =~= list);
        }
        while next < quads.len()
            invariant
                next <= quads@.len(),
                self.pending@ == pending + encoded_quads(quads@.take(next as int)),
                entries(self.strings@) == list + all_entries(quads@.take(next as int)),
            decreases quads@.len() - next,
        {
            let ghost seen = quads@.take(next as int);
            self.pending.push(EncodedQuad::from_quad(&quads[next]));
            let mut strings = quad_strings(&quads[next]);
            let ghost before = self.strings@;
            let ghost added = strings@;
            self.strings.append(&mut strings);
            next = next + 1;
            proof {
                let more = quads@.take(next as int);
                assert(more.drop_last() =~= seen);
                assert(self.pending@ =~= pending + encoded_quads(more));
                assert(entries(self.strings@) =~= entries(before) + entries(added));
                assert(entries(self.strings@) =~= list + all_entries(more));
            }
        }
        assert(quads@.take(next as int) =~= quads@);
    }

    /// Makes the first quads visible, and all strings known.
    fn ingest(&mut self, table: &mut QuadTable, count: usize)
        requires
            old(table).wf(),
        ensures
            final(table).wf(),
            final(self).pending@ == old(self).pending@.skip(
                shorter(count as int, old(self).pending@.len() as int),
            ),
            entries(final(self).strings@) == Seq::<(StrHash, Seq<u8>)>::empty(),
            final(table).quads() == quads_written(
                old(table).quads(),
                puts(
                    old(self).pending@.take(
                        shorter(count as int, old(self).pending@.len() as int),
                    ),
                ),
            ),
            final(table).graphs() == graphs_written(
                old(table).graphs(),
                puts(
                    old(self).pending@.take(
                        shorter(count as int, old(self).pending@.len() as int),
                    ),
                ),
            ),
            final(table).strings() == strings_written(
                old(table).strings(),
                entries(old(self).strings@),
            ),
            final(table).damage() == old(table).damage(),
    {
        let ghost all = self.pending@;
        let ghost n = shorter(count as int, all.len() as int);
        put_strings(table, &self.strings);
        let mut rest: Vec<EncodedQuad> = Vec::new();
        let mut ops: Vec<WriteOp> = Vec::new();
        let mut next: usize = 0;
        while next < self.pending.len()
            invariant
                self.pending@ == all,
                self.strings == old(self).strings,
                n == shorter(count as int, all.len() as int),
                next <= all.len(),
                ops@ == puts(all.take(shorter(next as int, n))),
                rest@ == if next < n {
                    Seq::empty()
                } else {
                    all.take(next as int).skip(n)
                },
            decreases all.len() - next,
        {
            if next < count {
                ops.push(WriteOp::PutQuad(self.pending[next]));
            } else {
                rest.push(self.pending[next]);
            }
            next = next + 1;
            assert(ops@ =~= puts(all.take(shorter(next as int, n))));
            assert(rest@ =~= if next < n {
                Seq::empty()
            } else {
                all.take(next as int).skip(n)
            });
        }
        assert(all.take(next as int) =~= all);
        assert(rest@ =~= all.skip(n));
        write_all(table, &ops);
        self.pending = rest;
        self.strings = Vec::new();
        assert(entries(self.strings@) =~= Seq::<(StrHash, Seq<u8>)>::empty());
    }
}

proof fn lemma_contains_push(items: Seq<EncodedQuad>, item: EncodedQuad, other: EncodedQuad)
    ensures
        items.push(item).contains(other) <==> items.contains(other) || other == item,
{
    lemma_contains_add(items, seq![item], other);
    assert(items.push(item) =~= items + seq![item]);
    assert(seq![item].contains(other) <==> other == item) by {
        assert(seq![item][0] == item);
    }
}

proof fn lemma_contains_add(a: Seq<EncodedQuad>, b: Seq<EncodedQuad>, quad: EncodedQuad)
    ensures
        (a + b).contains(quad) <==> a.contains(quad) || b.contains(quad),
{
    let all = a + b;
    if a.contains(quad) {
        let i = choose|i: int| 0 <= i < a.len() && a[i] == quad;
        assert(all[i] == quad);
    }
    if b.contains(quad) {
        let i = choose|i: int| 0 <= i < b.len() && b[i] == quad;
        assert(all[a.len() + i] == quad);
    }
    if all.contains(quad) {
        let i = choose|i: int| 0 <= i < all.len() && all[i] == quad;
        if i < a.len() {
            assert(a[i] == quad);
        } else {
            assert(b[i - a.len()] == quad);
        }
    }
}

proof fn lemma_contains_split(all: Seq<EncodedQuad>, n: int, quad: EncodedQuad)
    requires
        0 <= n <= all.len(),
    ensures
        all.contains(quad) <==> all.take(n).contains(quad) || all.skip(n).contains(quad),
{
    assert(all =~= all.take(n) + all.skip(n));
    lemma_contains_add(all.take(n), all.skip(n), quad);
}

impl Storage {
    /// Starts a load of many quads.
    pub fn bulk_loader(&self) -> (loader: StorageBulkLoader)
        requires
            self.wf(),
        ensures
            loader.wf(),
            loader.on_disk() == self.on_disk(),
            !loader.non_atomic(),
            !loader.with_progress(),
            loader.started_from(self.table()),
            loader.pending() == Seq::<EncodedQuad>::empty(),
            loader.pending_entries() == Seq::<(StrHash, Seq<u8>)>::empty(),
            loader.ops() == Seq::<WriteOp>::empty(),
    {
        let kind = if self.is_on_disk() {
            StorageBulkLoaderKind::RocksDb(
                RocksDbStorageBulkLoader { pending: Vec::new(), strings: Vec::new() },
            )
        } else {
            StorageBulkLoaderKind::Memory(MemoryStorageTransaction::start(self))
        };
        let loader = StorageBulkLoader {
            kind,
            incremental: IncrementalTransactionState::new(self),
            non_atomic: false,
            reports_progress: false,
        };
        assert(loader.pending_entries() =~= Seq::<(StrHash, Seq<u8>)>::empty());
        assert(loader.ops() =~= Seq::<WriteOp>::empty());
        loader
    }
}

/// Loading quads makes each of them present, and touches no other quad.
pub proof fn law_loaded_quads_are_there(
    before: Set<EncodedQuad>,
    quads: Seq<Quad>,
    quad: EncodedQuad,
)
    ensures
        quads_written(before, puts(encoded_quads(quads))).contains(quad) <==> before.contains(quad)
            || exists|i: int| 0 <= i < quads.len() && encoded_quad(#[trigger] quads[i]) == quad,
    decreases quads.len(),
{
    let ops = puts(encoded_quads(quads));
    if quads.len() > 0 {
        let front = quads.drop_last();
        let last = quads.len() - 1;
        law_loaded_quads_are_there(before, front, quad);
        assert(ops.drop_last() =~= puts(encoded_quads(front)));
        assert(ops.last() == WriteOp::PutQuad(encoded_quad(quads[last])));
        if exists|i: int| 0 <= i < front.len() && encoded_quad(#[trigger] front[i]) == quad {
            let i = choose|i: int|
                0 <= i < front.len() && encoded_quad(#[trigger] front[i]) == quad;
            assert(encoded_quad(quads[i]) == quad);
        }
        if exists|i: int| 0 <= i < quads.len() && encoded_quad(#[trigger] quads[i]) == quad {
            let i = choose|i: int|
                0 <= i < quads.len() && encoded_quad(#[trigger] quads[i]) == quad;
            if i < last {
                assert(encoded_quad(front[i]) == quad);
            }
        }
    }
}

/// The strings of a list of quads are those of its quads, one quad after the other.
pub proof fn law_strings_of_quads_add_up(first: Seq<Quad>, then: Seq<Quad>, quad: Quad)
    ensures
        all_entries(first + then) == all_entries(first) + all_entries(then),
        all_entries(seq![quad]) == quad_entries(quad),
    decreases then.len(),
{
    assert(seq![quad].drop_last() =~= Seq::<Quad>::empty());
    assert(all_entries(seq![quad].drop_last()) =~= Seq::empty());
    assert(all_entries(seq![quad]) =~= quad_entries(quad));
    if then.len() == 0 {
        assert(first + then =~= first);
        assert(all_entries(then) =~= Seq::empty());
    } else {
        law_strings_of_quads_add_up(first, then.drop_last(), quad);
        assert((first + then).drop_last() =~= first + then.drop_last());
    }
    assert(all_entries(first + then) =~= all_entries(first) + all_entries(then));
}

/// The smaller of two numbers is one of them, and the other one is not smaller.
pub proof fn law_smaller_of_two_numbers(a: int, b: int)
    ensures
        shorter(a, b) == a || shorter(a, b) == b,
        shorter(a, b) <= a,
        shorter(a, b) <= b,
{
}

} // verus!
