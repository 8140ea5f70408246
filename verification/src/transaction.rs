//! Transactions: writes that take effect, and are told to the subscribers, as a whole.

use crate::bag::{filter_map, lemma_filter_map_contains};
use crate::delta::Delta;
use crate::error::StorageError;
use crate::fx::FxKey;
use crate::live::{
    heard, hears, law_changes_are_queued_for_every_subscriber,
    law_queries_are_notified_of_watched_changes, must_notify, queued,
};
use crate::model::{NamedOrBlankNode, Quad, Text};
use crate::notifier::{all_notified, waiting_at, Waker};
use crate::numeric_encoder::{
    encoded, encoded_quad, entries, insert_term, quad_entries, quad_strings, term_entries,
    EncodedQuad, EncodedTerm, StrHash,
};
use crate::storage::Storage;
use crate::subscription::{watches, IncrementalQuadPattern};
use crate::table::{
    as_deltas, graphs_written, law_reported_changes_lead_to_what_is_there, lemma_written_push,
    quads_written, reports, with_string, ClearScope, QuadTable, WriteOp,
};
use crate::tracking::{
    intended, law_published_is_written, lemma_track_push, track, DesiredQuadState,
    IncrementalTransactionState, PendingQuadState,
};
use crate::validity::{
    law_commits_keep_stores_valid, lemma_tidy_alone, lemma_tidy_insert, lemma_tidy_push,
    table_valid, tidy, tidy_at,
};
use std::sync::Arc;
use vstd::prelude::*;

verus! {

/// The strings after a list of them was put.
pub open spec fn strings_written(
    strings: Map<StrHash, Seq<u8>>,
    list: Seq<(StrHash, Seq<u8>)>,
) -> Map<StrHash, Seq<u8>>
    decreases list.len(),
{
    if list.len() == 0 {
        strings
    } else {
        with_string(strings_written(strings, list.drop_last()), list.last().0, list.last().1)
    }
}

pub(crate) proof fn lemma_strings_add(
    strings: Map<StrHash, Seq<u8>>,
    a: Seq<(StrHash, Seq<u8>)>,
    b: Seq<(StrHash, Seq<u8>)>,
)
    ensures
        strings_written(strings, a + b) == strings_written(strings_written(strings, a), b),
    decreases b.len(),
{
    if b.len() == 0 {
        assert(a + b =~= a);
    } else {
        assert((a + b).drop_last() =~= a + b.drop_last());
        lemma_strings_add(strings, a, b.drop_last());
    }
}

/// Strings that are known stay known.
pub proof fn law_strings_stay(
    strings: Map<StrHash, Seq<u8>>,
    list: Seq<(StrHash, Seq<u8>)>,
    key: StrHash,
)
    requires
        strings.contains_key(key),
    ensures
        strings_written(strings, list).contains_key(key),
        strings_written(strings, list)[key] == strings[key],
    decreases list.len(),
{
    if list.len() > 0 {
        law_strings_stay(strings, list.drop_last(), key);
    }
}

/// Puts strings into a table.
pub(crate) fn put_strings(table: &mut QuadTable, strings: &Vec<(StrHash, Text)>)
    requires
        old(table).wf(),
    ensures
        final(table).wf(),
        final(table).quads() == old(table).quads(),
        final(table).graphs() == old(table).graphs(),
        final(table).damage() == old(table).damage(),
        final(table).strings() == strings_written(old(table).strings(), entries(strings@)),
{
    let ghost list = entries(strings@);
    let mut next: usize = 0;
    while next < strings.len()
        invariant
            table.wf(),
            list == entries(strings@),
            next <= strings@.len(),
            table.quads() == old(table).quads(),
            table.graphs() == old(table).graphs(),
            table.damage() == old(table).damage(),
            table.strings() == strings_written(old(table).strings(), list.take(next as int)),
        decreases strings@.len() - next,
    {
        assert(list.take(next + 1).drop_last() =~= list.take(next as int));
        table.put_string(strings[next].0, strings[next].1.duplicate());
        next = next + 1;
    }
    assert(list.take(next as int) =~= list);
}

/// Performs the steps of a write.
pub(crate) fn write_all(table: &mut QuadTable, ops: &Vec<WriteOp>)
    requires
        old(table).wf(),
    ensures
        final(table).wf(),
        final(table).quads() == quads_written(old(table).quads(), ops@),
        final(table).graphs() == graphs_written(old(table).graphs(), ops@),
        final(table).strings() == old(table).strings(),
        final(table).damage() == old(table).damage(),
{
    let mut next: usize = 0;
    while next < ops.len()
        invariant
            table.wf(),
            next <= ops@.len(),
            table.quads() == quads_written(old(table).quads(), ops@.take(next as int)),
            table.graphs() == graphs_written(old(table).graphs(), ops@.take(next as int)),
            table.strings() == old(table).strings(),
            table.damage() == old(table).damage(),
        decreases ops@.len() - next,
    {
        assert(ops@.take(next + 1).drop_last() =~= ops@.take(next as int));
        table.apply(ops[next]);
        next = next + 1;
    }
    assert(ops@.take(next as int) =~= ops@);
}

/// What was told of a commit: the changes, the numbers of the notifiers that were notified,
/// and the tasks that are to be woken.
pub struct Published {
    pub changes: Vec<Delta<EncodedQuad>>,
    pub notified: Vec<usize>,
    pub wakers: Vec<Waker>,
}

/// Whether the subscribers of a store have been told changes, and the notifiers of those
/// that heard of one have been notified.
pub open spec fn told(before: Storage, after: Storage, published: Published) -> bool {
    &&& after.subscribers() == queued(before.subscribers(), published.changes@)
    &&& published.notified@.no_duplicates()
    &&& forall|id: usize| #[trigger]
        published.notified@.contains(id) <==> must_notify(
            before.subscribers(),
            published.changes@,
            id,
        )
    &&& all_notified(before.registry(), after.registry(), published.notified@)
    &&& published.wakers@ == filter_map(published.notified@, waiting_at(before.registry()))
}

/// Whether a store is as another one but for its contents and what its subscribers were told.
pub open spec fn same_kind(before: Storage, after: Storage) -> bool {
    &&& after.wf()
    &&& after.on_disk() == before.on_disk()
    &&& after.read_only() == before.read_only()
}

/// Tells the subscribers changes. The tasks to wake are handed out: waking one may run
/// arbitrary code, so it is left until the store is not in use.
pub(crate) fn publish(storage: &mut Storage, changes: Vec<Delta<EncodedQuad>>) -> (published:
    Published)
    requires
        old(storage).wf(),
    ensures
        same_kind(*old(storage), *final(storage)),
        final(storage).table() == old(storage).table(),
        published.changes@ == changes@,
        told(*old(storage), *final(storage), published),
{
    proof {
        storage.lemma_parts();
    }
    let notified = storage.state_mut().queue_committed_quad_changes(&changes);
    proof {
        storage.lemma_parts();
    }
    let wakers = storage.state_mut().notify(&notified);
    proof {
        storage.lemma_parts();
    }
    Published { changes, notified, wakers }
}

fn run<F: FnOnce() -> Result<(), StorageError>>(task: F) -> (outcome: Result<(), StorageError>)
    requires
        task.requires(()),
    ensures
        task.ensures((), outcome),
{
    task()
}

/// Commits new contents and tells the subscribers what has changed: the changes that are
/// given, or those that the recorded operations come to. `commit` writes to disk, and is
/// called only where the changes can be told; where it fails, or where they cannot be told,
/// nothing is changed and nobody is told anything.
pub(crate) fn commit_and_publish<F: FnOnce() -> Result<(), StorageError>>(
    incremental: IncrementalTransactionState,
    storage: &mut Storage,
    exact_changes: Option<Vec<(EncodedQuad, bool)>>,
    table: QuadTable,
    commit: F,
) -> (result: Result<Published, StorageError>)
    requires
        incremental.wf(),
        old(storage).wf(),
        table.wf(),
        !old(storage).on_disk() ==> table.damage() is None,
        exact_changes is Some || incremental.untellable(*old(storage)) is None
            ==> commit.requires(()),
    ensures
        exact_changes is None ==> (incremental.untellable(*old(storage)) matches Some(error)
            ==> result == Err::<Published, StorageError>(error)),
        result is Ok ==> exists|outcome: Result<(), StorageError>|
            outcome is Ok && #[trigger] commit.ensures((), outcome),
        result is Ok ==> same_kind(*old(storage), *final(storage)),
        result is Ok ==> final(storage).table() == table,
        result matches Ok(published) ==> told(*old(storage), *final(storage), published),
        result matches Ok(published) ==> match exact_changes {
            Some(exact_changes) => published.changes@ == as_deltas(exact_changes@),
            None => incremental.changes_prepared(*old(storage), Ok(published.changes@)),
        },
        result is Err ==> *final(storage) == *old(storage),
        result matches Err(error) ==> commit.ensures((), Err(error)) || (exact_changes is None
            && incremental.untellable(*old(storage)) == Some(error)),
{
    let changes = match &exact_changes {
        Some(exact_changes) => {
            let mut changes: Vec<Delta<EncodedQuad>> = Vec::new();
            let mut next: usize = 0;
            while next < exact_changes.len()
                invariant
                    next <= exact_changes@.len(),
                    changes@ == as_deltas(exact_changes@).take(next as int),
                decreases exact_changes@.len() - next,
            {
                let (quad, is_present) = exact_changes[next];
                changes.push(
                    if is_present {
                        Delta::addition(quad)
                    } else {
                        Delta::deletion(quad)
                    },
                );
                next = next + 1;
                assert(changes@ =~= as_deltas(exact_changes@).take(next as int));
            }
            assert(changes@ =~= as_deltas(exact_changes@));
            changes
        },
        None => match incremental.prepare_changes(storage) {
            Ok(changes) => changes,
            Err(error) => {
                return Err(error);
            },
        },
    };
    let outcome = run(commit);
    if let Err(error) = outcome {
        return Err(error);
    }
    storage.replace(table);
    Ok(publish(storage, changes))
}

/// A write to a store in memory, made on a copy of its contents.
pub struct MemoryStorageTransaction {
    base: Arc<QuadTable>,
    working: QuadTable,
    ops: Ghost<Seq<WriteOp>>,
    entries: Ghost<Seq<(StrHash, Seq<u8>)>>,
}

impl MemoryStorageTransaction {
    pub closed spec fn wf(&self) -> bool {
        &&& self.base.wf()
        &&& self.base.damage() is None
        &&& self.working.wf()
        &&& self.working.damage() is None
        &&& self.working.quads() == quads_written(self.base.quads(), self.ops@)
        &&& self.working.graphs() == graphs_written(self.base.graphs(), self.ops@)
        &&& self.working.strings() == strings_written(self.base.strings(), self.entries@)
    }

    /// The contents that the write started from.
    pub closed spec fn base(&self) -> QuadTable {
        *self.base
    }

    /// The contents after the write.
    pub closed spec fn working(&self) -> QuadTable {
        self.working
    }

    /// The steps so far.
    pub closed spec fn ops(&self) -> Seq<WriteOp> {
        self.ops@
    }

    /// The strings put so far.
    pub closed spec fn entries(&self) -> Seq<(StrHash, Seq<u8>)> {
        self.entries@
    }

    /// The parts of a valid write are valid.
    pub(crate) proof fn lemma_parts(&self)
        requires
            self.wf(),
        ensures
            self.base().wf(),
            self.base().damage() is None,
            self.working().wf(),
            self.working().damage() is None,
            self.working().quads() == quads_written(self.base().quads(), self.ops()),
            self.working().graphs() == graphs_written(self.base().graphs(), self.ops()),
            self.working().strings() == strings_written(self.base().strings(), self.entries()),
    {
    }

    pub(crate) fn start(storage: &Storage) -> (transaction: Self)
        requires
            storage.wf(),
            !storage.on_disk(),
        ensures
            transaction.wf(),
            transaction.base() == storage.table(),
            transaction.ops() == Seq::<WriteOp>::empty(),
            transaction.entries() == Seq::<(StrHash, Seq<u8>)>::empty(),
    {
        proof {
            storage.lemma_parts();
        }
        let base = storage.current();
        let working = base.duplicate();
        MemoryStorageTransaction {
            base,
            working,
            ops: Ghost(Seq::empty()),
            entries: Ghost(Seq::empty()),
        }
    }

    pub(crate) fn write(&mut self, op: WriteOp)
        requires
            old(self).wf(),
        ensures
            final(self).wf(),
            final(self).base() == old(self).base(),
            final(self).ops() == old(self).ops().push(op),
            final(self).entries() == old(self).entries(),
    {
        proof {
            lemma_written_push(self.base.quads(), self.base.graphs(), self.ops@, op);
        }
        self.working.apply(op);
        self.ops = Ghost(self.ops@.push(op));
    }

    pub(crate) fn put(&mut self, strings: &Vec<(StrHash, Text)>)
        requires
            old(self).wf(),
        ensures
            final(self).wf(),
            final(self).base() == old(self).base(),
            final(self).ops() == old(self).ops(),
            final(self).entries() == old(self).entries() + entries(strings@),
    {
        proof {
            lemma_strings_add(self.base.strings(), self.entries@, entries(strings@));
        }
        put_strings(&mut self.working, strings);
        self.entries = Ghost(self.entries@ + entries(strings@));
    }

    /// The contents after the write.
    pub(crate) fn contents(&self) -> (table: &QuadTable)
        ensures
            *table == self.working(),
    {
        &self.working
    }

    pub(crate) fn into_contents(self) -> (table: QuadTable)
        ensures
            table == self.working(),
    {
        self.working
    }

    /// How the quads differ from those at the start.
    pub(crate) fn pending_quad_changes(&self) -> (changes: Vec<(EncodedQuad, bool)>)
        requires
            self.wf(),
        ensures
            reports(
                as_deltas(changes@),
                self.base().quads(),
                quads_written(self.base().quads(), self.ops()),
            ),
    {
        self.working.changes_since(&self.base)
    }
}

/// A write to a store on disk that reads nothing: its steps, to be performed on whatever is
/// there at the commit.
pub struct RocksDbStorageTransaction {
    pub ops: Vec<WriteOp>,
    pub strings: Vec<(StrHash, Text)>,
}

pub enum StorageTransactionKind {
    RocksDb(RocksDbStorageTransaction),
    Memory(MemoryStorageTransaction),
}

/// A write to a store.
pub struct StorageTransaction {
    kind: StorageTransactionKind,
    incremental: IncrementalTransactionState,
}

impl StorageTransaction {
    /// The steps are recorded, and leave valid contents valid.
    pub closed spec fn wf(&self) -> bool {
        &&& tidy(self.ops(), self.entries())
        &&& self.incremental.wf()
        &&& match self.kind {
            StorageTransactionKind::RocksDb(transaction) => self.incremental.records(
                transaction.ops@,
            ),
            StorageTransactionKind::Memory(transaction) => transaction.wf()
                && !self.incremental.tracking(),
        }
    }

    pub closed spec fn on_disk(&self) -> bool {
        self.kind is RocksDb
    }

    /// The steps so far.
    pub closed spec fn ops(&self) -> Seq<WriteOp> {
        match self.kind {
            StorageTransactionKind::RocksDb(transaction) => transaction.ops@,
            StorageTransactionKind::Memory(transaction) => transaction.ops(),
        }
    }

    /// The strings put so far.
    pub closed spec fn entries(&self) -> Seq<(StrHash, Seq<u8>)> {
        match self.kind {
            StorageTransactionKind::RocksDb(transaction) => entries(transaction.strings@),
            StorageTransactionKind::Memory(transaction) => transaction.entries(),
        }
    }

    /// The contents that a write in memory started from. No other write can have been
    /// committed since.
    pub closed spec fn started_from(&self, table: QuadTable) -> bool {
        self.kind matches StorageTransactionKind::Memory(transaction) ==> transaction.base()
            == table
    }

    pub closed spec fn recorded(&self) -> IncrementalTransactionState {
        self.incremental
    }

    /// Adds a quad.
    pub fn insert(&mut self, quad: Quad)
        requires
            old(self).wf(),
        ensures
            final(self).wf(),
            final(self).on_disk() == old(self).on_disk(),
            forall|table: QuadTable| #[trigger]
                final(self).started_from(table) == old(self).started_from(table),
            final(self).ops() == old(self).ops().push(WriteOp::PutQuad(encoded_quad(quad))),
            final(self).entries() == old(self).entries() + quad_entries(quad),
    {
        let op = WriteOp::PutQuad(EncodedQuad::from_quad(&quad));
        let strings = quad_strings(&quad);
        proof {
            lemma_track_push(self.ops(), op);
            lemma_tidy_insert(self.ops(), self.entries(), quad);
        }
        self.incremental.set_quad_state(&quad, DesiredQuadState::Present);
        self.perform(op, strings);
    }

    /// Performs a step whose record is made already.
    fn perform(&mut self, op: WriteOp, strings: Vec<(StrHash, Text)>)
        requires
            old(self).incremental.wf(),
            match old(self).kind {
                StorageTransactionKind::RocksDb(transaction) => old(self).incremental.records(
                    transaction.ops@.push(op),
                ),
                StorageTransactionKind::Memory(transaction) => transaction.wf() && !old(self).incremental.tracking(),
            },
            tidy(old(self).ops().push(op), old(self).entries() + entries(strings@)),
        ensures
            final(self).wf(),
            final(self).on_disk() == old(self).on_disk(),
            forall|table: QuadTable| #[trigger]
                final(self).started_from(table) == old(self).started_from(table),
            final(self).ops() == old(self).ops().push(op),
            final(self).entries() == old(self).entries() + entries(strings@),
    {
        match &mut self.kind {
            StorageTransactionKind::RocksDb(transaction) => {
                let ghost before = entries(transaction.strings@);
                let mut strings = strings;
                let ghost added = strings@;
                transaction.ops.push(op);
                transaction.strings.append(&mut strings);
                assert(entries(transaction.strings@) =~= before + entries(added));
            },
            StorageTransactionKind::Memory(transaction) => {
                transaction.write(op);
                transaction.put(&strings);
            },
        }
    }
}

impl StorageTransaction {
    /// Adds the name of a graph.
    pub fn insert_named_graph(&mut self, graph_name: NamedOrBlankNode)
        requires
            old(self).wf(),
        ensures
            final(self).wf(),
            final(self).on_disk() == old(self).on_disk(),
            forall|table: QuadTable| #[trigger]
                final(self).started_from(table) == old(self).started_from(table),
            final(self).ops() == old(self).ops().push(WriteOp::PutGraph(encoded(graph_name@))),
            final(self).entries() == old(self).entries() + term_entries(graph_name@),
    {
        let op = WriteOp::PutGraph(EncodedTerm::from_node(&graph_name));
        let mut strings: Vec<(StrHash, Text)> = Vec::new();
        insert_term(&graph_name.into_term(), &mut strings);
        assert(entries(strings@) =~= term_entries(graph_name@));
        proof {
            lemma_track_push(self.ops(), op);
            lemma_tidy_push(self.ops(), self.entries(), op, entries(strings@));
        }
        self.perform(op, strings);
    }

    /// Removes a quad.
    pub fn remove(&mut self, quad: &Quad)
        requires
            old(self).wf(),
        ensures
            final(self).wf(),
            final(self).on_disk() == old(self).on_disk(),
            forall|table: QuadTable| #[trigger]
                final(self).started_from(table) == old(self).started_from(table),
            final(self).ops() == old(self).ops().push(WriteOp::DeleteQuad(encoded_quad(*quad))),
            final(self).entries() == old(self).entries(),
    {
        let op = WriteOp::DeleteQuad(EncodedQuad::from_quad(quad));
        proof {
            lemma_track_push(self.ops(), op);
        }
        self.incremental.set_quad_state(quad, DesiredQuadState::Absent);
        self.perform_alone(op);
    }

    /// Performs a step that needs no strings.
    fn perform_alone(&mut self, op: WriteOp)
        requires
            old(self).incremental.wf(),
            match old(self).kind {
                StorageTransactionKind::RocksDb(transaction) => old(self).incremental.records(
                    transaction.ops@.push(op),
                ),
                StorageTransactionKind::Memory(transaction) => transaction.wf() && !old(self).incremental.tracking(),
            },
            tidy(old(self).ops(), old(self).entries()),
            tidy_at(
                old(self).ops().push(op),
                old(self).entries(),
                old(self).ops().len() as int,
            ),
        ensures
            final(self).wf(),
            final(self).on_disk() == old(self).on_disk(),
            forall|table: QuadTable| #[trigger]
                final(self).started_from(table) == old(self).started_from(table),
            final(self).ops() == old(self).ops().push(op),
            final(self).entries() == old(self).entries(),
    {
        let strings: Vec<(StrHash, Text)> = Vec::new();
        assert(self.entries() + entries(strings@) =~= self.entries());
        proof {
            lemma_tidy_alone(self.ops(), self.entries(), op);
        }
        self.perform(op, strings);
    }

    /// Removes the quads of graphs, whichever they are.
    fn clear_quads(&mut self, scope: ClearScope)
        requires
            old(self).wf(),
        ensures
            final(self).wf(),
            final(self).on_disk() == old(self).on_disk(),
            forall|table: QuadTable| #[trigger]
                final(self).started_from(table) == old(self).started_from(table),
            final(self).ops() == old(self).ops().push(WriteOp::ClearQuads(scope)),
            final(self).entries() == old(self).entries(),
    {
        proof {
            lemma_track_push(self.ops(), WriteOp::ClearQuads(scope));
        }
        match &self.kind {
            StorageTransactionKind::RocksDb(_) => {
                match scope {
                    ClearScope::Graph(name) => {
                        self.incremental.mark_range_clear(
                            IncrementalQuadPattern {
                                subject: None,
                                predicate: None,
                                object: None,
                                graph_name: Some(Some(name)),
                            },
                        );
                    },
                    ClearScope::NamedGraphs => {
                        self.incremental.mark_range_clear_named_graphs();
                    },
                    ClearScope::AllGraphs => {
                        self.incremental.mark_range_clear(
                            IncrementalQuadPattern {
                                subject: None,
                                predicate: None,
                                object: None,
                                graph_name: None,
                            },
                        );
                    },
                }
            },
            StorageTransactionKind::Memory(_) => {
                let touched = match scope {
                    ClearScope::Graph(name) => self.incremental.touch_quads_for_pattern(
                        None,
                        None,
                        None,
                        Some(&name),
                    ),
                    ClearScope::NamedGraphs => self.incremental.touch_all_named_graph_quads(),
                    ClearScope::AllGraphs => self.incremental.touch_quads_for_pattern(
                        None,
                        None,
                        None,
                        None,
                    ),
                };
                if touched.is_err() {
                    self.incremental.disable();
                }
            },
        }
        self.perform_alone(WriteOp::ClearQuads(scope));
    }

    /// Forgets the names of all graphs, after their quads were removed.
    fn forget_graphs(&mut self)
        requires
            old(self).wf(),
            tidy_at(
                old(self).ops().push(WriteOp::ForgetGraphs),
                old(self).entries(),
                old(self).ops().len() as int,
            ),
        ensures
            final(self).wf(),
            final(self).on_disk() == old(self).on_disk(),
            forall|table: QuadTable| #[trigger]
                final(self).started_from(table) == old(self).started_from(table),
            final(self).ops() == old(self).ops().push(WriteOp::ForgetGraphs),
            final(self).entries() == old(self).entries(),
    {
        proof {
            lemma_track_push(self.ops(), WriteOp::ForgetGraphs);
        }
        self.perform_alone(WriteOp::ForgetGraphs);
    }

    /// Removes the quads of the default graph.
    pub fn clear_default_graph(&mut self)
        requires
            old(self).wf(),
        ensures
            final(self).wf(),
            final(self).on_disk() == old(self).on_disk(),
            forall|table: QuadTable| #[trigger]
                final(self).started_from(table) == old(self).started_from(table),
            final(self).ops() == old(self).ops().push(
                WriteOp::ClearQuads(ClearScope::Graph(EncodedTerm::DefaultGraph)),
            ),
            final(self).entries() == old(self).entries(),
    {
        self.clear_quads(ClearScope::Graph(EncodedTerm::DefaultGraph));
    }

    /// Removes the quads of the named graphs; the graphs keep their names.
    pub fn clear_all_named_graphs(&mut self)
        requires
            old(self).wf(),
        ensures
            final(self).wf(),
            final(self).on_disk() == old(self).on_disk(),
            forall|table: QuadTable| #[trigger]
                final(self).started_from(table) == old(self).started_from(table),
            final(self).ops() == old(self).ops().push(
                WriteOp::ClearQuads(ClearScope::NamedGraphs),
            ),
            final(self).entries() == old(self).entries(),
    {
        self.clear_quads(ClearScope::NamedGraphs);
    }

    /// Removes all quads; the graphs keep their names.
    pub fn clear_all_graphs(&mut self)
        requires
            old(self).wf(),
        ensures
            final(self).wf(),
            final(self).on_disk() == old(self).on_disk(),
            forall|table: QuadTable| #[trigger]
                final(self).started_from(table) == old(self).started_from(table),
            final(self).ops() == old(self).ops().push(WriteOp::ClearQuads(ClearScope::AllGraphs)),
            final(self).entries() == old(self).entries(),
    {
        self.clear_quads(ClearScope::AllGraphs);
    }

    /// Removes the named graphs with their quads.
    pub fn remove_all_named_graphs(&mut self)
        requires
            old(self).wf(),
        ensures
            final(self).wf(),
            final(self).on_disk() == old(self).on_disk(),
            forall|table: QuadTable| #[trigger]
                final(self).started_from(table) == old(self).started_from(table),
            final(self).ops() == old(self).ops().push(
                WriteOp::ClearQuads(ClearScope::NamedGraphs),
            ).push(WriteOp::ForgetGraphs),
            final(self).entries() == old(self).entries(),
    {
        self.clear_quads(ClearScope::NamedGraphs);
        self.forget_graphs();
    }

    /// Removes all quads and the names of all graphs.
    pub fn clear(&mut self)
        requires
            old(self).wf(),
        ensures
            final(self).wf(),
            final(self).on_disk() == old(self).on_disk(),
            forall|table: QuadTable| #[trigger]
                final(self).started_from(table) == old(self).started_from(table),
            final(self).ops() == old(self).ops().push(
                WriteOp::ClearQuads(ClearScope::AllGraphs),
            ).push(WriteOp::ForgetGraphs),
            final(self).entries() == old(self).entries(),
    {
        self.clear_quads(ClearScope::AllGraphs);
        self.forget_graphs();
    }

    /// Makes the write take effect and tells the subscribers. `write` writes the steps to
    /// disk; it is not called for a store in memory, nor where the changes cannot be told.
    pub fn commit<F: FnOnce() -> Result<(), StorageError>>(
        self,
        storage: &mut Storage,
        write: F,
    ) -> (result: Result<Published, StorageError>)
        requires
            self.wf(),
            old(storage).wf(),
            self.on_disk() == old(storage).on_disk(),
            !self.on_disk() ==> self.started_from(old(storage).table()),
            self.on_disk() && self.recorded().untellable(*old(storage)) is None ==> write.requires(
                (),
            ),
        ensures
            self.on_disk() ==> (self.recorded().untellable(*old(storage)) matches Some(error)
                ==> result == Err::<Published, StorageError>(error)),
            result is Ok ==> same_kind(*old(storage), *final(storage)),
            result is Ok ==> final(storage).table().quads() == quads_written(
                old(storage).table().quads(),
                self.ops(),
            ),
            result is Ok ==> final(storage).table().graphs() == graphs_written(
                old(storage).table().graphs(),
                self.ops(),
            ),
            result is Ok ==> final(storage).table().strings() == strings_written(
                old(storage).table().strings(),
                self.entries(),
            ),
            result is Ok ==> final(storage).table().damage() == old(storage).table().damage(),
            result is Ok && table_valid(old(storage).table()) ==> table_valid(
                final(storage).table(),
            ),
            result matches Ok(published) ==> told(*old(storage), *final(storage), published),
            result matches Ok(published) ==> reports(
                published.changes@,
                old(storage).table().quads(),
                final(storage).table().quads(),
            ),
            result matches Ok(published) ==> self.on_disk()
                ==> self.recorded().changes_prepared(*old(storage), Ok(published.changes@)),
            result is Ok && self.on_disk() ==> exists|outcome: Result<(), StorageError>|
                outcome is Ok && #[trigger] write.ensures((), outcome),
            result is Err ==> *final(storage) == *old(storage),
            result matches Err(error) ==> self.on_disk() && (write.ensures((), Err(error))
                || self.recorded().untellable(*old(storage)) == Some(error)),
    {
        proof {
            let table = storage.table();
            if table_valid(table) {
                law_commits_keep_stores_valid(
                    table.quads(),
                    table.graphs(),
                    table.strings(),
                    self.ops(),
                    self.entries(),
                );
            }
        }
        let StorageTransaction { kind, incremental } = self;
        match kind {
            StorageTransactionKind::RocksDb(transaction) => {
                proof {
                    storage.lemma_parts();
                    incremental.lemma_limit();
                }
                let mut table = storage.current().duplicate();
                write_all(&mut table, &transaction.ops);
                put_strings(&mut table, &transaction.strings);
                let result = commit_and_publish(incremental, storage, None, table, write);
                proof {
                    let before = old(storage).table().quads();
                    law_published_is_written(transaction.ops@, before);
                    if track(transaction.ops@).states == Map::<
                        EncodedQuad,
                        PendingQuadState,
                    >::empty() && track(transaction.ops@).range_clears.len() == 0 {
                        assert(intended(track(transaction.ops@).states, before) =~= before);
                    }
                }
                result
            },
            StorageTransactionKind::Memory(transaction) => {
                proof {
                    transaction.lemma_parts();
                }
                let changes = transaction.pending_quad_changes();
                let no_write = || -> (outcome: Result<(), StorageError>)
                    ensures
                        outcome is Ok,
                    { Ok(()) };
                commit_and_publish(
                    incremental,
                    storage,
                    Some(changes),
                    transaction.into_contents(),
                    no_write,
                )
            },
        }
    }
}

impl Storage {
    /// Starts a write that reads nothing.
    pub fn start_transaction(&self) -> (transaction: Result<StorageTransaction, StorageError>)
        requires
            self.wf(),
        ensures
            match transaction {
                Ok(transaction) => {
                    &&& !self.read_only()
                    &&& transaction.wf()
                    &&& transaction.on_disk() == self.on_disk()
                    &&& transaction.started_from(self.table())
                    &&& transaction.ops() == Seq::<WriteOp>::empty()
                    &&& transaction.entries() == Seq::<(StrHash, Seq<u8>)>::empty()
                },
                Err(error) => self.read_only() && error == StorageError::ReadOnly,
            },
    {
        if self.is_read_only() {
            return Err(StorageError::ReadOnly);
        }
        let incremental = IncrementalTransactionState::new(self);
        let kind = if self.is_on_disk() {
            StorageTransactionKind::RocksDb(
                RocksDbStorageTransaction { ops: Vec::new(), strings: Vec::new() },
            )
        } else {
            StorageTransactionKind::Memory(MemoryStorageTransaction::start(self))
        };
        let transaction = StorageTransaction { kind, incremental };
        assert(transaction.entries() =~= Seq::<(StrHash, Seq<u8>)>::empty());
        Ok(transaction)
    }
}

/// A string that is put is known from then on under its hash; of two strings with one hash
/// the first one stays. Nothing else becomes known.
pub proof fn law_put_strings_are_known(
    strings: Map<StrHash, Seq<u8>>,
    list: Seq<(StrHash, Seq<u8>)>,
    key: StrHash,
)
    ensures
        strings_written(strings, list).contains_key(key) <==> strings.contains_key(key) || exists|
            i: int,
        |
            0 <= i < list.len() && (#[trigger] list[i]).0 == key,
        !strings.contains_key(key) && strings_written(strings, list).contains_key(key) ==> exists|
            i: int,
        |
            #![trigger list[i]]
            0 <= i < list.len() && list[i] == (key, strings_written(strings, list)[key]) && forall|
                j: int,
            |
                0 <= j < i ==> (#[trigger] list[j]).0 != key,
    decreases list.len(),
{
    if list.len() > 0 {
        let front = list.drop_last();
        let last = list.len() - 1;
        law_put_strings_are_known(strings, front, key);
        if exists|i: int| 0 <= i < list.len() && (#[trigger] list[i]).0 == key {
            let i = choose|i: int| 0 <= i < list.len() && (#[trigger] list[i]).0 == key;
            if i < last {
                assert(front[i].0 == key);
            }
        }
        if strings_written(strings, front).contains_key(key) {
            if !strings.contains_key(key) {
                let i = choose|i: int|
                    #![trigger front[i]]
                    0 <= i < front.len() && front[i] == (key, strings_written(strings, front)[key])
                        && forall|j: int| 0 <= j < i ==> (#[trigger] front[j]).0 != key;
                assert(list[i] == front[i]);
                assert forall|j: int| 0 <= j < i implies (#[trigger] list[j]).0 != key by {
                    assert(front[j] == list[j]);
                }
            }
        } else if strings_written(strings, list).contains_key(key) {
            assert(list[last] == (key, strings_written(strings, list)[key]));
            assert forall|j: int| 0 <= j < last implies (#[trigger] list[j]).0 != key by {
                assert(front[j] == list[j]);
            }
        }
    }
}

/// A commit leaves a subscriber with the changes that waited for it and, behind them, a change
/// for each difference between the contents before and after that the subscriber watches; it
/// is told of no other. A query is notified exactly where one of its subscribers watches such
/// a difference.
pub proof fn law_subscribers_hear_of_every_difference(
    before: Storage,
    after: Storage,
    published: Published,
    id: usize,
    quad: EncodedQuad,
)
    requires
        told(before, after, published),
        reports(published.changes@, before.table().quads(), after.table().quads()),
        before.subscribers().contains_key(id),
    ensures
        after.subscribers().contains_key(id),
        before.subscribers()[id].changes.is_prefix_of(after.subscribers()[id].changes),
        ({
            let pattern = before.subscribers()[id].pattern;
            let more = after.subscribers()[id].changes.skip(
                before.subscribers()[id].changes.len() as int,
            );
            &&& more.contains(Delta::Addition(quad)) <==> watches(pattern, quad)
                && !before.table().quads().contains(quad) && after.table().quads().contains(quad)
            &&& more.contains(Delta::Deletion(quad)) <==> watches(pattern, quad)
                && before.table().quads().contains(quad) && !after.table().quads().contains(quad)
        }),
        watches(before.subscribers()[id].pattern, quad) && before.table().quads().contains(quad)
            != after.table().quads().contains(quad) ==> published.notified@.contains(
            before.subscribers()[id].notifier,
        ),
{
    let changes = published.changes@;
    let pattern = before.subscribers()[id].pattern;
    let waiting = before.subscribers()[id].changes;
    law_changes_are_queued_for_every_subscriber(before.subscribers(), changes, id);
    law_reported_changes_lead_to_what_is_there(
        changes,
        before.table().quads(),
        after.table().quads(),
        quad,
    );
    let more = heard(pattern, changes);
    assert(after.subscribers()[id].changes =~= waiting + more);
    assert((waiting + more).skip(waiting.len() as int) =~= more);
    lemma_heard_contains(pattern, changes, Delta::Addition(quad));
    lemma_heard_contains(pattern, changes, Delta::Deletion(quad));
    if watches(pattern, quad) && before.table().quads().contains(quad)
        != after.table().quads().contains(quad) {
        law_queries_are_notified_of_watched_changes(
            before.subscribers(),
            changes,
            before.subscribers()[id].notifier,
        );
        let change = if after.table().quads().contains(quad) {
            Delta::Addition(quad)
        } else {
            Delta::Deletion(quad)
        };
        assert(changes.contains(change));
        let i = choose|i: int| 0 <= i < changes.len() && changes[i] == change;
        assert(watches(before.subscribers()[id].pattern, changes[i].value_of()));
        assert(must_notify(before.subscribers(), changes, before.subscribers()[id].notifier));
    }
}

/// What a subscription hears of is what it watches among the changes.
proof fn lemma_heard_contains(
    pattern: IncrementalQuadPattern,
    changes: Seq<Delta<EncodedQuad>>,
    change: Delta<EncodedQuad>,
)
    ensures
        heard(pattern, changes).contains(change) <==> changes.contains(change) && watches(
            pattern,
            change.value_of(),
        ),
{
    let f = hears(pattern);
    lemma_filter_map_contains(changes, f, change);
    if changes.contains(change) && watches(pattern, change.value_of()) {
        let i = choose|i: int| 0 <= i < changes.len() && changes[i] == change;
        assert(f(changes[i]) == Some(change));
    }
    if heard(pattern, changes).contains(change) {
        let i = choose|i: int| 0 <= i < changes.len() && f(#[trigger] changes[i]) == Some(change);
        assert(changes[i] == change);
    }
}

/// The tasks that are woken after a commit are those that wait at a notifier which was
/// notified, and no notifier that was notified has a task that waits any longer.
pub proof fn law_waiting_tasks_are_woken(
    before: Storage,
    after: Storage,
    published: Published,
    waker: Waker,
    id: usize,
)
    requires
        told(before, after, published),
    ensures
        published.wakers@.contains(waker) <==> exists|k: int|
            #![trigger published.notified@[k]]
            0 <= k < published.notified@.len() && published.notified@[k] < before.registry().len()
                && (before.registry()[published.notified@[k] as int] matches Some(notifier)
                && notifier.waiting() == Some(waker)),
        id < before.registry().len() && before.registry()[id as int] is Some
            ==> after.registry()[id as int] is Some && if published.notified@.contains(id) {
            after.registry()[id as int]->0.waiting() is None && after.registry()[id as int]->0.changes()
                != before.registry()[id as int]->0.changes()
        } else {
            after.registry()[id as int] == before.registry()[id as int]
        },
{
    let f = waiting_at(before.registry());
    lemma_filter_map_contains(published.notified@, f, waker);
    if published.wakers@.contains(waker) {
        let k = choose|k: int|
            0 <= k < published.notified@.len() && f(#[trigger] published.notified@[k]) == Some(
                waker,
            );
        assert(published.notified@[k] < before.registry().len());
    }
    if exists|k: int|
        #![trigger published.notified@[k]]
        0 <= k < published.notified@.len() && published.notified@[k] < before.registry().len() && (
        before.registry()[published.notified@[k] as int] matches Some(notifier)
            && notifier.waiting() == Some(waker)) {
        let k = choose|k: int|
            #![trigger published.notified@[k]]
            0 <= k < published.notified@.len() && published.notified@[k] < before.registry().len()
                && (before.registry()[published.notified@[k] as int] matches Some(notifier)
                && notifier.waiting() == Some(waker));
        assert(f(published.notified@[k]) == Some(waker));
    }
    if id < before.registry().len() && before.registry()[id as int] is Some {
        assert(after.registry()[id as int] is Some);
    }
}

} // verus!
