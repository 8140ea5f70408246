//! Low level storage primitives: a store, consistent views of it, and subscriptions to its
//! changes.

use crate::bag::{count, is, lemma_weight_push};
use crate::delta::Delta;
use crate::error::{CorruptionError, StorageError};
use crate::fx::{lists, occurs, FxKey, FxSet};
use crate::live::{IncrementalState, SubscriberView};
use crate::model::Text;
use crate::notifier::IncrementalQueryNotifier;
use crate::numeric_encoder::{
    string_ids, triple_of, EncodedQuad, EncodedTerm, EncodedTriple, StrHash,
};
use crate::subscription::IncrementalQuadPattern;
use crate::table::{selects, share, QuadPattern, QuadTable};
use std::collections::VecDeque;
use std::sync::Arc;
use vstd::prelude::*;

verus! {

/// How many quads a bulk load handles at once, unless told otherwise.
pub const DEFAULT_BULK_LOAD_BATCH_SIZE: usize = 1_000_000;

/// How to open a store on disk.
#[derive(Clone, Copy, PartialEq, Eq, Structural, Debug)]
pub struct StorageOptions {
    pub max_open_files: Option<i32>,
    pub fd_reserve: Option<u32>,
}

impl StorageOptions {
    pub fn new(max_open_files: Option<i32>, fd_reserve: Option<u32>) -> (options: Self)
        ensures
            options.max_open_files == max_open_files,
            options.fd_reserve == fd_reserve,
    {
        StorageOptions { max_open_files, fd_reserve }
    }
}

/// The options in the form in which the files are opened.
#[derive(Clone, Copy, PartialEq, Eq, Structural, Debug)]
pub struct RocksDbStorageOptions {
    pub max_open_files: Option<i32>,
    pub fd_reserve: Option<u32>,
}

/// A store that is kept in memory alone.
pub struct MemoryStorage {
    table: Arc<QuadTable>,
}

/// A store that is kept on disk.
pub struct RocksDbStorage {
    table: Arc<QuadTable>,
    read_only: bool,
}

pub enum StorageKind {
    RocksDb(RocksDbStorage),
    Memory(MemoryStorage),
}

/// A store of quads with live subscriptions to its changes.
pub struct Storage {
    kind: StorageKind,
    incremental_state: IncrementalState,
}

impl Storage {
    /// The committed contents.
    pub closed spec fn table(&self) -> QuadTable {
        match self.kind {
            StorageKind::RocksDb(storage) => *storage.table,
            StorageKind::Memory(storage) => *storage.table,
        }
    }

    /// Whether the store is kept on disk.
    pub closed spec fn on_disk(&self) -> bool {
        self.kind is RocksDb
    }

    /// Whether the store can be read alone.
    pub closed spec fn read_only(&self) -> bool {
        self.kind matches StorageKind::RocksDb(storage) && storage.read_only
    }

    /// The live subscribers by their numbers.
    pub closed spec fn subscribers(&self) -> Map<usize, SubscriberView> {
        self.incremental_state@
    }

    /// The notifiers of the queries; `None` for those that were dropped.
    pub closed spec fn registry(&self) -> Seq<Option<IncrementalQueryNotifier>> {
        self.incremental_state.registry()
    }

    pub closed spec fn state(&self) -> IncrementalState {
        self.incremental_state
    }

    /// What is in memory cannot be damaged.
    pub closed spec fn wf(&self) -> bool {
        &&& self.table().wf()
        &&& self.incremental_state.wf()
        &&& self.kind is Memory ==> self.table().damage() is None
    }

    /// An empty store in memory.
    pub fn new() -> (storage: Result<Self, StorageError>)
        ensures
            storage matches Ok(storage) && {
                &&& storage.wf()
                &&& !storage.on_disk()
                &&& !storage.read_only()
                &&& storage.table().quads() == Set::<EncodedQuad>::empty()
                &&& storage.table().graphs() == Set::<EncodedTerm>::empty()
                &&& storage.table().strings() == Map::<StrHash, Seq<u8>>::empty()
                &&& storage.table().damage() is None
                &&& storage.subscribers() == Map::<usize, SubscriberView>::empty()
                &&& storage.registry().len() == 0
            },
    {
        Ok(
            Storage {
                kind: StorageKind::Memory(MemoryStorage { table: Arc::new(QuadTable::new()) }),
                incremental_state: IncrementalState::new(),
            },
        )
    }

    fn of_files(table: QuadTable, read_only: bool) -> (storage: Self)
        requires
            table.wf(),
        ensures
            storage.wf(),
            storage.on_disk(),
            storage.read_only() == read_only,
            storage.table() == table,
            storage.subscribers() == Map::<usize, SubscriberView>::empty(),
            storage.registry().len() == 0,
    {
        Storage {
            kind: StorageKind::RocksDb(RocksDbStorage { table: Arc::new(table), read_only }),
            incremental_state: IncrementalState::new(),
        }
    }

    /// Opens a store on disk, whose contents `read` reads.
    pub fn open<F: FnOnce() -> Result<QuadTable, StorageError>>(read: F) -> (storage: Result<
        Self,
        StorageError,
    >)
        requires
            read.requires(()),
            forall|table: QuadTable| #[trigger] read.ensures((), Ok(table)) ==> table.wf(),
        ensures
            match storage {
                Ok(storage) => {
                    &&& read.ensures((), Ok(storage.table()))
                    &&& storage.wf()
                    &&& storage.on_disk()
                    &&& !storage.read_only()
                    &&& storage.subscribers() == Map::<usize, SubscriberView>::empty()
                    &&& storage.registry().len() == 0
                },
                Err(error) => read.ensures((), Err(error)),
            },
    {
        match read() {
            Ok(table) => Ok(Storage::of_files(table, false)),
            Err(error) => Err(error),
        }
    }

    /// Opens a store on disk, whose contents `read` reads with the given options.
    pub fn open_with_options<F: FnOnce(RocksDbStorageOptions) -> Result<QuadTable, StorageError>>(
        read: F,
        options: StorageOptions,
    ) -> (storage: Result<Self, StorageError>)
        requires
            read.requires((disk_options(options),)),
            forall|table: QuadTable| #[trigger]
                read.ensures((disk_options(options),), Ok(table)) ==> table.wf(),
        ensures
            match storage {
                Ok(storage) => {
                    &&& read.ensures((disk_options(options),), Ok(storage.table()))
                    &&& storage.wf()
                    &&& storage.on_disk()
                    &&& !storage.read_only()
                    &&& storage.subscribers() == Map::<usize, SubscriberView>::empty()
                    &&& storage.registry().len() == 0
                },
                Err(error) => read.ensures((disk_options(options),), Err(error)),
            },
    {
        let disk_options = RocksDbStorageOptions {
            max_open_files: options.max_open_files,
            fd_reserve: options.fd_reserve,
        };
        match read(disk_options) {
            Ok(table) => Ok(Storage::of_files(table, false)),
            Err(error) => Err(error),
        }
    }

    /// Opens a store on disk, whose contents `read` reads, for reading alone.
    pub fn open_read_only<F: FnOnce() -> Result<QuadTable, StorageError>>(read: F) -> (storage:
        Result<Self, StorageError>)
        requires
            read.requires(()),
            forall|table: QuadTable| #[trigger] read.ensures((), Ok(table)) ==> table.wf(),
        ensures
            match storage {
                Ok(storage) => {
                    &&& read.ensures((), Ok(storage.table()))
                    &&& storage.wf()
                    &&& storage.on_disk()
                    &&& storage.read_only()
                    &&& storage.subscribers() == Map::<usize, SubscriberView>::empty()
                    &&& storage.registry().len() == 0
                },
                Err(error) => read.ensures((), Err(error)),
            },
    {
        match read() {
            Ok(table) => Ok(Storage::of_files(table, true)),
            Err(error) => Err(error),
        }
    }

    /// The committed contents, as a value that later commits do not change.
    pub(crate) fn current(&self) -> (table: Arc<QuadTable>)
        ensures
            *table == self.table(),
    {
        match &self.kind {
            StorageKind::RocksDb(storage) => share(&storage.table),
            StorageKind::Memory(storage) => share(&storage.table),
        }
    }

    pub fn is_on_disk(&self) -> (result: bool)
        ensures
            result == self.on_disk(),
    {
        match &self.kind {
            StorageKind::RocksDb(_) => true,
            StorageKind::Memory(_) => false,
        }
    }

    pub fn is_read_only(&self) -> (result: bool)
        ensures
            result == self.read_only(),
    {
        match &self.kind {
            StorageKind::RocksDb(storage) => storage.read_only,
            StorageKind::Memory(_) => false,
        }
    }

    /// Puts new contents in the place of the committed ones.
    pub(crate) fn replace(&mut self, table: QuadTable)
        requires
            old(self).wf(),
            table.wf(),
            !old(self).on_disk() ==> table.damage() is None,
        ensures
            final(self).wf(),
            final(self).table() == table,
            final(self).on_disk() == old(self).on_disk(),
            final(self).read_only() == old(self).read_only(),
            final(self).state() == old(self).state(),
            final(self).subscribers() == old(self).subscribers(),
            final(self).registry() == old(self).registry(),
    {
        match &mut self.kind {
            StorageKind::RocksDb(storage) => {
                storage.table = Arc::new(table);
            },
            StorageKind::Memory(storage) => {
                storage.table = Arc::new(table);
            },
        }
    }

    /// Access to the subscriptions.
    pub(crate) fn state_mut(&mut self) -> (state: &mut IncrementalState)
        ensures
            *state == old(self).state(),
            final(self).state() == *final(state),
            final(self).subscribers() == final(state)@,
            final(self).registry() == final(state).registry(),
            final(self).table() == old(self).table(),
            final(self).on_disk() == old(self).on_disk(),
            final(self).read_only() == old(self).read_only(),
            old(self).wf() && final(state).wf() ==> final(self).wf(),
    {
        &mut self.incremental_state
    }

    pub(crate) fn state_ref(&self) -> (state: &IncrementalState)
        ensures
            *state == self.state(),
    {
        &self.incremental_state
    }

    /// The parts of a valid store are valid.
    pub(crate) proof fn lemma_parts(&self)
        ensures
            self.wf() ==> self.state().wf() && self.table().wf(),
            self.wf() && !self.on_disk() ==> self.table().damage() is None,
            self.subscribers() == self.state()@,
            self.registry() == self.state().registry(),
    {
    }

    /// A consistent view of what is committed.
    pub fn snapshot(&self) -> (reader: StorageReader)
        requires
            self.wf(),
        ensures
            reader.wf(),
            reader.table() == self.table(),
            reader.on_disk() == self.on_disk(),
            reader.refreshes(),
    {
        match &self.kind {
            StorageKind::RocksDb(storage) => StorageReader {
                kind: StorageReaderKind::RocksDb(share(&storage.table)),
                can_refresh: true,
            },
            StorageKind::Memory(storage) => StorageReader {
                kind: StorageReaderKind::Memory(share(&storage.table)),
                can_refresh: true,
            },
        }
    }

    /// Has `write` write what is committed to disk. There is nothing to do in memory.
    pub fn flush<F: FnOnce() -> Result<(), StorageError>>(&self, write: F) -> (result: Result<
        (),
        StorageError,
    >)
        requires
            self.on_disk() ==> write.requires(()),
        ensures
            if self.on_disk() {
                write.ensures((), result)
            } else {
                result == Ok::<(), StorageError>(())
            },
    {
        match &self.kind {
            StorageKind::RocksDb(_) => write(),
            StorageKind::Memory(_) => Ok(()),
        }
    }

    /// Has `tidy` compact the files. There is nothing to do in memory.
    pub fn compact<F: FnOnce() -> Result<(), StorageError>>(&self, tidy: F) -> (result: Result<
        (),
        StorageError,
    >)
        requires
            self.on_disk() ==> tidy.requires(()),
        ensures
            if self.on_disk() {
                tidy.ensures((), result)
            } else {
                result == Ok::<(), StorageError>(())
            },
    {
        match &self.kind {
            StorageKind::RocksDb(_) => tidy(),
            StorageKind::Memory(_) => Ok(()),
        }
    }

    /// Has `copy` copy the files. There are none of a store in memory.
    pub fn backup<F: FnOnce() -> Result<(), StorageError>>(&self, copy: F) -> (result: Result<
        (),
        StorageError,
    >)
        requires
            self.on_disk() ==> copy.requires(()),
        ensures
            if self.on_disk() {
                copy.ensures((), result)
            } else {
                result == Err::<(), StorageError>(StorageError::InMemoryBackup)
            },
    {
        match &self.kind {
            StorageKind::RocksDb(_) => copy(),
            StorageKind::Memory(_) => Err(StorageError::InMemoryBackup),
        }
    }
}

pub open spec fn disk_options(options: StorageOptions) -> RocksDbStorageOptions {
    RocksDbStorageOptions {
        max_open_files: options.max_open_files,
        fd_reserve: options.fd_reserve,
    }
}

pub enum StorageReaderKind {
    RocksDb(Arc<QuadTable>),
    Memory(Arc<QuadTable>),
}

/// A consistent view of the contents of a store.
pub struct StorageReader {
    kind: StorageReaderKind,
    can_refresh: bool,
}

impl StorageReader {
    /// The contents that are read.
    pub closed spec fn table(&self) -> QuadTable {
        match self.kind {
            StorageReaderKind::RocksDb(table) => *table,
            StorageReaderKind::Memory(table) => *table,
        }
    }

    pub closed spec fn on_disk(&self) -> bool {
        self.kind is RocksDb
    }

    /// Whether this is a view of what is committed, which can be brought up to date.
    pub closed spec fn refreshes(&self) -> bool {
        self.can_refresh
    }

    pub closed spec fn wf(&self) -> bool {
        &&& self.table().wf()
        &&& self.kind is Memory ==> self.table().damage() is None
    }

    /// A view of the contents of a transaction.
    pub(crate) fn of_transaction(table: QuadTable, on_disk: bool) -> (reader: Self)
        requires
            table.wf(),
            !on_disk ==> table.damage() is None,
        ensures
            reader.wf(),
            reader.table() == table,
            reader.on_disk() == on_disk,
            !reader.refreshes(),
    {
        StorageReader {
            kind: if on_disk {
                StorageReaderKind::RocksDb(Arc::new(table))
            } else {
                StorageReaderKind::Memory(Arc::new(table))
            },
            can_refresh: false,
        }
    }

    fn rows(&self) -> (table: &QuadTable)
        ensures
            *table == self.table(),
    {
        match &self.kind {
            StorageReaderKind::RocksDb(table) => &**table,
            StorageReaderKind::Memory(table) => &**table,
        }
    }

    pub fn can_refresh(&self) -> (result: bool)
        ensures
            result == self.refreshes(),
    {
        self.can_refresh
    }

    /// Another view of the same contents.
    pub fn duplicate(&self) -> (reader: Self)
        ensures
            reader == *self,
    {
        StorageReader {
            kind: match &self.kind {
                StorageReaderKind::RocksDb(table) => StorageReaderKind::RocksDb(share(table)),
                StorageReaderKind::Memory(table) => StorageReaderKind::Memory(share(table)),
            },
            can_refresh: self.can_refresh,
        }
    }

    /// The number of quads.
    pub fn len(&self) -> (len: Result<usize, StorageError>)
        requires
            self.wf(),
        ensures
            len matches Ok(len) && self.table().quads().finite() && len == self.table().quads().len(),
    {
        Ok(self.rows().len())
    }

    pub fn is_empty(&self) -> (result: Result<bool, StorageError>)
        requires
            self.wf(),
        ensures
            result == Ok::<bool, StorageError>(
                self.table().quads() == Set::<EncodedQuad>::empty(),
            ),
    {
        Ok(self.rows().is_empty())
    }

    pub fn contains(&self, quad: &EncodedQuad) -> (result: Result<bool, StorageError>)
        requires
            self.wf(),
        ensures
            result == Ok::<bool, StorageError>(self.table().quads().contains(*quad)),
    {
        Ok(self.rows().contains(quad))
    }

    /// The quads that have the given terms, each once, and then the error of the rows that
    /// cannot be read, if there are any.
    pub fn quads_for_pattern(
        &self,
        subject: Option<&EncodedTerm>,
        predicate: Option<&EncodedTerm>,
        object: Option<&EncodedTerm>,
        graph_name: Option<&EncodedTerm>,
    ) -> (quads: DecodingQuadIterator)
        requires
            self.wf(),
        ensures
            quads.reads(self.table(), pattern_of(subject, predicate, object, graph_name)),
    {
        let pattern = QuadPattern {
            subject: copied(subject),
            predicate: copied(predicate),
            object: copied(object),
            graph_name: copied(graph_name),
        };
        self.read(&pattern)
    }

    /// The quads that a pattern selects, as [`Self::quads_for_pattern`] gives them.
    pub fn read(&self, pattern: &QuadPattern) -> (quads: DecodingQuadIterator)
        requires
            self.wf(),
        ensures
            quads.reads(self.table(), *pattern),
    {
        let table = self.rows();
        let quads = table.matching(pattern);
        let found = DecodingQuadIterator { quads, next: 0, failure: table.read_damage() };
        assert(found.rest() =~= quads@);
        found
    }

    /// The triples of the quads that have the given terms and are in one of the given
    /// graphs, or in any graph, each once. For each graph that is read the error of the
    /// rows that cannot be read comes too, if there are any.
    pub fn triples_for_pattern(
        &self,
        subject: Option<&EncodedTerm>,
        predicate: Option<&EncodedTerm>,
        object: Option<&EncodedTerm>,
        graph_names: Option<&Vec<Option<EncodedTerm>>>,
    ) -> (triples: Vec<Result<EncodedTriple, StorageError>>)
        requires
            self.wf(),
        ensures
            forall|i: int, j: int|
                0 <= i < j < triples@.len() && (#[trigger] triples@[i]) is Ok ==> triples@[i]
                    != #[trigger] triples@[j],
            forall|triple: EncodedTriple| #[trigger]
                triples@.contains(Ok::<EncodedTriple, StorageError>(triple)) <==> exists|
                    quad: EncodedQuad,
                |
                    #[trigger] self.table().quads().contains(quad) && triple_of(quad) == triple
                        && selects(pattern_of(subject, predicate, object, None), quad)
                        && graph_asked(graph_names, quad.graph_name),
            forall|error: StorageError| #[trigger]
                count(triples@, Err::<EncodedTriple, StorageError>(error)) == if self.table().damage()
                    == Some(error) {
                    match graph_names {
                        Some(graph_names) => graph_names@.len() as int,
                        None => 1,
                    }
                } else {
                    0
                },
    {
        let mut rows: Vec<Result<EncodedTriple, StorageError>> = Vec::new();
        let ghost asked = pattern_of(subject, predicate, object, None);
        match graph_names {
            Some(graph_names) => {
                let mut next: usize = 0;
                while next < graph_names.len()
                    invariant
                        self.wf(),
                        asked == pattern_of(subject, predicate, object, None),
                        next <= graph_names@.len(),
                        forall|triple: EncodedTriple| #[trigger]
                            rows@.contains(Ok::<EncodedTriple, StorageError>(triple)) <==> exists|
                                quad: EncodedQuad,
                            |
                                #[trigger] self.table().quads().contains(quad) && triple_of(quad)
                                    == triple && selects(asked, quad) && among(
                                    graph_names@.take(next as int),
                                    quad.graph_name,
                                ),
                        forall|error: StorageError| #[trigger]
                            count(rows@, Err::<EncodedTriple, StorageError>(error))
                                == if self.table().damage() == Some(error) {
                                next as int
                            } else {
                                0
                            },
                    decreases graph_names@.len() - next,
                {
                    let graph_name = match graph_names[next] {
                        Some(graph_name) => graph_name,
                        None => EncodedTerm::DefaultGraph,
                    };
                    let quads = self.quads_for_pattern(
                        subject,
                        predicate,
                        object,
                        Some(&graph_name),
                    );
                    let ghost before = rows@;
                    let ghost seen = graph_names@.take(next as int);
                    let ghost full = pattern_of(subject, predicate, object, Some(&graph_name));
                    append_triples(&mut rows, quads, Ghost(self.table()), Ghost(full));
                    next = next + 1;
                    proof {
                        let more = graph_names@.take(next as int);
                        assert(more =~= seen.push(graph_names@[next - 1]));
                        assert forall|name: EncodedTerm| #[trigger] among(more, name) <==> among(
                            seen,
                            name,
                        ) || name == graph_name by {
                            lemma_among_push(seen, graph_names@[next - 1], name);
                        }
                        assert forall|triple: EncodedTriple| #[trigger]
                            rows@.contains(Ok::<EncodedTriple, StorageError>(triple)) <==> exists|
                                quad: EncodedQuad,
                            |
                                #[trigger] self.table().quads().contains(quad) && triple_of(quad)
                                    == triple && selects(asked, quad) && among(
                                    more,
                                    quad.graph_name,
                                ) by {
                            let item = Ok::<EncodedTriple, StorageError>(triple);
                            assert(before.contains(item) <==> exists|quad: EncodedQuad| #[trigger]
                                self.table().quads().contains(quad) && triple_of(quad) == triple
                                    && selects(asked, quad) && among(seen, quad.graph_name));
                            assert forall|quad: EncodedQuad| #[trigger]
                                self.table().quads().contains(quad) implies (selects(full, quad)
                                <==> selects(asked, quad) && quad.graph_name == graph_name) by {}
                        }
                    }
                }
                assert(graph_names@.take(next as int) =~= graph_names@);
            },
            None => {
                let quads = self.quads_for_pattern(subject, predicate, object, None);
                append_triples(&mut rows, quads, Ghost(self.table()), Ghost(asked));
            },
        }
        hash_deduplicate(rows)
    }

    /// The names of the named graphs, each once, and then the error of the rows that
    /// cannot be read, if there are any.
    pub fn named_graphs(&self) -> (graphs: DecodingGraphIterator)
        requires
            self.wf(),
        ensures
            lists(graphs.rest(), self.table().graphs()),
            graphs.failure() == self.table().damage(),
    {
        let table = self.rows();
        let names = table.graph_names();
        let graphs = DecodingGraphIterator { names, next: 0, failure: table.read_damage() };
        assert(graphs.rest() =~= names@);
        graphs
    }

    pub fn contains_named_graph(&self, graph_name: &EncodedTerm) -> (result: Result<
        bool,
        StorageError,
    >)
        requires
            self.wf(),
        ensures
            result == Ok::<bool, StorageError>(self.table().graphs().contains(*graph_name)),
    {
        Ok(self.rows().contains_graph(graph_name))
    }

    pub fn contains_str(&self, key: &StrHash) -> (result: Result<bool, StorageError>)
        requires
            self.wf(),
        ensures
            result == Ok::<bool, StorageError>(self.table().strings().contains_key(*key)),
    {
        Ok(self.rows().contains_string(key))
    }

    /// Validate that all the storage invariants held in the data: every row can be read,
    /// the graph of every quad is listed, and every string that a term refers to is known.
    pub fn validate(&self) -> (result: Result<(), StorageError>)
        requires
            self.wf(),
        ensures
            match result {
                Ok(()) => self.table().damage() is None && forall|quad: EncodedQuad| #[trigger]
                    self.table().quads().contains(quad) ==> is_valid(self.table(), quad),
                Err(error) => self.table().damage() == Some(error) || (self.table().damage() is None
                    && exists|quad: EncodedQuad| #[trigger]
                    self.table().quads().contains(quad) && flaw(self.table(), quad) == Some(error)),
            },
    {
        let table = self.rows();
        if let Some(error) = table.read_damage() {
            return Err(error);
        }
        let quads = table.matching(&QuadPattern::any());
        let ghost all = self.table().quads().filter(
            |quad: EncodedQuad| selects(crate::table::any_quad(), quad),
        );
        let mut next: usize = 0;
        while next < quads.len()
            invariant
                self.wf(),
                *table == self.table(),
                table.damage() is None,
                all == self.table().quads().filter(
                    |quad: EncodedQuad| selects(crate::table::any_quad(), quad),
                ),
                lists(quads@, all),
                next <= quads@.len(),
                forall|i: int| 0 <= i < next ==> is_valid(*table, #[trigger] quads@[i]),
            decreases quads@.len() - next,
        {
            assert(all.contains(quads@[next as int].model()));
            if let Some(error) = find_flaw(table, &quads[next]) {
                return Err(error);
            }
            next = next + 1;
        }
        proof {
            assert forall|quad: EncodedQuad| #[trigger] table.quads().contains(quad) implies is_valid(
                *table,
                quad,
            ) by {
                assert(all.contains(quad));
                assert(occurs(quads@, quad));
                let i = choose|i: int| 0 <= i < quads@.len() && (#[trigger] quads@[i]).model() == quad;
                assert(is_valid(*table, quads@[i]));
            }
        }
        Ok(())
    }

    /// Subscribes to the changes of the quads that have the given terms. Of the graph name
    /// the outer `None` stands for any graph and the inner `None` for the default graph.
    ///
    /// The subscription and the fresh view of what is committed are of the same moment. A
    /// commit is therefore represented either in the view or in the queue of the
    /// subscriber, never lost in between.
    pub fn subscribe_incremental_quads(
        &self,
        storage: &mut Storage,
        subject: Option<&EncodedTerm>,
        predicate: Option<&EncodedTerm>,
        object: Option<&EncodedTerm>,
        graph_name: Option<Option<EncodedTerm>>,
        notifier: usize,
    ) -> (subscription: (usize, Option<StorageReader>))
        requires
            old(storage).wf(),
        ensures
            final(storage).wf(),
            final(storage).table() == old(storage).table(),
            final(storage).on_disk() == old(storage).on_disk(),
            final(storage).read_only() == old(storage).read_only(),
            final(storage).registry() == old(storage).registry(),
            !old(storage).subscribers().contains_key(subscription.0),
            final(storage).subscribers() == old(storage).subscribers().insert(
                subscription.0,
                SubscriberView {
                    pattern: IncrementalQuadPattern {
                        subject: spec_copied(subject),
                        predicate: spec_copied(predicate),
                        object: spec_copied(object),
                        graph_name,
                    },
                    changes: Seq::empty(),
                    notifier,
                },
            ),
            match subscription.1 {
                Some(reader) => self.refreshes() && reader.wf() && reader.refreshes()
                    && reader.table() == final(storage).table() && reader.on_disk() == final(storage).on_disk(),
                None => !self.refreshes(),
            },
    {
        let pattern = IncrementalQuadPattern {
            subject: copied(subject),
            predicate: copied(predicate),
            object: copied(object),
            graph_name,
        };
        proof {
            storage.lemma_parts();
        }
        let slot = storage.state_mut().subscribe(pattern, notifier);
        proof {
            storage.lemma_parts();
        }
        let snapshot = if self.can_refresh {
            Some(storage.snapshot())
        } else {
            None
        };
        (slot, snapshot)
    }

    /// Takes the changes that wait for a subscription.
    pub fn incremental_quad_subscription_changes(
        &self,
        storage: &mut Storage,
        id: usize,
    ) -> (changes: VecDeque<Delta<EncodedQuad>>)
        requires
            old(storage).wf(),
        ensures
            final(storage).wf(),
            final(storage).table() == old(storage).table(),
            final(storage).on_disk() == old(storage).on_disk(),
            final(storage).read_only() == old(storage).read_only(),
            final(storage).registry() == old(storage).registry(),
            changes@ == waiting_changes(old(storage).subscribers(), id),
            final(storage).subscribers() == emptied(old(storage).subscribers(), id),
    {
        proof {
            storage.lemma_parts();
        }
        storage.state_mut().take_changes(id)
    }

    /// Ends a subscription.
    pub fn unsubscribe_incremental_quads(&self, storage: &mut Storage, id: usize)
        requires
            old(storage).wf(),
        ensures
            final(storage).wf(),
            final(storage).table() == old(storage).table(),
            final(storage).on_disk() == old(storage).on_disk(),
            final(storage).read_only() == old(storage).read_only(),
            final(storage).registry() == old(storage).registry(),
            final(storage).subscribers() == old(storage).subscribers().remove(id),
    {
        proof {
            storage.lemma_parts();
        }
        storage.state_mut().unsubscribe(id)
    }

    /// The string with a hash. A view of what is committed also finds strings that were
    /// committed after it was made. In memory all views share one dictionary, and find them
    /// too.
    pub fn get_str(&self, storage: &Storage, key: &StrHash) -> (text: Result<
        Option<Text>,
        StorageError,
    >)
        requires
            self.wf(),
            storage.wf(),
        ensures
            text matches Ok(text) && match text {
                Some(text) => looked_up(*self, *storage, *key) == Some(text@),
                None => looked_up(*self, *storage, *key) is None,
            },
    {
        match self.rows().string(key) {
            Some(text) => Ok(Some(text)),
            None => match &self.kind {
                StorageReaderKind::RocksDb(_) => if self.can_refresh {
                    Ok(storage.current().string(key))
                } else {
                    Ok(None)
                },
                StorageReaderKind::Memory(_) => Ok(storage.current().string(key)),
            },
        }
    }
}

/// The first of a list of strings that is not known.
pub open spec fn first_unknown(
    strings: Map<StrHash, Seq<u8>>,
    ids: Seq<StrHash>,
) -> Option<StrHash>
    decreases ids.len(),
{
    if ids.len() == 0 {
        None
    } else {
        match first_unknown(strings, ids.drop_last()) {
            Some(id) => Some(id),
            None => if strings.contains_key(ids.last()) {
                None
            } else {
                Some(ids.last())
            },
        }
    }
}

/// The strings that a quad refers to.
pub open spec fn quad_string_ids(quad: EncodedQuad) -> Seq<StrHash> {
    string_ids(quad.subject) + string_ids(quad.predicate) + string_ids(quad.object) + string_ids(
        quad.graph_name,
    )
}

/// What is wrong with a quad in a store.
pub open spec fn flaw(table: QuadTable, quad: EncodedQuad) -> Option<StorageError> {
    if quad.graph_name != EncodedTerm::DefaultGraph && !table.graphs().contains(quad.graph_name) {
        Some(StorageError::Corruption(CorruptionError::UnlistedGraph))
    } else {
        match first_unknown(table.strings(), quad_string_ids(quad)) {
            Some(id) => Some(StorageError::Corruption(CorruptionError::MissingString(id))),
            None => None,
        }
    }
}

/// Whether nothing is wrong with a quad in a store.
pub open spec fn is_valid(table: QuadTable, quad: EncodedQuad) -> bool {
    flaw(table, quad) is None
}

fn find_flaw(table: &QuadTable, quad: &EncodedQuad) -> (error: Option<StorageError>)
    requires
        table.wf(),
    ensures
        error == flaw(*table, *quad),
{
    if !quad.graph_name.is_default_graph() && !table.contains_graph(&quad.graph_name) {
        return Some(StorageError::Corruption(CorruptionError::UnlistedGraph));
    }
    let mut ids = quad.subject.to_string_ids();
    let mut predicate_ids = quad.predicate.to_string_ids();
    let mut object_ids = quad.object.to_string_ids();
    let mut graph_ids = quad.graph_name.to_string_ids();
    ids.append(&mut predicate_ids);
    ids.append(&mut object_ids);
    ids.append(&mut graph_ids);
    assert(ids@ =~= quad_string_ids(*quad));
    let mut next: usize = 0;
    while next < ids.len()
        invariant
            table.wf(),
            ids@ == quad_string_ids(*quad),
            quad.graph_name == EncodedTerm::DefaultGraph || table.graphs().contains(
                quad.graph_name,
            ),
            next <= ids@.len(),
            first_unknown(table.strings(), ids@.take(next as int)) is None,
        decreases ids@.len() - next,
    {
        assert(ids@.take(next + 1).drop_last() =~= ids@.take(next as int));
        if !table.contains_string(&ids[next]) {
            proof {
                lemma_first_unknown(table.strings(), ids@, next + 1);
            }
            return Some(StorageError::Corruption(CorruptionError::MissingString(ids[next])));
        }
        next = next + 1;
    }
    assert(ids@.take(next as int) =~= ids@);
    None
}

proof fn lemma_first_unknown(strings: Map<StrHash, Seq<u8>>, ids: Seq<StrHash>, end: int)
    requires
        0 <= end <= ids.len(),
        first_unknown(strings, ids.take(end)) is Some,
    ensures
        first_unknown(strings, ids) == first_unknown(strings, ids.take(end)),
    decreases ids.len(),
{
    if end == ids.len() {
        assert(ids.take(end) =~= ids);
    } else {
        assert(ids.drop_last().take(end) =~= ids.take(end));
        lemma_first_unknown(strings, ids.drop_last(), end);
    }
}

/// The string that a view of a store finds for a hash.
pub open spec fn looked_up(reader: StorageReader, storage: Storage, key: StrHash) -> Option<
    Seq<u8>,
> {
    if reader.table().strings().contains_key(key) {
        Some(reader.table().strings()[key])
    } else if (!reader.on_disk() || reader.refreshes()) && storage.table().strings().contains_key(
        key,
    ) {
        Some(storage.table().strings()[key])
    } else {
        None
    }
}

/// The changes that wait for a subscriber; none if there is no such subscriber.
pub open spec fn waiting_changes(subscribers: Map<usize, SubscriberView>, id: usize) -> Seq<
    Delta<EncodedQuad>,
> {
    if subscribers.contains_key(id) {
        subscribers[id].changes
    } else {
        Seq::empty()
    }
}

/// The subscribers after one has taken its changes.
pub open spec fn emptied(subscribers: Map<usize, SubscriberView>, id: usize) -> Map<
    usize,
    SubscriberView,
> {
    if subscribers.contains_key(id) {
        subscribers.insert(id, SubscriberView { changes: Seq::empty(), ..subscribers[id] })
    } else {
        subscribers
    }
}

/// The term that a reference is to.
pub open spec fn spec_copied(term: Option<&EncodedTerm>) -> Option<EncodedTerm> {
    match term {
        Some(term) => Some(*term),
        None => None,
    }
}

pub(crate) fn copied(term: Option<&EncodedTerm>) -> (copy: Option<EncodedTerm>)
    ensures
        copy == spec_copied(term),
{
    match term {
        Some(term) => Some(*term),
        None => None,
    }
}

pub open spec fn pattern_of(
    subject: Option<&EncodedTerm>,
    predicate: Option<&EncodedTerm>,
    object: Option<&EncodedTerm>,
    graph_name: Option<&EncodedTerm>,
) -> QuadPattern {
    QuadPattern {
        subject: spec_copied(subject),
        predicate: spec_copied(predicate),
        object: spec_copied(object),
        graph_name: spec_copied(graph_name),
    }
}

/// Whether a graph is one of those listed, where `None` lists the default graph.
pub open spec fn among(graph_names: Seq<Option<EncodedTerm>>, name: EncodedTerm) -> bool {
    graph_names.contains(Some(name)) || (name == EncodedTerm::DefaultGraph
        && graph_names.contains(None))
}

/// Whether a graph is asked for.
pub open spec fn graph_asked(
    graph_names: Option<&Vec<Option<EncodedTerm>>>,
    name: EncodedTerm,
) -> bool {
    graph_names matches Some(graph_names) ==> among(graph_names@, name)
}

proof fn lemma_among_push(
    graph_names: Seq<Option<EncodedTerm>>,
    next: Option<EncodedTerm>,
    name: EncodedTerm,
)
    ensures
        among(graph_names.push(next), name) <==> among(graph_names, name) || name == match next {
            Some(next) => next,
            None => EncodedTerm::DefaultGraph,
        },
{
    let more = graph_names.push(next);
    assert(more[graph_names.len() as int] == next);
    assert forall|x: Option<EncodedTerm>| #[trigger]
        more.contains(x) <==> graph_names.contains(x) || x == next by {
        if graph_names.contains(x) {
            let i = choose|i: int| 0 <= i < graph_names.len() && graph_names[i] == x;
            assert(more[i] == x);
        }
        if more.contains(x) {
            let i = choose|i: int| 0 <= i < more.len() && more[i] == x;
            if i < graph_names.len() {
                assert(graph_names[i] == x);
            }
        }
    }
}

/// Appends the triples of quads, and the error that follows them.
fn append_triples(
    rows: &mut Vec<Result<EncodedTriple, StorageError>>,
    mut quads: DecodingQuadIterator,
    Ghost(table): Ghost<QuadTable>,
    Ghost(pattern): Ghost<QuadPattern>,
)
    requires
        quads.reads(table, pattern),
    ensures
        forall|triple: EncodedTriple| #[trigger]
            final(rows)@.contains(Ok::<EncodedTriple, StorageError>(triple)) <==> {
                ||| old(rows)@.contains(Ok::<EncodedTriple, StorageError>(triple))
                ||| exists|quad: EncodedQuad| #[trigger]
                    table.quads().contains(quad) && triple_of(quad) == triple && selects(
                        pattern,
                        quad,
                    )
            },
        forall|error: StorageError| #[trigger]
            count(final(rows)@, Err::<EncodedTriple, StorageError>(error)) == count(
                old(rows)@,
                Err::<EncodedTriple, StorageError>(error),
            ) + if table.damage() == Some(error) {
                1int
            } else {
                0int
            },
{
    let ghost start = rows@;
    let ghost all = quads.rest();
    let ghost wanted = table.quads().filter(|quad: EncodedQuad| selects(pattern, quad));
    let ghost mut done: int = 0;
    loop
        invariant_except_break
            quads.rest() == all.skip(done),
            quads.failure() == table.damage(),
            forall|triple: EncodedTriple| #[trigger]
                rows@.contains(Ok::<EncodedTriple, StorageError>(triple)) <==> start.contains(
                    Ok::<EncodedTriple, StorageError>(triple),
                ) || exists|i: int| 0 <= i < done && triple_of(#[trigger] all[i]) == triple,
            forall|error: StorageError| #[trigger]
                count(rows@, Err::<EncodedTriple, StorageError>(error)) == count(
                    start,
                    Err::<EncodedTriple, StorageError>(error),
                ),
        invariant
            0 <= done <= all.len(),
            lists(all, wanted),
        ensures
            done == all.len(),
            forall|triple: EncodedTriple| #[trigger]
                rows@.contains(Ok::<EncodedTriple, StorageError>(triple)) <==> start.contains(
                    Ok::<EncodedTriple, StorageError>(triple),
                ) || exists|i: int| 0 <= i < done && triple_of(#[trigger] all[i]) == triple,
            forall|error: StorageError| #[trigger]
                count(rows@, Err::<EncodedTriple, StorageError>(error)) == count(
                    start,
                    Err::<EncodedTriple, StorageError>(error),
                ) + if table.damage() == Some(error) {
                    1int
                } else {
                    0int
                },
        decreases quads.rest().len(),
    {
        let ghost before = rows@;
        match quads.next() {
            Some(Ok(quad)) => {
                assert(quad == all[done]);
                assert(all.skip(done).drop_first() =~= all.skip(done + 1));
                rows.push(Ok(quad.triple()));
                proof {
                    lemma_row_pushed(before, Ok(triple_of(quad)));
                    assert forall|triple: EncodedTriple| #[trigger]
                        rows@.contains(Ok::<EncodedTriple, StorageError>(triple)) <==> start.contains(
                            Ok::<EncodedTriple, StorageError>(triple),
                        ) || exists|i: int|
                            0 <= i < done + 1 && triple_of(#[trigger] all[i]) == triple by {
                        assert(before.contains(Ok::<EncodedTriple, StorageError>(triple))
                            <==> start.contains(Ok::<EncodedTriple, StorageError>(triple))
                            || exists|i: int|
                            0 <= i < done && triple_of(#[trigger] all[i]) == triple);
                        assert(triple_of(all[done]) == triple_of(quad));
                    }
                    done = done + 1;
                }
            },
            Some(Err(error)) => {
                rows.push(Err(error));
                proof {
                    assert(all.skip(done).len() == 0);
                    lemma_row_pushed(before, Err(error));
                }
                break;
            },
            None => {
                assert(all.skip(done).len() == 0);
                break;
            },
        }
    }
    proof {
        assert forall|triple: EncodedTriple| #[trigger]
            rows@.contains(Ok::<EncodedTriple, StorageError>(triple)) <==> start.contains(
                Ok::<EncodedTriple, StorageError>(triple),
            ) || exists|quad: EncodedQuad| #[trigger]
                table.quads().contains(quad) && triple_of(quad) == triple && selects(
                    pattern,
                    quad,
                ) by {
            if exists|i: int| 0 <= i < done && triple_of(#[trigger] all[i]) == triple {
                let i = choose|i: int| 0 <= i < done && triple_of(#[trigger] all[i]) == triple;
                assert(wanted.contains(all[i].model()));
                assert(table.quads().contains(all[i]));
            }
            if exists|quad: EncodedQuad| #[trigger]
                table.quads().contains(quad) && triple_of(quad) == triple && selects(
                    pattern,
                    quad,
                ) {
                let quad = choose|quad: EncodedQuad| #[trigger]
                    table.quads().contains(quad) && triple_of(quad) == triple && selects(
                        pattern,
                        quad,
                    );
                assert(wanted.contains(quad));
                assert(occurs(all, quad));
                let i = choose|i: int| 0 <= i < all.len() && (#[trigger] all[i]).model() == quad;
                assert(triple_of(all[i]) == triple);
            }
        }
    }
}

proof fn lemma_row_pushed(
    rows: Seq<Result<EncodedTriple, StorageError>>,
    row: Result<EncodedTriple, StorageError>,
)
    ensures
        forall|other: Result<EncodedTriple, StorageError>| #[trigger]
            rows.push(row).contains(other) <==> rows.contains(other) || other == row,
        forall|other: Result<EncodedTriple, StorageError>| #[trigger]
            count(rows.push(row), other) == count(rows, other) + if other == row {
                1int
            } else {
                0int
            },
{
    let more = rows.push(row);
    assert forall|other: Result<EncodedTriple, StorageError>| #[trigger]
        more.contains(other) <==> rows.contains(other) || other == row by {
        if rows.contains(other) {
            let i = choose|i: int| 0 <= i < rows.len() && rows[i] == other;
            assert(more[i] == other);
        }
        if more.contains(other) {
            let i = choose|i: int| 0 <= i < more.len() && more[i] == other;
            if i < rows.len() {
                assert(rows[i] == other);
            }
        }
        assert(more[rows.len() as int] == row);
    }
    assert forall|other: Result<EncodedTriple, StorageError>| #[trigger]
        count(more, other) == count(rows, other) + if other == row {
            1int
        } else {
            0int
        } by {
        lemma_weight_push(rows, row, is(other));
    }
}

/// Keeps the first of equal triples, and every error.
fn hash_deduplicate(rows: Vec<Result<EncodedTriple, StorageError>>) -> (kept: Vec<
    Result<EncodedTriple, StorageError>,
>)
    ensures
        forall|i: int, j: int|
            0 <= i < j < kept@.len() && (#[trigger] kept@[i]) is Ok ==> kept@[i]
                != #[trigger] kept@[j],
        forall|triple: EncodedTriple| #[trigger]
            kept@.contains(Ok::<EncodedTriple, StorageError>(triple)) <==> rows@.contains(
                Ok::<EncodedTriple, StorageError>(triple),
            ),
        forall|error: StorageError| #[trigger]
            count(kept@, Err::<EncodedTriple, StorageError>(error)) == count(
                rows@,
                Err::<EncodedTriple, StorageError>(error),
            ),
{
    let mut already_seen: FxSet<EncodedTriple> = FxSet::new();
    let mut kept: Vec<Result<EncodedTriple, StorageError>> = Vec::new();
    let mut next: usize = 0;
    while next < rows.len()
        invariant
            already_seen.wf(),
            next <= rows@.len(),
            forall|triple: EncodedTriple| #[trigger]
                already_seen@.contains(triple) <==> kept@.contains(
                    Ok::<EncodedTriple, StorageError>(triple),
                ),
            forall|i: int, j: int|
                0 <= i < j < kept@.len() && (#[trigger] kept@[i]) is Ok ==> kept@[i]
                    != #[trigger] kept@[j],
            forall|triple: EncodedTriple| #[trigger]
                kept@.contains(Ok::<EncodedTriple, StorageError>(triple)) <==> rows@.take(
                    next as int,
                ).contains(Ok::<EncodedTriple, StorageError>(triple)),
            forall|error: StorageError| #[trigger]
                count(kept@, Err::<EncodedTriple, StorageError>(error)) == count(
                    rows@.take(next as int),
                    Err::<EncodedTriple, StorageError>(error),
                ),
        decreases rows@.len() - next,
    {
        let ghost before = kept@;
        let ghost seen = rows@.take(next as int);
        let ghost row = rows@[next as int];
        assert(rows@.take(next + 1) =~= seen.push(row));
        proof {
            lemma_row_pushed(seen, row);
            lemma_row_pushed(before, row);
        }
        match rows[next] {
            Ok(triple) => {
                if already_seen.insert(triple) {
                    assert(!before.contains(row));
                    kept.push(Ok(triple));
                }
            },
            Err(error) => {
                kept.push(Err(error));
            },
        }
        next = next + 1;
        proof {
            assert forall|triple: EncodedTriple| #[trigger]
                already_seen@.contains(triple) <==> kept@.contains(
                    Ok::<EncodedTriple, StorageError>(triple),
                ) by {}
            assert forall|triple: EncodedTriple| #[trigger]
                kept@.contains(Ok::<EncodedTriple, StorageError>(triple)) <==> rows@.take(
                    next as int,
                ).contains(Ok::<EncodedTriple, StorageError>(triple)) by {
                assert(before.contains(Ok::<EncodedTriple, StorageError>(triple))
                    <==> seen.contains(Ok::<EncodedTriple, StorageError>(triple)));
            }
            assert forall|i: int, j: int| 0 <= i < j < kept@.len() && (
            #[trigger] kept@[i]) is Ok implies kept@[i] != #[trigger] kept@[j] by {
                if j < before.len() {
                    assert(before[i] != before[j]);
                } else {
                    assert(before.contains(before[i]));
                }
            }
        }
    }
    assert(rows@.take(next as int) =~= rows@);
    kept
}

/// The quads of a read, one after the other.
pub struct DecodingQuadIterator {
    quads: Vec<EncodedQuad>,
    next: usize,
    failure: Option<StorageError>,
}

impl DecodingQuadIterator {
    /// The quads that are still to come.
    pub closed spec fn rest(&self) -> Seq<EncodedQuad> {
        if self.next <= self.quads@.len() {
            self.quads@.skip(self.next as int)
        } else {
            Seq::empty()
        }
    }

    /// The error that comes after the quads.
    pub closed spec fn failure(&self) -> Option<StorageError> {
        self.failure
    }

    /// Whether all that a pattern selects is still to come.
    pub open spec fn reads(&self, table: QuadTable, pattern: QuadPattern) -> bool {
        &&& lists(self.rest(), table.quads().filter(|quad: EncodedQuad| selects(pattern, quad)))
        &&& self.failure() == table.damage()
    }

    pub fn next(&mut self) -> (quad: Option<Result<EncodedQuad, StorageError>>)
        ensures
            match quad {
                Some(Ok(quad)) => old(self).rest().len() > 0 && quad == old(self).rest()[0]
                    && final(self).rest() == old(self).rest().drop_first() && final(self).failure()
                    == old(self).failure(),
                Some(Err(error)) => old(self).rest().len() == 0 && old(self).failure() == Some(
                    error,
                ) && final(self).rest() == old(self).rest() && final(self).failure() is None,
                None => old(self).rest().len() == 0 && old(self).failure() is None && *final(self)
                    == *old(self),
            },
    {
        if self.next < self.quads.len() {
            let quad = self.quads[self.next];
            self.next = self.next + 1;
            assert(self.rest() =~= old(self).rest().drop_first());
            Some(Ok(quad))
        } else {
            match self.failure {
                Some(error) => {
                    self.failure = None;
                    Some(Err(error))
                },
                None => None,
            }
        }
    }
}

/// The names of graphs, one after the other.
pub struct DecodingGraphIterator {
    names: Vec<EncodedTerm>,
    next: usize,
    failure: Option<StorageError>,
}

impl DecodingGraphIterator {
    /// The names that are still to come.
    pub closed spec fn rest(&self) -> Seq<EncodedTerm> {
        if self.next <= self.names@.len() {
            self.names@.skip(self.next as int)
        } else {
            Seq::empty()
        }
    }

    /// The error that comes after the names.
    pub closed spec fn failure(&self) -> Option<StorageError> {
        self.failure
    }

    pub fn next(&mut self) -> (name: Option<Result<EncodedTerm, StorageError>>)
        ensures
            match name {
                Some(Ok(name)) => old(self).rest().len() > 0 && name == old(self).rest()[0]
                    && final(self).rest() == old(self).rest().drop_first() && final(self).failure()
                    == old(self).failure(),
                Some(Err(error)) => old(self).rest().len() == 0 && old(self).failure() == Some(
                    error,
                ) && final(self).rest() == old(self).rest() && final(self).failure() is None,
                None => old(self).rest().len() == 0 && old(self).failure() is None && *final(self)
                    == *old(self),
            },
    {
        if self.next < self.names.len() {
            let name = self.names[self.next];
            self.next = self.next + 1;
            assert(self.rest() =~= old(self).rest().drop_first());
            Some(Ok(name))
        } else {
            match self.failure {
                Some(error) => {
                    self.failure = None;
                    Some(Err(error))
                },
                None => None,
            }
        }
    }
}

/// A string is missing exactly where one of those that are asked for is not known; the one
/// that is told is the first of them.
pub proof fn law_first_unknown_string_is_told(strings: Map<StrHash, Seq<u8>>, ids: Seq<StrHash>)
    ensures
        match first_unknown(strings, ids) {
            None => forall|i: int| 0 <= i < ids.len() ==> strings.contains_key(#[trigger] ids[i]),
            Some(id) => exists|i: int|
                #![trigger ids[i]]
                0 <= i < ids.len() && ids[i] == id && !strings.contains_key(id) && forall|j: int|
                    0 <= j < i ==> strings.contains_key(#[trigger] ids[j]),
        },
    decreases ids.len(),
{
    if ids.len() > 0 {
        let front = ids.drop_last();
        let last = ids.len() - 1;
        law_first_unknown_string_is_told(strings, front);
        match first_unknown(strings, front) {
            None => {
                assert forall|j: int| 0 <= j < last implies strings.contains_key(
                    #[trigger] ids[j],
                ) by {
                    assert(front[j] == ids[j]);
                }
                assert(ids[last] == ids.last());
            },
            Some(id) => {
                let i = choose|i: int|
                    #![trigger front[i]]
                    0 <= i < front.len() && front[i] == id && !strings.contains_key(id) && forall|
                        j: int,
                    |
                        0 <= j < i ==> strings.contains_key(#[trigger] front[j]);
                assert(ids[i] == id);
                assert forall|j: int| 0 <= j < i implies strings.contains_key(
                    #[trigger] ids[j],
                ) by {
                    assert(front[j] == ids[j]);
                }
            },
        }
    }
}

/// A quad refers to the strings that its terms refer to.
pub proof fn law_quads_refer_to_the_strings_of_their_terms(quad: EncodedQuad, id: StrHash)
    ensures
        quad_string_ids(quad).contains(id) <==> string_ids(quad.subject).contains(id) || string_ids(
            quad.predicate,
        ).contains(id) || string_ids(quad.object).contains(id) || string_ids(
            quad.graph_name,
        ).contains(id),
{
    let (a, b, c, d) = (
        string_ids(quad.subject),
        string_ids(quad.predicate),
        string_ids(quad.object),
        string_ids(quad.graph_name),
    );
    lemma_contains_add(a, b, id);
    lemma_contains_add(a + b, c, id);
    lemma_contains_add(a + b + c, d, id);
}

proof fn lemma_contains_add(a: Seq<StrHash>, b: Seq<StrHash>, id: StrHash)
    ensures
        (a + b).contains(id) <==> a.contains(id) || b.contains(id),
{
    if a.contains(id) {
        let i = choose|i: int| 0 <= i < a.len() && a[i] == id;
        assert((a + b)[i] == id);
    }
    if b.contains(id) {
        let i = choose|i: int| 0 <= i < b.len() && b[i] == id;
        assert((a + b)[a.len() + i] == id);
    }
    if (a + b).contains(id) {
        let i = choose|i: int| 0 <= i < (a + b).len() && (a + b)[i] == id;
        if i < a.len() {
            assert(a[i] == id);
        } else {
            assert(b[i - a.len()] == id);
        }
    }
}

/// A quad is in order exactly where its graph is the default graph or a listed one, and all
/// strings that its terms refer to are known. Otherwise the graph or a string is told.
pub proof fn law_flaws_are_unlisted_graphs_and_missing_strings(table: QuadTable, quad: EncodedQuad)
    ensures
        is_valid(table, quad) <==> (quad.graph_name == EncodedTerm::DefaultGraph
            || table.graphs().contains(quad.graph_name)) && forall|id: StrHash|
            (string_ids(quad.subject).contains(id) || string_ids(
                quad.predicate,
            ).contains(id) || string_ids(quad.object).contains(id)
                || string_ids(quad.graph_name).contains(id))
                ==> #[trigger] table.strings().contains_key(id),
        flaw(table, quad) == Some(StorageError::Corruption(CorruptionError::UnlistedGraph)) <==> !(
        quad.graph_name == EncodedTerm::DefaultGraph || table.graphs().contains(quad.graph_name)),
        flaw(table, quad) matches Some(error) ==> error == StorageError::Corruption(
            CorruptionError::UnlistedGraph,
        ) || (error matches StorageError::Corruption(CorruptionError::MissingString(id))
            && !table.strings().contains_key(id)),
{
    let ids = quad_string_ids(quad);
    law_first_unknown_string_is_told(table.strings(), ids);
    assert forall|id: StrHash|
        (string_ids(quad.subject).contains(id) || string_ids(
            quad.predicate,
        ).contains(id) || string_ids(quad.object).contains(id) || string_ids(
            quad.graph_name,
        ).contains(id)) && first_unknown(table.strings(), ids) is None implies #[trigger] table.strings().contains_key(id) by {
        law_quads_refer_to_the_strings_of_their_terms(quad, id);
        let i = choose|i: int| 0 <= i < ids.len() && ids[i] == id;
        assert(table.strings().contains_key(ids[i]));
    }
    if let Some(id) = first_unknown(table.strings(), ids) {
        let i = choose|i: int|
            #![trigger ids[i]]
            0 <= i < ids.len() && ids[i] == id && !table.strings().contains_key(id);
        assert(ids.contains(id));
        law_quads_refer_to_the_strings_of_their_terms(quad, id);
    }
}

/// A string that a view of a store has is found there; another one is found where the store
/// has it by now, unless the view is a snapshot of a store on disk.
pub proof fn law_strings_are_looked_up_in_view_and_store(
    reader: StorageReader,
    storage: Storage,
    key: StrHash,
)
    ensures
        reader.table().strings().contains_key(key) ==> looked_up(reader, storage, key) == Some(
            reader.table().strings()[key],
        ),
        !reader.table().strings().contains_key(key) && storage.table().strings().contains_key(key)
            && !(reader.on_disk() && !reader.refreshes()) ==> looked_up(reader, storage, key)
            == Some(storage.table().strings()[key]),
        looked_up(reader, storage, key) is Some ==> reader.table().strings().contains_key(key)
            || storage.table().strings().contains_key(key),
        !reader.table().strings().contains_key(key) && reader.on_disk() && !reader.refreshes()
            ==> looked_up(reader, storage, key) is None,
{
}

/// A subscriber that takes its changes takes all that wait for it, and no other subscriber
/// loses any.
pub proof fn law_taken_changes_wait_no_more(
    subscribers: Map<usize, SubscriberView>,
    id: usize,
    other: usize,
)
    ensures
        waiting_changes(emptied(subscribers, id), id).len() == 0,
        other != id ==> waiting_changes(emptied(subscribers, id), other) == waiting_changes(
            subscribers,
            other,
        ),
        emptied(subscribers, id).contains_key(other) <==> subscribers.contains_key(other),
        subscribers.contains_key(other) ==> emptied(subscribers, id)[other].pattern
            == subscribers[other].pattern && emptied(subscribers, id)[other].notifier
            == subscribers[other].notifier,
        subscribers.contains_key(other) ==> waiting_changes(subscribers, other)
            == subscribers[other].changes,
{
}

/// A graph is among those listed where its name is listed, or, for the default graph, where a
/// graph without a name is.
pub proof fn law_listed_graphs_are_among_them(
    graph_names: Seq<Option<EncodedTerm>>,
    name: EncodedTerm,
)
    ensures
        among(graph_names, name) <==> exists|i: int|
            #![trigger graph_names[i]]
            0 <= i < graph_names.len() && match graph_names[i] {
                Some(listed) => listed == name,
                None => name == EncodedTerm::DefaultGraph,
            },
{
    if among(graph_names, name) {
        let i = if graph_names.contains(Some(name)) {
            choose|i: int| 0 <= i < graph_names.len() && graph_names[i] == Some(name)
        } else {
            choose|i: int| 0 <= i < graph_names.len() && graph_names[i] == None::<EncodedTerm>
        };
        assert(graph_names[i] == graph_names[i]);
    }
}

/// A pattern asks at each position for the term that is given for it.
pub proof fn law_patterns_ask_for_the_given_terms(
    subject: Option<&EncodedTerm>,
    predicate: Option<&EncodedTerm>,
    object: Option<&EncodedTerm>,
    graph_name: Option<&EncodedTerm>,
    quad: EncodedQuad,
)
    ensures
        selects(pattern_of(subject, predicate, object, graph_name), quad) <==> {
            &&& subject matches Some(term) ==> quad.subject == *term
            &&& predicate matches Some(term) ==> quad.predicate == *term
            &&& object matches Some(term) ==> quad.object == *term
            &&& graph_name matches Some(term) ==> quad.graph_name == *term
        },
{
}

/// A store on disk is opened with the options that are asked for.
pub proof fn law_options_are_kept(options: StorageOptions)
    ensures
        disk_options(options).max_open_files == options.max_open_files,
        disk_options(options).fd_reserve == options.fd_reserve,
{
}

/// A graph is asked for where no graphs are listed, or where it is among those that are.
pub proof fn law_graphs_are_asked_for_where_they_are_listed(
    graph_names: Option<&Vec<Option<EncodedTerm>>>,
    name: EncodedTerm,
)
    ensures
        graph_asked(graph_names, name) <==> (graph_names is None || exists|i: int|
            #![trigger graph_names->0@[i]]
            0 <= i < graph_names->0@.len() && match graph_names->0@[i] {
                Some(listed) => listed == name,
                None => name == EncodedTerm::DefaultGraph,
            }),
{
    if let Some(list) = graph_names {
        law_listed_graphs_are_among_them(list@, name);
    }
}

} // verus!
