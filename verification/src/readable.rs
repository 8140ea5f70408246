//! Transactions that see the store as it was when they began, and their own writes.

use crate::error::StorageError;
use crate::fx::{occurs, FxKey};
use crate::model::{GraphName, NamedOrBlankNode, Quad, Text};
use crate::numeric_encoder::{
    encoded, encoded_graph, encoded_quad, entries, insert_term, quad_entries, quad_strings,
    term_entries, EncodedQuad, EncodedTerm, StrHash,
};
use crate::storage::{quad_string_ids, Storage, StorageReader};
use crate::table::{
    any_quad, covers, graphs_after, graphs_written, lemma_written_push, quads_after, quads_written,
    reports, selects, ClearScope, QuadPattern, QuadTable, WriteOp,
};
use crate::tracking::{
    intended, settled, touched_states, touches, DesiredQuadState, IncrementalTransactionState,
    PendingQuadState, Touched,
};
use crate::transaction::{
    commit_and_publish, law_strings_stay, lemma_strings_add, put_strings, same_kind,
    strings_written, told, write_all, MemoryStorageTransaction, Published,
};
use crate::validity::{
    graph_listed, lemma_quad_supplied, lemma_supplied, strings_known, supplies_all, table_valid,
};
use std::sync::Arc;
use vstd::prelude::*;

verus! {

/// A write to a store on disk that reads: the steps so far, and the contents as they are
/// seen after them.
pub struct RocksDbStorageReadableTransaction {
    base: Arc<QuadTable>,
    working: QuadTable,
    ops: Vec<WriteOp>,
    strings: Vec<(StrHash, Text)>,
}

impl RocksDbStorageReadableTransaction {
    pub closed spec fn wf(&self) -> bool {
        &&& self.base.wf()
        &&& self.working.wf()
        &&& self.working.damage() == self.base.damage()
        &&& self.working.quads() == quads_written(self.base.quads(), self.ops@)
        &&& self.working.graphs() == graphs_written(self.base.graphs(), self.ops@)
        &&& self.working.strings() == strings_written(self.base.strings(), entries(self.strings@))
    }

    fn write(&mut self, op: WriteOp)
        requires
            old(self).wf(),
        ensures
            final(self).wf(),
            final(self).base == old(self).base,
            final(self).ops@ == old(self).ops@.push(op),
            final(self).strings == old(self).strings,
    {
        proof {
            lemma_written_push(self.base.quads(), self.base.graphs(), self.ops@, op);
        }
        self.working.apply(op);
        self.ops.push(op);
    }

    fn put(&mut self, strings: Vec<(StrHash, Text)>)
        requires
            old(self).wf(),
        ensures
            final(self).wf(),
            final(self).base == old(self).base,
            final(self).ops == old(self).ops,
            entries(final(self).strings@) == entries(old(self).strings@) + entries(strings@),
    {
        let ghost before = entries(self.strings@);
        let ghost added = entries(strings@);
        let mut strings = strings;
        proof {
            lemma_strings_add(self.base.strings(), before, added);
        }
        put_strings(&mut self.working, &strings);
        self.strings.append(&mut strings);
        assert(entries(self.strings@) =~= before + added);
    }

    /// Deletes the quads of graphs one by one.
    fn clear_quads(&mut self, scope: ClearScope)
        requires
            old(self).wf(),
        ensures
            final(self).wf(),
            final(self).base == old(self).base,
            final(self).strings == old(self).strings,
            final(self).working.quads() == quads_after(
                old(self).working.quads(),
                WriteOp::ClearQuads(scope),
            ),
            final(self).working.graphs() == old(self).working.graphs(),
            forall|before: Set<EncodedQuad>| #[trigger]
                quads_written(before, final(self).ops@) == quads_written(
                    before,
                    old(self).ops@,
                ).difference(seen_in(old(self).working.quads(), scope)),
            forall|before: Set<EncodedTerm>| #[trigger]
                graphs_written(before, final(self).ops@) == graphs_written(before, old(self).ops@),
    {
        let pattern = match scope {
            ClearScope::Graph(name) => QuadPattern {
                subject: None,
                predicate: None,
                object: None,
                graph_name: Some(name),
            },
            ClearScope::NamedGraphs | ClearScope::AllGraphs => QuadPattern::any(),
        };
        let doomed = self.working.matching(&pattern);
        let ghost visible = self.working.quads();
        let ghost start = *self;
        let ghost found = visible.filter(|quad: EncodedQuad| selects(pattern, quad));
        let mut next: usize = 0;
        assert(doomed@.take(0) =~= Seq::empty());
        proof {
            assert forall|before: Set<EncodedQuad>| #[trigger]
                quads_written(before, self.ops@) == quads_written(
                    before,
                    start.ops@,
                ).difference(listed(doomed@.take(0), scope)) by {
                assert(quads_written(before, start.ops@) =~= quads_written(
                    before,
                    start.ops@,
                ).difference(listed(doomed@.take(0), scope)));
            }
        }
        while next < doomed.len()
            invariant
                self.wf(),
                self.base == start.base,
                self.strings == start.strings,
                next <= doomed@.len(),
                forall|before: Set<EncodedQuad>| #[trigger]
                    quads_written(before, self.ops@) == quads_written(
                        before,
                        start.ops@,
                    ).difference(listed(doomed@.take(next as int), scope)),
                forall|before: Set<EncodedTerm>| #[trigger]
                    graphs_written(before, self.ops@) == graphs_written(before, start.ops@),
            decreases doomed@.len() - next,
        {
            let quad = doomed[next];
            let ghost current = self.ops@;
            let ghost seen = doomed@.take(next as int);
            if scope.covers_quad(&quad) {
                self.write(WriteOp::DeleteQuad(quad));
            }
            next = next + 1;
            proof {
                let more = doomed@.take(next as int);
                lemma_listed_next(doomed@, next - 1, scope);
                assert forall|before: Set<EncodedQuad>| #[trigger]
                    quads_written(before, self.ops@) == quads_written(
                        before,
                        start.ops@,
                    ).difference(listed(more, scope)) by {
                    lemma_written_push(
                        before,
                        Set::empty(),
                        current,
                        WriteOp::DeleteQuad(quad),
                    );
                    let earlier = quads_written(before, current);
                    assert(earlier == quads_written(before, start.ops@).difference(
                        listed(seen, scope),
                    ));
                    assert(quads_written(before, self.ops@) =~= quads_written(
                        before,
                        start.ops@,
                    ).difference(listed(more, scope)));
                }
                assert forall|before: Set<EncodedTerm>| #[trigger]
                    graphs_written(before, self.ops@) == graphs_written(before, start.ops@) by {
                    lemma_written_push(
                        Set::empty(),
                        before,
                        current,
                        WriteOp::DeleteQuad(quad),
                    );
                    assert(graphs_written(before, current) == graphs_written(before, start.ops@));
                }
            }
        }
        proof {
            assert(doomed@.take(next as int) =~= doomed@);
            assert(listed(doomed@, scope) =~= seen_in(visible, scope)) by {
                assert forall|quad: EncodedQuad| listed(doomed@, scope).contains(quad)
                    <==> seen_in(visible, scope).contains(quad) by {
                    assert(found.contains(quad) <==> occurs(doomed@, quad));
                }
            }
            assert(quads_written(self.base.quads(), self.ops@) == quads_written(
                self.base.quads(),
                start.ops@,
            ).difference(listed(doomed@, scope)));
            assert(self.working.quads() =~= quads_after(visible, WriteOp::ClearQuads(scope)));
        }
    }

    /// Deletes the names of the graphs one by one.
    fn forget_graphs(&mut self)
        requires
            old(self).wf(),
        ensures
            final(self).wf(),
            final(self).base == old(self).base,
            final(self).strings == old(self).strings,
            final(self).working.quads() == old(self).working.quads(),
            final(self).working.graphs() == Set::<EncodedTerm>::empty(),
            forall|before: Set<EncodedQuad>| #[trigger]
                quads_written(before, final(self).ops@) == quads_written(before, old(self).ops@),
            forall|before: Set<EncodedTerm>| #[trigger]
                graphs_written(before, final(self).ops@) == graphs_written(
                    before,
                    old(self).ops@,
                ).difference(old(self).working.graphs()),
    {
        let names = self.working.graph_names();
        let ghost visible = self.working.graphs();
        let ghost start = *self;
        let mut next: usize = 0;
        proof {
            assert forall|before: Set<EncodedTerm>| #[trigger]
                graphs_written(before, self.ops@) == graphs_written(
                    before,
                    start.ops@,
                ).difference(listed_names(names@.take(0))) by {
                assert(graphs_written(before, start.ops@) =~= graphs_written(
                    before,
                    start.ops@,
                ).difference(listed_names(names@.take(0))));
            }
        }
        while next < names.len()
            invariant
                self.wf(),
                self.base == start.base,
                self.strings == start.strings,
                next <= names@.len(),
                self.working.quads() == start.working.quads(),
                forall|before: Set<EncodedQuad>| #[trigger]
                    quads_written(before, self.ops@) == quads_written(before, start.ops@),
                forall|before: Set<EncodedTerm>| #[trigger]
                    graphs_written(before, self.ops@) == graphs_written(
                        before,
                        start.ops@,
                    ).difference(listed_names(names@.take(next as int))),
            decreases names@.len() - next,
        {
            let name = names[next];
            let ghost current = self.ops@;
            let ghost seen = names@.take(next as int);
            self.write(WriteOp::DeleteGraph(name));
            next = next + 1;
            proof {
                let more = names@.take(next as int);
                assert(more =~= seen.push(name));
                assert(listed_names(more) =~= listed_names(seen).insert(name)) by {
                    assert forall|other: EncodedTerm| #[trigger]
                        more.contains(other) <==> seen.contains(other) || other == name by {
                        if seen.contains(other) {
                            let i = choose|i: int| 0 <= i < seen.len() && seen[i] == other;
                            assert(more[i] == other);
                        }
                        assert(more[seen.len() as int] == name);
                        if more.contains(other) {
                            let i = choose|i: int| 0 <= i < more.len() && more[i] == other;
                            if i < seen.len() {
                                assert(seen[i] == other);
                            }
                        }
                    }
                }
                assert forall|before: Set<EncodedQuad>| #[trigger]
                    quads_written(before, self.ops@) == quads_written(before, start.ops@) by {
                    lemma_written_push(
                        before,
                        Set::empty(),
                        current,
                        WriteOp::DeleteGraph(name),
                    );
                    assert(quads_written(before, current) == quads_written(before, start.ops@));
                }
                assert forall|before: Set<EncodedTerm>| #[trigger]
                    graphs_written(before, self.ops@) == graphs_written(
                        before,
                        start.ops@,
                    ).difference(listed_names(more)) by {
                    lemma_written_push(
                        Set::empty(),
                        before,
                        current,
                        WriteOp::DeleteGraph(name),
                    );
                    assert(graphs_written(before, current) == graphs_written(
                        before,
                        start.ops@,
                    ).difference(listed_names(seen)));
                    assert(graphs_written(before, self.ops@) =~= graphs_written(
                        before,
                        start.ops@,
                    ).difference(listed_names(more)));
                }
            }
        }
        proof {
            assert(names@.take(next as int) =~= names@);
            assert(listed_names(names@) =~= visible) by {
                assert forall|name: EncodedTerm| names@.contains(name) <==> visible.contains(
                    name,
                ) by {
                    assert(visible.contains(name) <==> occurs(names@, name));
                    if names@.contains(name) {
                        let i = choose|i: int| 0 <= i < names@.len() && names@[i] == name;
                        assert(names@[i].model() == name);
                    }
                }
            }
            assert(graphs_written(self.base.graphs(), self.ops@) == graphs_written(
                self.base.graphs(),
                start.ops@,
            ).difference(visible));
            assert(self.working.graphs() =~= Set::<EncodedTerm>::empty());
        }
    }
}

/// The quads that a clearing finds.
pub open spec fn seen_in(quads: Set<EncodedQuad>, scope: ClearScope) -> Set<EncodedQuad> {
    quads.filter(|quad: EncodedQuad| covers(scope, quad))
}

/// The quads of a list that a clearing removes.
spec fn listed(quads: Seq<EncodedQuad>, scope: ClearScope) -> Set<EncodedQuad> {
    Set::new(|quad: EncodedQuad| occurs(quads, quad) && covers(scope, quad))
}

spec fn listed_names(names: Seq<EncodedTerm>) -> Set<EncodedTerm> {
    Set::new(|name: EncodedTerm| names.contains(name))
}

proof fn lemma_listed_next(quads: Seq<EncodedQuad>, at: int, scope: ClearScope)
    requires
        0 <= at < quads.len(),
    ensures
        listed(quads.take(at + 1), scope) == if covers(scope, quads[at]) {
            listed(quads.take(at), scope).insert(quads[at])
        } else {
            listed(quads.take(at), scope)
        },
{
    let seen = quads.take(at);
    let more = quads.take(at + 1);
    assert forall|quad: EncodedQuad| #[trigger] occurs(more, quad) <==> occurs(seen, quad) || quad
        == quads[at] by {
        if occurs(seen, quad) {
            let i = choose|i: int| 0 <= i < seen.len() && (#[trigger] seen[i]).model() == quad;
            assert(more[i].model() == quad);
        }
        if occurs(more, quad) {
            let i = choose|i: int| 0 <= i < more.len() && (#[trigger] more[i]).model() == quad;
            if i < at {
                assert(seen[i].model() == quad);
            }
        }
        assert(more[at].model() == quads[at]);
    }
    assert(listed(more, scope) =~= if covers(scope, quads[at]) {
        listed(seen, scope).insert(quads[at])
    } else {
        listed(seen, scope)
    });
}

/// Whether states tell which quads are there after steps, whatever was there before them.
pub open spec fn states_agree(
    states: Map<EncodedQuad, PendingQuadState>,
    ops: Seq<WriteOp>,
) -> bool {
    forall|before: Set<EncodedQuad>, quad: EncodedQuad|
        #![trigger quads_written(before, ops).contains(quad)]
        quads_written(before, ops).contains(quad) <==> if states.contains_key(quad) {
            states[quad].desired == DesiredQuadState::Present
        } else {
            before.contains(quad)
        }
}

pub enum StorageReadableTransactionKind {
    RocksDb(RocksDbStorageReadableTransaction),
    Memory(MemoryStorageTransaction),
}

/// A write to a store that can also be read.
pub struct StorageReadableTransaction {
    kind: StorageReadableTransactionKind,
    incremental: IncrementalTransactionState,
}

impl StorageReadableTransaction {
    pub closed spec fn wf(&self) -> bool {
        &&& self.incremental.wf()
        &&& match self.kind {
            StorageReadableTransactionKind::RocksDb(transaction) => {
                &&& transaction.wf()
                &&& self.incremental.tracking()
                &&& self.incremental.range_clears().len() == 0
                &&& self.incremental.initial_quads() == transaction.base.quads()
                &&& self.incremental.initial_damage() == transaction.base.damage()
            },
            StorageReadableTransactionKind::Memory(transaction) => transaction.wf()
                && !self.incremental.tracking(),
        }
    }

    /// Whether what is recorded agrees with the steps. A failed clearing ends this.
    pub closed spec fn coherent(&self) -> bool {
        self.kind matches StorageReadableTransactionKind::RocksDb(transaction) ==> states_agree(
            self.incremental.states(),
            transaction.ops@,
        )
    }

    pub closed spec fn on_disk(&self) -> bool {
        self.kind is RocksDb
    }

    /// The contents as the transaction sees them.
    pub closed spec fn contents(&self) -> QuadTable {
        match self.kind {
            StorageReadableTransactionKind::RocksDb(transaction) => transaction.working,
            StorageReadableTransactionKind::Memory(transaction) => transaction.working(),
        }
    }

    /// The contents that the transaction started from.
    pub closed spec fn base(&self) -> QuadTable {
        match self.kind {
            StorageReadableTransactionKind::RocksDb(transaction) => *transaction.base,
            StorageReadableTransactionKind::Memory(transaction) => transaction.base(),
        }
    }

    /// The steps so far.
    pub closed spec fn ops(&self) -> Seq<WriteOp> {
        match self.kind {
            StorageReadableTransactionKind::RocksDb(transaction) => transaction.ops@,
            StorageReadableTransactionKind::Memory(transaction) => transaction.ops(),
        }
    }

    /// The strings put so far.
    pub closed spec fn entries(&self) -> Seq<(StrHash, Seq<u8>)> {
        match self.kind {
            StorageReadableTransactionKind::RocksDb(transaction) => entries(transaction.strings@),
            StorageReadableTransactionKind::Memory(transaction) => transaction.entries(),
        }
    }

    pub closed spec fn recorded(&self) -> IncrementalTransactionState {
        self.incremental
    }

    /// The contents are those at the start after the steps.
    pub proof fn law_contents(&self)
        requires
            self.wf(),
        ensures
            self.contents().quads() == quads_written(self.base().quads(), self.ops()),
            self.contents().graphs() == graphs_written(self.base().graphs(), self.ops()),
            self.contents().strings() == strings_written(self.base().strings(), self.entries()),
            self.contents().damage() == self.base().damage(),
    {
        match self.kind {
            StorageReadableTransactionKind::RocksDb(transaction) => {},
            StorageReadableTransactionKind::Memory(transaction) => {
                transaction.lemma_parts();
            },
        }
    }

    /// Whether nothing is wrong with any quad of the contents.
    pub open spec fn valid(&self) -> bool {
        table_valid(self.contents())
    }

    /// Contents stay valid where the graphs of the quads stay listed and new quads come with
    /// their strings.
    proof fn lemma_still_valid(&self, before: Self, more: Seq<(StrHash, Seq<u8>)>)
        requires
            before.wf(),
            self.wf(),
            self.base() == before.base(),
            self.entries() == before.entries() + more,
            forall|quad: EncodedQuad| #[trigger]
                self.contents().quads().contains(quad) ==> {
                    ||| before.contents().quads().contains(quad) && (graph_listed(
                        before.contents().graphs(),
                        quad,
                    ) ==> graph_listed(self.contents().graphs(), quad))
                    ||| supplies_all(more, quad_string_ids(quad)) && graph_listed(
                        self.contents().graphs(),
                        quad,
                    )
                },
        ensures
            before.valid() ==> self.valid(),
    {
        self.law_contents();
        before.law_contents();
        let strings = before.contents().strings();
        lemma_strings_add(self.base().strings(), before.entries(), more);
        if before.valid() {
            assert forall|quad: EncodedQuad| #[trigger]
                self.contents().quads().contains(quad) implies graph_listed(
                self.contents().graphs(),
                quad,
            ) && strings_known(self.contents().strings(), quad) by {
                let known = self.contents().strings();
                assert forall|i: int| 0 <= i
                    < quad_string_ids(quad).len() implies known.contains_key(
                    #[trigger] quad_string_ids(quad)[i],
                ) by {
                    let id = quad_string_ids(quad)[i];
                    if before.contents().quads().contains(quad) {
                        assert(strings_known(strings, quad));
                        law_strings_stay(strings, more, id);
                    } else {
                        lemma_supplied(strings, more, id);
                    }
                }
                if before.contents().quads().contains(quad) {
                    assert(graph_listed(before.contents().graphs(), quad));
                }
            }
        }
    }

    /// Whether this differs from an earlier state in its writes alone.
    pub open spec fn continues(&self, before: Self) -> bool {
        &&& self.wf()
        &&& self.on_disk() == before.on_disk()
        &&& self.base() == before.base()
    }

    /// A view of the contents as the transaction sees them.
    pub fn reader(&self) -> (reader: StorageReader)
        requires
            self.wf(),
        ensures
            reader.wf(),
            reader.on_disk() == self.on_disk(),
            !reader.refreshes(),
            reader.table().quads() == self.contents().quads(),
            reader.table().graphs() == self.contents().graphs(),
            reader.table().strings() == self.contents().strings(),
            reader.table().damage() == self.contents().damage(),
    {
        match &self.kind {
            StorageReadableTransactionKind::RocksDb(transaction) => StorageReader::of_transaction(
                transaction.working.duplicate(),
                true,
            ),
            StorageReadableTransactionKind::Memory(transaction) => {
                proof {
                    transaction.lemma_parts();
                }
                StorageReader::of_transaction(transaction.contents().duplicate(), false)
            },
        }
    }

    /// Performs a step whose record is made already.
    fn perform(&mut self, op: WriteOp, strings: Vec<(StrHash, Text)>)
        requires
            old(self).wf(),
        ensures
            final(self).continues(*old(self)),
            final(self).recorded() == old(self).recorded(),
            final(self).ops() == old(self).ops().push(op),
            final(self).entries() == old(self).entries() + entries(strings@),
            final(self).contents().quads() == quads_after(old(self).contents().quads(), op),
            final(self).contents().graphs() == graphs_after(old(self).contents().graphs(), op),
    {
        let ghost before = *self;
        proof {
            self.law_contents();
            lemma_written_push(
                self.base().quads(),
                self.base().graphs(),
                self.ops(),
                op,
            );
        }
        match &mut self.kind {
            StorageReadableTransactionKind::RocksDb(transaction) => {
                transaction.write(op);
                transaction.put(strings);
            },
            StorageReadableTransactionKind::Memory(transaction) => {
                transaction.write(op);
                transaction.put(&strings);
            },
        }
        proof {
            self.law_contents();
        }
    }

    /// Adds a quad.
    pub fn insert(&mut self, quad: Quad)
        requires
            old(self).wf(),
        ensures
            final(self).continues(*old(self)),
            old(self).coherent() ==> final(self).coherent(),
            old(self).valid() ==> final(self).valid(),
            final(self).ops() == old(self).ops().push(WriteOp::PutQuad(encoded_quad(quad))),
            final(self).entries() == old(self).entries() + quad_entries(quad),
            final(self).contents().quads() == old(self).contents().quads().insert(
                encoded_quad(quad),
            ),
            final(self).contents().graphs() == graphs_after(
                old(self).contents().graphs(),
                WriteOp::PutQuad(encoded_quad(quad)),
            ),
    {
        let op = WriteOp::PutQuad(EncodedQuad::from_quad(&quad));
        let strings = quad_strings(&quad);
        self.incremental.set_quad_state(&quad, DesiredQuadState::Present);
        self.perform(op, strings);
        proof {
            lemma_quad_supplied(quad);
            self.lemma_still_valid(*old(self), quad_entries(quad));
            lemma_agree_after(
                old(self).incremental.states(),
                self.incremental.states(),
                old(self).ops(),
                op,
            );
        }
    }

    /// Adds the name of a graph.
    pub fn insert_named_graph(&mut self, graph_name: NamedOrBlankNode)
        requires
            old(self).wf(),
        ensures
            final(self).continues(*old(self)),
            old(self).coherent() ==> final(self).coherent(),
            old(self).valid() ==> final(self).valid(),
            final(self).ops() == old(self).ops().push(WriteOp::PutGraph(encoded(graph_name@))),
            final(self).entries() == old(self).entries() + term_entries(graph_name@),
            final(self).contents().quads() == old(self).contents().quads(),
            final(self).contents().graphs() == old(self).contents().graphs().insert(
                encoded(graph_name@),
            ),
    {
        let op = WriteOp::PutGraph(EncodedTerm::from_node(&graph_name));
        let mut strings: Vec<(StrHash, Text)> = Vec::new();
        insert_term(&graph_name.into_term(), &mut strings);
        assert(entries(strings@) =~= term_entries(graph_name@));
        self.perform(op, strings);
        proof {
            self.lemma_still_valid(*old(self), term_entries(graph_name@));
            lemma_agree_after(
                old(self).incremental.states(),
                self.incremental.states(),
                old(self).ops(),
                op,
            );
        }
    }

    /// Removes a quad.
    pub fn remove(&mut self, quad: &Quad)
        requires
            old(self).wf(),
        ensures
            final(self).continues(*old(self)),
            old(self).coherent() ==> final(self).coherent(),
            old(self).valid() ==> final(self).valid(),
            final(self).ops() == old(self).ops().push(WriteOp::DeleteQuad(encoded_quad(*quad))),
            final(self).entries() == old(self).entries(),
            final(self).contents().quads() == old(self).contents().quads().remove(
                encoded_quad(*quad),
            ),
            final(self).contents().graphs() == old(self).contents().graphs(),
    {
        let op = WriteOp::DeleteQuad(EncodedQuad::from_quad(quad));
        self.incremental.set_quad_state(quad, DesiredQuadState::Absent);
        let strings: Vec<(StrHash, Text)> = Vec::new();
        assert(self.entries() + entries(strings@) =~= self.entries());
        self.perform(op, strings);
        proof {
            assert(old(self).entries() + Seq::empty() =~= old(self).entries());
            self.lemma_still_valid(*old(self), Seq::empty());
            lemma_agree_after(
                old(self).incremental.states(),
                self.incremental.states(),
                old(self).ops(),
                op,
            );
        }
    }

    /// What clearing graphs does: where the rows at the start cannot all be read it fails
    /// and the contents stay.
    pub open spec fn cleared_since(
        &self,
        before: Self,
        scope: ClearScope,
        result: Result<(), StorageError>,
    ) -> bool {
        &&& self.continues(before)
        &&& self.entries() == before.entries()
        &&& before.valid() ==> self.valid()
        &&& self.contents().graphs() == before.contents().graphs()
        &&& match result {
            Ok(()) => {
                &&& !before.on_disk() || before.base().damage() is None
                &&& before.coherent() ==> self.coherent()
                &&& self.contents().quads() == quads_after(
                    before.contents().quads(),
                    WriteOp::ClearQuads(scope),
                )
                &&& before.on_disk() ==> forall|quads: Set<EncodedQuad>| #[trigger]
                    quads_written(quads, self.ops()) == quads_written(
                        quads,
                        before.ops(),
                    ).difference(seen_in(before.contents().quads(), scope))
                &&& before.on_disk() ==> forall|graphs: Set<EncodedTerm>| #[trigger]
                    graphs_written(graphs, self.ops()) == graphs_written(graphs, before.ops())
            },
            Err(error) => {
                &&& before.on_disk()
                &&& before.base().damage() == Some(error)
                &&& self.ops() == before.ops()
                &&& self.contents() == before.contents()
            },
        }
    }

    fn clear_quads(&mut self, scope: ClearScope) -> (result: Result<(), StorageError>)
        requires
            old(self).wf(),
        ensures
            final(self).cleared_since(*old(self), scope, result),
    {
        let ghost before = *self;
        let touched = match scope {
            ClearScope::Graph(name) => self.incremental.touch_quads_for_pattern(
                None,
                None,
                None,
                Some(&name),
            ),
            ClearScope::NamedGraphs => self.incremental.touch_all_named_graph_quads(),
            ClearScope::AllGraphs => self.incremental.touch_quads_for_pattern(
                None,
                None,
                None,
                None,
            ),
        };
        if let Err(error) = touched {
            return Err(error);
        }
        proof {
            self.law_contents();
        }
        match &mut self.kind {
            StorageReadableTransactionKind::RocksDb(transaction) => {
                transaction.clear_quads(scope);
            },
            StorageReadableTransactionKind::Memory(transaction) => {
                let ghost op = WriteOp::ClearQuads(scope);
                proof {
                    transaction.lemma_parts();
                    lemma_written_push(
                        transaction.base().quads(),
                        transaction.base().graphs(),
                        transaction.ops(),
                        op,
                    );
                }
                transaction.write(WriteOp::ClearQuads(scope));
                proof {
                    transaction.lemma_parts();
                }
            },
        }
        proof {
            if before.on_disk() {
                before.law_contents();
                if before.coherent() {
                    lemma_agree_after_clear(
                        before.incremental.states(),
                        self.incremental.states(),
                        before.ops(),
                        self.ops(),
                        before.base().quads(),
                        scope,
                        before.incremental.next_number() as usize,
                    );
                }
            }
            assert(before.entries() + Seq::empty() =~= before.entries());
            self.lemma_still_valid(before, Seq::empty());
        }
        Ok(())
    }

    /// Removes the quads of a graph; a named graph keeps its name.
    pub fn clear_graph(&mut self, graph_name: &GraphName) -> (result: Result<(), StorageError>)
        requires
            old(self).wf(),
        ensures
            final(self).cleared_since(
                *old(self),
                ClearScope::Graph(encoded_graph(graph_name@)),
                result,
            ),
    {
        let encoded_graph_name = EncodedTerm::from_graph_name(graph_name);
        self.clear_quads(ClearScope::Graph(encoded_graph_name))
    }

    /// Removes the quads of the named graphs; the graphs keep their names.
    pub fn clear_all_named_graphs(&mut self) -> (result: Result<(), StorageError>)
        requires
            old(self).wf(),
        ensures
            final(self).cleared_since(*old(self), ClearScope::NamedGraphs, result),
    {
        self.clear_quads(ClearScope::NamedGraphs)
    }

    /// Removes all quads; the graphs keep their names.
    pub fn clear_all_graphs(&mut self) -> (result: Result<(), StorageError>)
        requires
            old(self).wf(),
        ensures
            final(self).cleared_since(*old(self), ClearScope::AllGraphs, result),
    {
        self.clear_quads(ClearScope::AllGraphs)
    }

    /// What removing graphs does: where the rows at the start cannot all be read it fails
    /// and the contents stay. `gone` are the names that go; on disk they also go where other
    /// commits have named graphs meanwhile, and no other name does.
    pub open spec fn removed_since(
        &self,
        before: Self,
        scope: ClearScope,
        gone: Set<EncodedTerm>,
        result: Result<(), StorageError>,
    ) -> bool {
        &&& self.continues(before)
        &&& self.entries() == before.entries()
        &&& before.valid() ==> self.valid()
        &&& match result {
            Ok(()) => {
                &&& !before.on_disk() || before.base().damage() is None
                &&& before.coherent() ==> self.coherent()
                &&& self.contents().quads() == quads_after(
                    before.contents().quads(),
                    WriteOp::ClearQuads(scope),
                )
                &&& self.contents().graphs() == before.contents().graphs().difference(gone)
                &&& before.on_disk() ==> forall|quads: Set<EncodedQuad>| #[trigger]
                    quads_written(quads, self.ops()) == quads_written(
                        quads,
                        before.ops(),
                    ).difference(seen_in(before.contents().quads(), scope))
                &&& before.on_disk() ==> forall|graphs: Set<EncodedTerm>| #[trigger]
                    graphs_written(graphs, self.ops()) == graphs_written(graphs, before.ops()).difference(gone)
            },
            Err(error) => {
                &&& before.on_disk()
                &&& before.base().damage() == Some(error)
                &&& self.ops() == before.ops()
                &&& self.contents() == before.contents()
            },
        }
    }

    /// Removes a named graph with its quads.
    pub fn remove_named_graph(&mut self, graph_name: &NamedOrBlankNode) -> (result: Result<
        (),
        StorageError,
    >)
        requires
            old(self).wf(),
        ensures
            final(self).removed_since(
                *old(self),
                ClearScope::Graph(encoded(graph_name@)),
                set![encoded(graph_name@)],
                result,
            ),
    {
        let encoded_graph_name = EncodedTerm::from_node(graph_name);
        if let Err(error) = self.clear_quads(ClearScope::Graph(encoded_graph_name)) {
            return Err(error);
        }
        let ghost between = *self;
        let op = WriteOp::DeleteGraph(encoded_graph_name);
        let strings: Vec<(StrHash, Text)> = Vec::new();
        assert(self.entries() + entries(strings@) =~= self.entries());
        self.perform(op, strings);
        proof {
            lemma_agree_after(
                between.incremental.states(),
                self.incremental.states(),
                between.ops(),
                op,
            );
            assert forall|quads: Set<EncodedQuad>| #[trigger]
                quads_written(quads, self.ops()) == quads_written(quads, between.ops()) by {
                lemma_written_push(quads, Set::empty(), between.ops(), op);
            }
            assert forall|graphs: Set<EncodedTerm>| #[trigger]
                graphs_written(graphs, self.ops()) == graphs_written(
                    graphs,
                    between.ops(),
                ).difference(set![encoded(graph_name@)]) by {
                lemma_written_push(Set::empty(), graphs, between.ops(), op);
                assert(graphs_written(graphs, self.ops()) =~= graphs_written(
                    graphs,
                    between.ops(),
                ).difference(set![encoded(graph_name@)]));
            }
            assert(self.contents().graphs() =~= between.contents().graphs().difference(
                set![encoded(graph_name@)],
            ));
            assert(between.entries() + Seq::empty() =~= between.entries());
            self.lemma_still_valid(between, Seq::empty());
        }
        Ok(())
    }

    fn forget_graphs(&mut self)
        requires
            old(self).wf(),
        ensures
            final(self).continues(*old(self)),
            final(self).entries() == old(self).entries(),
            old(self).coherent() ==> final(self).coherent(),
            final(self).contents().quads() == old(self).contents().quads(),
            final(self).contents().graphs() == Set::<EncodedTerm>::empty(),
            forall|quads: Set<EncodedQuad>| #[trigger]
                quads_written(quads, final(self).ops()) == quads_written(quads, old(self).ops()),
            old(self).on_disk() ==> forall|graphs: Set<EncodedTerm>| #[trigger]
                graphs_written(graphs, final(self).ops()) == graphs_written(
                    graphs,
                    old(self).ops(),
                ).difference(old(self).contents().graphs()),
    {
        let ghost before = *self;
        proof {
            self.law_contents();
        }
        match &mut self.kind {
            StorageReadableTransactionKind::RocksDb(transaction) => {
                transaction.forget_graphs();
                proof {
                    assert(before.coherent() ==> states_agree(
                        before.incremental.states(),
                        transaction.ops@,
                    )) by {
                        if before.coherent() {
                            assert forall|quads: Set<EncodedQuad>, quad: EncodedQuad|
                                #![trigger quads_written(quads, transaction.ops@).contains(quad)]
                                quads_written(quads, transaction.ops@).contains(
                                    quad,
                                ) <==> if before.incremental.states().contains_key(quad) {
                                    before.incremental.states()[quad].desired
                                        == DesiredQuadState::Present
                                } else {
                                    quads.contains(quad)
                                } by {
                                assert(quads_written(quads, transaction.ops@) == quads_written(
                                    quads,
                                    before.ops(),
                                ));
                                assert(quads_written(quads, before.ops()).contains(quad) <==> if before.incremental.states().contains_key(
                                    quad,
                                ) {
                                    before.incremental.states()[quad].desired
                                        == DesiredQuadState::Present
                                } else {
                                    quads.contains(quad)
                                });
                            }
                        }
                    }
                }
            },
            StorageReadableTransactionKind::Memory(transaction) => {
                let ghost ops = transaction.ops();
                proof {
                    transaction.lemma_parts();
                    lemma_written_push(
                        transaction.base().quads(),
                        transaction.base().graphs(),
                        ops,
                        WriteOp::ForgetGraphs,
                    );
                }
                transaction.write(WriteOp::ForgetGraphs);
                proof {
                    transaction.lemma_parts();
                    assert forall|quads: Set<EncodedQuad>| #[trigger]
                        quads_written(quads, transaction.ops()) == quads_written(quads, ops) by {
                        lemma_written_push(quads, Set::empty(), ops, WriteOp::ForgetGraphs);
                    }
                }
            },
        }
    }

    /// Removes the named graphs with their quads.
    pub fn remove_all_named_graphs(&mut self) -> (result: Result<(), StorageError>)
        requires
            old(self).wf(),
        ensures
            final(self).removed_since(
                *old(self),
                ClearScope::NamedGraphs,
                old(self).contents().graphs(),
                result,
            ),
    {
        if let Err(error) = self.clear_quads(ClearScope::NamedGraphs) {
            return Err(error);
        }
        let ghost between = *self;
        self.forget_graphs();
        proof {
            assert(self.contents().graphs() =~= between.contents().graphs().difference(
                between.contents().graphs(),
            ));
            assert(between.entries() + Seq::empty() =~= between.entries());
            self.lemma_still_valid(between, Seq::empty());
        }
        Ok(())
    }

    /// Removes all quads and the names of all graphs.
    pub fn clear(&mut self) -> (result: Result<(), StorageError>)
        requires
            old(self).wf(),
        ensures
            final(self).removed_since(
                *old(self),
                ClearScope::AllGraphs,
                old(self).contents().graphs(),
                result,
            ),
    {
        if let Err(error) = self.clear_quads(ClearScope::AllGraphs) {
            return Err(error);
        }
        let ghost between = *self;
        self.forget_graphs();
        proof {
            assert(self.contents().graphs() =~= between.contents().graphs().difference(
                between.contents().graphs(),
            ));
            assert(between.entries() + Seq::empty() =~= between.entries());
            self.lemma_still_valid(between, Seq::empty());
        }
        Ok(())
    }

    /// Makes the write take effect and tells the subscribers. `write` writes the steps to
    /// disk; it is not called for a store in memory. In memory no other write can have been
    /// committed since the start; on disk the steps are performed on what is there now.
    pub fn commit<F: FnOnce() -> Result<(), StorageError>>(
        self,
        storage: &mut Storage,
        write: F,
    ) -> (result: Result<Published, StorageError>)
        requires
            self.wf(),
            old(storage).wf(),
            self.on_disk() == old(storage).on_disk(),
            !self.on_disk() ==> self.base() == old(storage).table(),
            self.on_disk() ==> write.requires(()),
        ensures
            result is Ok ==> same_kind(*old(storage), *final(storage)),
            result is Ok ==> final(storage).table().quads() == quads_written(
                old(storage).table().quads(),
                self.ops(),
            ),
            result is Ok ==> final(storage).table().graphs() == graphs_written(
                old(storage).table().graphs(),
                self.ops(),
            ),
            result is Ok ==> final(storage).table().strings() == strings_written(
                old(storage).table().strings(),
                self.entries(),
            ),
            result is Ok ==> final(storage).table().damage() == old(storage).table().damage(),
            result is Ok && self.valid() && self.base() == old(storage).table() ==> table_valid(
                final(storage).table(),
            ),
            result matches Ok(published) ==> told(*old(storage), *final(storage), published),
            result matches Ok(published) ==> self.coherent() ==> reports(
                published.changes@,
                old(storage).table().quads(),
                final(storage).table().quads(),
            ),
            result matches Ok(published) ==> self.on_disk()
                ==> self.recorded().changes_prepared(*old(storage), Ok(published.changes@)),
            result is Ok && self.on_disk() ==> exists|outcome: Result<(), StorageError>|
                outcome is Ok && #[trigger] write.ensures((), outcome),
            result is Err ==> *final(storage) == *old(storage),
            result matches Err(error) ==> self.on_disk() && write.ensures((), Err(error)),
    {
        proof {
            self.law_contents();
        }
        let StorageReadableTransaction { kind, incremental } = self;
        match kind {
            StorageReadableTransactionKind::RocksDb(transaction) => {
                proof {
                    storage.lemma_parts();
                }
                let mut table = storage.current().duplicate();
                write_all(&mut table, &transaction.ops);
                put_strings(&mut table, &transaction.strings);
                let result = commit_and_publish(incremental, storage, None, table, write);
                proof {
                    let before = old(storage).table().quads();
                    let states = incremental.states();
                    assert(settled(states, incremental.range_clears(), before) == states);
                    if self.coherent() {
                        assert forall|quad: EncodedQuad| intended(states, before).contains(quad)
                            <==> quads_written(before, transaction.ops@).contains(quad) by {}
                        assert(intended(states, before) =~= quads_written(
                            before,
                            transaction.ops@,
                        ));
                        if states == Map::<EncodedQuad, PendingQuadState>::empty() {
                            assert(intended(states, before) =~= before);
                        }
                    }
                }
                result
            },
            StorageReadableTransactionKind::Memory(transaction) => {
                proof {
                    transaction.lemma_parts();
                }
                let changes = transaction.pending_quad_changes();
                let no_write = || -> (outcome: Result<(), StorageError>)
                    ensures
                        outcome is Ok,
                    { Ok(()) };
                commit_and_publish(
                    incremental,
                    storage,
                    Some(changes),
                    transaction.into_contents(),
                    no_write,
                )
            },
        }
    }
}

/// One more step keeps states and steps in agreement.
proof fn lemma_agree_after(
    states: Map<EncodedQuad, PendingQuadState>,
    new_states: Map<EncodedQuad, PendingQuadState>,
    ops: Seq<WriteOp>,
    op: WriteOp,
)
    ensures
        states_agree(states, ops) && (match op {
            WriteOp::PutQuad(quad) => new_states.contains_key(quad) && new_states[quad].desired
                == DesiredQuadState::Present && new_states == states.insert(quad, new_states[quad]),
            WriteOp::DeleteQuad(quad) => new_states.contains_key(quad) && new_states[quad].desired
                == DesiredQuadState::Absent && new_states == states.insert(quad, new_states[quad]),
            WriteOp::ClearQuads(_) => false,
            WriteOp::PutGraph(_) | WriteOp::DeleteGraph(_) | WriteOp::ForgetGraphs => new_states
                == states,
        }) ==> states_agree(new_states, ops.push(op)),
{
    if states_agree(states, ops) {
        assert forall|before: Set<EncodedQuad>, quad: EncodedQuad|
            #![trigger quads_written(before, ops.push(op)).contains(quad)]
            (match op {
                WriteOp::PutQuad(quad) => new_states.contains_key(quad) && new_states[quad].desired
                    == DesiredQuadState::Present && new_states == states.insert(
                    quad,
                    new_states[quad],
                ),
                WriteOp::DeleteQuad(quad) => new_states.contains_key(quad)
                    && new_states[quad].desired == DesiredQuadState::Absent && new_states
                    == states.insert(quad, new_states[quad]),
                WriteOp::ClearQuads(_) => false,
                WriteOp::PutGraph(_) | WriteOp::DeleteGraph(_) | WriteOp::ForgetGraphs => new_states
                    == states,
            }) implies (quads_written(before, ops.push(op)).contains(
            quad,
        ) <==> if new_states.contains_key(quad) {
            new_states[quad].desired == DesiredQuadState::Present
        } else {
            before.contains(quad)
        }) by {
            lemma_written_push(before, Set::empty(), ops, op);
            assert(quads_written(before, ops).contains(quad) <==> if states.contains_key(quad) {
                states[quad].desired == DesiredQuadState::Present
            } else {
                before.contains(quad)
            });
        }
    }
}

/// Deleting the visible quads of graphs, and recording them as touched, keeps states and
/// steps in agreement.
proof fn lemma_agree_after_clear(
    states: Map<EncodedQuad, PendingQuadState>,
    new_states: Map<EncodedQuad, PendingQuadState>,
    ops: Seq<WriteOp>,
    new_ops: Seq<WriteOp>,
    base: Set<EncodedQuad>,
    scope: ClearScope,
    number: usize,
)
    requires
        states_agree(states, ops),
        new_states == touched_states(states, base, touched_of(scope), number),
        forall|quads: Set<EncodedQuad>| #[trigger]
            quads_written(quads, new_ops) == quads_written(quads, ops).difference(
                seen_in(quads_written(base, ops), scope),
            ),
    ensures
        states_agree(new_states, new_ops),
{
    assert forall|before: Set<EncodedQuad>, quad: EncodedQuad|
        #![trigger quads_written(before, new_ops).contains(quad)]
        quads_written(before, new_ops).contains(quad) <==> if new_states.contains_key(quad) {
            new_states[quad].desired == DesiredQuadState::Present
        } else {
            before.contains(quad)
        } by {
        assert(touches(touched_of(scope), quad) == covers(scope, quad));
        assert(quads_written(before, ops).contains(quad) <==> if states.contains_key(quad) {
            states[quad].desired == DesiredQuadState::Present
        } else {
            before.contains(quad)
        });
        assert(quads_written(base, ops).contains(quad) <==> if states.contains_key(quad) {
            states[quad].desired == DesiredQuadState::Present
        } else {
            base.contains(quad)
        });
        assert(quads_written(before, new_ops) == quads_written(before, ops).difference(
            seen_in(quads_written(base, ops), scope),
        ));
    }
}

/// The quads that are recorded as touched when graphs are cleared.
pub open spec fn touched_of(scope: ClearScope) -> Touched {
    match scope {
        ClearScope::Graph(name) => Touched::Pattern(
            QuadPattern { subject: None, predicate: None, object: None, graph_name: Some(name) },
        ),
        ClearScope::NamedGraphs => Touched::NamedGraphs,
        ClearScope::AllGraphs => Touched::Pattern(any_quad()),
    }
}

impl Storage {
    /// Starts a write that can also read.
    pub fn start_readable_transaction(&self) -> (transaction: Result<
        StorageReadableTransaction,
        StorageError,
    >)
        requires
            self.wf(),
        ensures
            match transaction {
                Ok(transaction) => {
                    &&& !self.read_only()
                    &&& transaction.wf()
                    &&& transaction.coherent()
                    &&& transaction.on_disk() == self.on_disk()
                    &&& transaction.base() == self.table()
                    &&& table_valid(self.table()) ==> transaction.valid()
                    &&& transaction.ops() == Seq::<WriteOp>::empty()
                    &&& transaction.entries() == Seq::<(StrHash, Seq<u8>)>::empty()
                },
                Err(error) => self.read_only() && error == StorageError::ReadOnly,
            },
    {
        if self.is_read_only() {
            return Err(StorageError::ReadOnly);
        }
        proof {
            self.lemma_parts();
        }
        let incremental = IncrementalTransactionState::new(self);
        let kind = if self.is_on_disk() {
            let base = self.current();
            let working = base.duplicate();
            StorageReadableTransactionKind::RocksDb(
                RocksDbStorageReadableTransaction {
                    base,
                    working,
                    ops: Vec::new(),
                    strings: Vec::new(),
                },
            )
        } else {
            StorageReadableTransactionKind::Memory(MemoryStorageTransaction::start(self))
        };
        let transaction = StorageReadableTransaction { kind, incremental };
        assert(transaction.entries() =~= Seq::<(StrHash, Seq<u8>)>::empty());
        proof {
            transaction.law_contents();
        }
        Ok(transaction)
    }
}

/// A clearing that succeeds leaves the quads of all graphs but the cleared ones, and the names
/// of all graphs. One that fails changes nothing.
pub proof fn law_cleared_graphs_are_empty(
    before: StorageReadableTransaction,
    after: StorageReadableTransaction,
    scope: ClearScope,
    result: Result<(), StorageError>,
    quad: EncodedQuad,
    name: EncodedTerm,
)
    requires
        after.cleared_since(before, scope, result),
    ensures
        result is Ok ==> (after.contents().quads().contains(quad) <==> before.contents().quads().contains(
            quad,
        ) && match scope {
            ClearScope::Graph(cleared) => quad.graph_name != cleared,
            ClearScope::NamedGraphs => quad.graph_name == EncodedTerm::DefaultGraph,
            ClearScope::AllGraphs => false,
        }),
        after.contents().graphs().contains(name) <==> before.contents().graphs().contains(name),
        result is Err ==> (after.contents().quads().contains(quad)
            <==> before.contents().quads().contains(quad)),
{
}

/// A removal that succeeds leaves the quads of all graphs but the removed ones, and the names
/// of those graphs. One that fails changes nothing.
pub proof fn law_removed_graphs_are_gone(
    before: StorageReadableTransaction,
    after: StorageReadableTransaction,
    scope: ClearScope,
    gone: Set<EncodedTerm>,
    result: Result<(), StorageError>,
    quad: EncodedQuad,
    name: EncodedTerm,
)
    requires
        after.removed_since(before, scope, gone, result),
    ensures
        result is Ok ==> (after.contents().quads().contains(quad) <==> before.contents().quads().contains(
            quad,
        ) && match scope {
            ClearScope::Graph(cleared) => quad.graph_name != cleared,
            ClearScope::NamedGraphs => quad.graph_name == EncodedTerm::DefaultGraph,
            ClearScope::AllGraphs => false,
        }),
        result is Ok ==> (after.contents().graphs().contains(name)
            <==> before.contents().graphs().contains(name) && !gone.contains(name)),
        result is Err ==> (after.contents().quads().contains(quad)
            <==> before.contents().quads().contains(quad)) && (
        after.contents().graphs().contains(name) <==> before.contents().graphs().contains(name)),
{
}

/// What is recorded as touched by a clearing is what the clearing removes.
pub proof fn law_clearings_touch_what_they_remove(scope: ClearScope, quad: EncodedQuad)
    ensures
        crate::tracking::touches(touched_of(scope), quad) <==> match scope {
            ClearScope::Graph(cleared) => quad.graph_name == cleared,
            ClearScope::NamedGraphs => quad.graph_name != EncodedTerm::DefaultGraph,
            ClearScope::AllGraphs => true,
        },
{
}

} // verus!
