//! The contents of a store: quads, the names of graphs, and the strings that terms refer to.

use crate::delta::Delta;
use crate::error::StorageError;
use crate::fx::{lemma_listed_len, lists, lists_keys, occurs, FxKey, FxMap, FxSet};
use crate::model::Text;
use crate::numeric_encoder::{EncodedQuad, EncodedTerm, StrHash};
use std::sync::Arc;
use vstd::prelude::*;

verus! {

/// Calls `std::sync::Arc::clone`: the copy refers to the same value.
#[verifier::external_body]
pub(crate) fn share<T>(shared: &Arc<T>) -> (copy: Arc<T>)
    ensures
        copy == *shared,
{
    Arc::clone(shared)
}

/// Which quads to read: those that have the given terms.
#[derive(Clone, Copy, PartialEq, Eq, Structural, Debug)]
pub struct QuadPattern {
    pub subject: Option<EncodedTerm>,
    pub predicate: Option<EncodedTerm>,
    pub object: Option<EncodedTerm>,
    pub graph_name: Option<EncodedTerm>,
}

/// Whether a term is the one asked for, if one is asked for.
pub open spec fn fits(wanted: Option<EncodedTerm>, term: EncodedTerm) -> bool {
    wanted matches Some(wanted) ==> wanted == term
}

/// Whether a quad has the terms that a pattern asks for.
pub open spec fn selects(pattern: QuadPattern, quad: EncodedQuad) -> bool {
    &&& fits(pattern.subject, quad.subject)
    &&& fits(pattern.predicate, quad.predicate)
    &&& fits(pattern.object, quad.object)
    &&& fits(pattern.graph_name, quad.graph_name)
}

fn fit(wanted: Option<EncodedTerm>, term: EncodedTerm) -> (result: bool)
    ensures
        result == fits(wanted, term),
{
    match wanted {
        Some(wanted) => wanted == term,
        None => true,
    }
}

impl QuadPattern {
    /// The pattern of every quad.
    pub fn any() -> (pattern: Self)
        ensures
            pattern == any_quad(),
    {
        QuadPattern { subject: None, predicate: None, object: None, graph_name: None }
    }

    pub fn matches(&self, quad: &EncodedQuad) -> (result: bool)
        ensures
            result == selects(*self, *quad),
    {
        fit(self.subject, quad.subject) && fit(self.predicate, quad.predicate) && fit(
            self.object,
            quad.object,
        ) && fit(self.graph_name, quad.graph_name)
    }
}

pub open spec fn any_quad() -> QuadPattern {
    QuadPattern { subject: None, predicate: None, object: None, graph_name: None }
}

/// The graphs that a clearing empties.
#[derive(Clone, Copy, PartialEq, Eq, Structural, Debug)]
pub enum ClearScope {
    Graph(EncodedTerm),
    NamedGraphs,
    AllGraphs,
}

/// Whether a clearing removes a quad.
pub open spec fn covers(scope: ClearScope, quad: EncodedQuad) -> bool {
    match scope {
        ClearScope::Graph(name) => quad.graph_name == name,
        ClearScope::NamedGraphs => quad.graph_name != EncodedTerm::DefaultGraph,
        ClearScope::AllGraphs => true,
    }
}

impl ClearScope {
    pub fn covers_quad(&self, quad: &EncodedQuad) -> (result: bool)
        ensures
            result == covers(*self, *quad),
    {
        match *self {
            ClearScope::Graph(name) => quad.graph_name == name,
            ClearScope::NamedGraphs => !quad.graph_name.is_default_graph(),
            ClearScope::AllGraphs => true,
        }
    }
}

/// One step of a write.
#[derive(Clone, Copy, PartialEq, Eq, Structural, Debug)]
pub enum WriteOp {
    PutQuad(EncodedQuad),
    DeleteQuad(EncodedQuad),
    PutGraph(EncodedTerm),
    DeleteGraph(EncodedTerm),
    ClearQuads(ClearScope),
    ForgetGraphs,
}

/// The quads after a step.
pub open spec fn quads_after(quads: Set<EncodedQuad>, op: WriteOp) -> Set<EncodedQuad> {
    match op {
        WriteOp::PutQuad(quad) => quads.insert(quad),
        WriteOp::DeleteQuad(quad) => quads.remove(quad),
        WriteOp::ClearQuads(scope) => quads.filter(|quad: EncodedQuad| !covers(scope, quad)),
        WriteOp::PutGraph(_) | WriteOp::DeleteGraph(_) | WriteOp::ForgetGraphs => quads,
    }
}

/// The names of graphs after a step. Putting a quad into a graph names the graph.
pub open spec fn graphs_after(graphs: Set<EncodedTerm>, op: WriteOp) -> Set<EncodedTerm> {
    match op {
        WriteOp::PutQuad(quad) => if quad.graph_name == EncodedTerm::DefaultGraph {
            graphs
        } else {
            graphs.insert(quad.graph_name)
        },
        WriteOp::PutGraph(name) => graphs.insert(name),
        WriteOp::DeleteGraph(name) => graphs.remove(name),
        WriteOp::ForgetGraphs => Set::empty(),
        WriteOp::DeleteQuad(_) | WriteOp::ClearQuads(_) => graphs,
    }
}

/// The quads after a sequence of steps.
pub open spec fn quads_written(quads: Set<EncodedQuad>, ops: Seq<WriteOp>) -> Set<EncodedQuad>
    decreases ops.len(),
{
    if ops.len() == 0 {
        quads
    } else {
        quads_after(quads_written(quads, ops.drop_last()), ops.last())
    }
}

/// The names of graphs after a sequence of steps.
pub open spec fn graphs_written(graphs: Set<EncodedTerm>, ops: Seq<WriteOp>) -> Set<EncodedTerm>
    decreases ops.len(),
{
    if ops.len() == 0 {
        graphs
    } else {
        graphs_after(graphs_written(graphs, ops.drop_last()), ops.last())
    }
}

pub proof fn lemma_written_push(
    quads: Set<EncodedQuad>,
    graphs: Set<EncodedTerm>,
    ops: Seq<WriteOp>,
    op: WriteOp,
)
    ensures
        quads_written(quads, ops.push(op)) == quads_after(quads_written(quads, ops), op),
        graphs_written(graphs, ops.push(op)) == graphs_after(graphs_written(graphs, ops), op),
{
    assert(ops.push(op).drop_last() =~= ops);
}

/// Whether changes say exactly how two sets of quads differ, each difference once.
pub open spec fn reports(
    changes: Seq<Delta<EncodedQuad>>,
    before: Set<EncodedQuad>,
    after: Set<EncodedQuad>,
) -> bool {
    &&& forall|i: int, j: int|
        0 <= i < j < changes.len() ==> (#[trigger] changes[i]).value_of() != (
        #[trigger] changes[j]).value_of()
    &&& forall|i: int| 0 <= i < changes.len() ==> differs(#[trigger] changes[i], before, after)
    &&& forall|quad: EncodedQuad|
        before.contains(quad) != after.contains(quad) ==> #[trigger] reported(changes, quad)
}

/// Whether a change tells a difference between two sets of quads.
pub open spec fn differs(
    change: Delta<EncodedQuad>,
    before: Set<EncodedQuad>,
    after: Set<EncodedQuad>,
) -> bool {
    match change {
        Delta::Addition(quad) => !before.contains(quad) && after.contains(quad),
        Delta::Deletion(quad) => before.contains(quad) && !after.contains(quad),
    }
}

/// Whether a change of a quad is among the changes.
pub open spec fn reported(changes: Seq<Delta<EncodedQuad>>, quad: EncodedQuad) -> bool {
    exists|i: int| 0 <= i < changes.len() && (#[trigger] changes[i]).value_of() == quad
}

/// The change that makes a quad present or absent.
pub open spec fn as_delta(change: (EncodedQuad, bool)) -> Delta<EncodedQuad> {
    if change.1 {
        Delta::Addition(change.0)
    } else {
        Delta::Deletion(change.0)
    }
}

pub open spec fn as_deltas(changes: Seq<(EncodedQuad, bool)>) -> Seq<Delta<EncodedQuad>> {
    changes.map_values(|change: (EncodedQuad, bool)| as_delta(change))
}

/// The contents of a store at one moment.
pub struct QuadTable {
    quads: FxSet<EncodedQuad>,
    graphs: FxSet<EncodedTerm>,
    strings: FxMap<StrHash, Text>,
    damage: Option<StorageError>,
}

impl QuadTable {
    pub closed spec fn wf(&self) -> bool {
        &&& self.quads.wf()
        &&& self.graphs.wf()
        &&& self.strings.wf()
    }

    pub closed spec fn quads(&self) -> Set<EncodedQuad> {
        self.quads@
    }

    /// The names of the named graphs.
    pub closed spec fn graphs(&self) -> Set<EncodedTerm> {
        self.graphs@
    }

    /// The strings that are known by their hash.
    pub closed spec fn strings(&self) -> Map<StrHash, Seq<u8>> {
        Map::new(|key: StrHash| self.strings@.contains_key(key), |key: StrHash| self.strings@[key]@)
    }

    /// What reading every row comes to: an error if a row cannot be read.
    pub closed spec fn damage(&self) -> Option<StorageError> {
        self.damage
    }

    pub fn new() -> (table: Self)
        ensures
            table.wf(),
            table.quads() == Set::<EncodedQuad>::empty(),
            table.graphs() == Set::<EncodedTerm>::empty(),
            table.strings() == Map::<StrHash, Seq<u8>>::empty(),
            table.damage() is None,
    {
        let table = QuadTable {
            quads: FxSet::new(),
            graphs: FxSet::new(),
            strings: FxMap::new(),
            damage: None,
        };
        assert(table.strings() =~= Map::<StrHash, Seq<u8>>::empty());
        table
    }

    /// Notes that some rows cannot be read.
    pub fn with_damage(self, damage: StorageError) -> (table: Self)
        requires
            self.wf(),
        ensures
            table.wf(),
            table.quads() == self.quads(),
            table.graphs() == self.graphs(),
            table.strings() == self.strings(),
            table.damage() == Some(damage),
    {
        let table = QuadTable {
            quads: self.quads,
            graphs: self.graphs,
            strings: self.strings,
            damage: Some(damage),
        };
        assert(table.strings() =~= self.strings());
        table
    }

    pub fn read_damage(&self) -> (damage: Option<StorageError>)
        ensures
            damage == self.damage(),
    {
        self.damage
    }

    pub fn contains(&self, quad: &EncodedQuad) -> (result: bool)
        requires
            self.wf(),
        ensures
            result == self.quads().contains(*quad),
    {
        self.quads.contains(quad)
    }

    pub fn len(&self) -> (len: usize)
        requires
            self.wf(),
        ensures
            self.quads().finite(),
            len == self.quads().len(),
    {
        let items = self.quads.items();
        proof {
            lemma_listed_len(items@, self.quads@);
        }
        items.len()
    }

    pub fn is_empty(&self) -> (result: bool)
        requires
            self.wf(),
        ensures
            result == (self.quads() == Set::<EncodedQuad>::empty()),
    {
        self.quads.is_empty()
    }

    pub fn contains_graph(&self, name: &EncodedTerm) -> (result: bool)
        requires
            self.wf(),
        ensures
            result == self.graphs().contains(*name),
    {
        self.graphs.contains(name)
    }

    pub fn graph_names(&self) -> (names: Vec<EncodedTerm>)
        requires
            self.wf(),
        ensures
            lists(names@, self.graphs()),
    {
        self.graphs.items()
    }

    pub fn contains_string(&self, key: &StrHash) -> (result: bool)
        requires
            self.wf(),
        ensures
            result == self.strings().contains_key(*key),
    {
        self.strings.contains_key(key)
    }

    pub fn string(&self, key: &StrHash) -> (text: Option<Text>)
        requires
            self.wf(),
        ensures
            match text {
                Some(text) => self.strings().contains_key(*key) && text@ == self.strings()[*key],
                None => !self.strings().contains_key(*key),
            },
    {
        match self.strings.get(key) {
            Some(text) => Some(text.duplicate()),
            None => None,
        }
    }

    /// Makes a string known, unless another one is known by its key.
    pub fn put_string(&mut self, key: StrHash, text: Text)
        requires
            old(self).wf(),
        ensures
            final(self).wf(),
            final(self).quads() == old(self).quads(),
            final(self).graphs() == old(self).graphs(),
            final(self).damage() == old(self).damage(),
            final(self).strings() == with_string(old(self).strings(), key, text@),
    {
        let ghost before = *self;
        if !self.strings.contains_key(&key) {
            self.strings.insert(key, text);
            assert(self.strings() =~= before.strings().insert(key, text@));
        }
    }

    /// The quads that have the terms of a pattern, each once.
    pub fn matching(&self, pattern: &QuadPattern) -> (found: Vec<EncodedQuad>)
        requires
            self.wf(),
        ensures
            lists(
                found@,
                self.quads().filter(|quad: EncodedQuad| selects(*pattern, quad)),
            ),
    {
        let items = self.quads.items();
        let mut found: Vec<EncodedQuad> = Vec::new();
        let mut next: usize = 0;
        while next < items.len()
            invariant
                lists(items@, self.quads@),
                next <= items@.len(),
                forall|i: int|
                    0 <= i < found@.len() ==> selects(*pattern, #[trigger] found@[i])
                        && occurs(items@.take(next as int), found@[i]),
                forall|i: int|
                    0 <= i < next && selects(*pattern, #[trigger] items@[i]) ==> occurs(
                        found@,
                        items@[i],
                    ),
                crate::fx::distinct(found@),
            decreases items@.len() - next,
        {
            let ghost before = found@;
            let ghost seen = items@.take(next as int);
            let quad = items[next];
            if pattern.matches(&quad) {
                found.push(quad);
            }
            next = next + 1;
            proof {
                let more = items@.take(next as int);
                assert forall|i: int| 0 <= i < found@.len() implies selects(
                    *pattern,
                    #[trigger] found@[i],
                ) && occurs(more, found@[i]) by {
                    if i < before.len() {
                        assert(occurs(seen, before[i]));
                        let j = choose|j: int|
                            0 <= j < seen.len() && (#[trigger] seen[j]).model() == before[i];
                        assert(more[j].model() == before[i]);
                    } else {
                        assert(more[next - 1].model() == quad);
                    }
                }
                assert forall|i: int|
                    0 <= i < next && selects(*pattern, #[trigger] items@[i]) implies occurs(
                    found@,
                    items@[i],
                ) by {
                    if i < next - 1 {
                        assert(occurs(before, items@[i]));
                        let j = choose|j: int|
                            0 <= j < before.len() && (#[trigger] before[j]).model() == items@[i];
                        assert(found@[j].model() == items@[i]);
                    } else {
                        assert(found@[found@.len() - 1].model() == quad);
                    }
                }
                assert forall|i: int, j: int| 0 <= i < j < found@.len() implies (
                #[trigger] found@[i]).model() != (#[trigger] found@[j]).model() by {
                    if j < before.len() {
                        assert(before[i].model() != before[j].model());
                    } else {
                        assert(occurs(seen, before[i]));
                        let k = choose|k: int|
                            0 <= k < seen.len() && (#[trigger] seen[k]).model() == before[i];
                        assert(items@[k].model() != items@[next - 1].model());
                    }
                }
            }
        }
        proof {
            let wanted = self.quads().filter(|quad: EncodedQuad| selects(*pattern, quad));
            assert(items@.take(next as int) =~= items@);
            assert forall|m: EncodedQuad| wanted.contains(m) <==> #[trigger] occurs(found@, m) by {
                if wanted.contains(m) {
                    assert(occurs(items@, m));
                    let i = choose|i: int|
                        0 <= i < items@.len() && (#[trigger] items@[i]).model() == m;
                    assert(selects(*pattern, items@[i]));
                }
                if occurs(found@, m) {
                    let i = choose|i: int|
                        0 <= i < found@.len() && (#[trigger] found@[i]).model() == m;
                    assert(occurs(items@, found@[i]));
                }
            }
            assert forall|i: int| 0 <= i < found@.len() implies wanted.contains(
                (#[trigger] found@[i]).model(),
            ) by {
                assert(occurs(items@, found@[i]));
            }
        }
        found
    }

    /// Performs one step of a write.
    pub fn apply(&mut self, op: WriteOp)
        requires
            old(self).wf(),
        ensures
            final(self).wf(),
            final(self).quads() == quads_after(old(self).quads(), op),
            final(self).graphs() == graphs_after(old(self).graphs(), op),
            final(self).strings() == old(self).strings(),
            final(self).damage() == old(self).damage(),
    {
        match op {
            WriteOp::PutQuad(quad) => {
                self.quads.insert(quad);
                if !quad.graph_name.is_default_graph() {
                    self.graphs.insert(quad.graph_name);
                }
            },
            WriteOp::DeleteQuad(quad) => {
                self.quads.remove(&quad);
            },
            WriteOp::PutGraph(name) => {
                self.graphs.insert(name);
            },
            WriteOp::DeleteGraph(name) => {
                self.graphs.remove(&name);
            },
            WriteOp::ClearQuads(scope) => {
                self.clear_quads(scope);
            },
            WriteOp::ForgetGraphs => {
                self.graphs.clear();
            },
        }
    }

    fn clear_quads(&mut self, scope: ClearScope)
        requires
            old(self).wf(),
        ensures
            final(self).wf(),
            final(self).quads() == quads_after(old(self).quads(), WriteOp::ClearQuads(scope)),
            final(self).graphs() == old(self).graphs(),
            final(self).strings() == old(self).strings(),
            final(self).damage() == old(self).damage(),
    {
        let items = self.quads.items();
        let ghost before = self.quads@;
        let mut next: usize = 0;
        while next < items.len()
            invariant
                self.wf(),
                self.graphs == old(self).graphs,
                self.strings == old(self).strings,
                self.damage == old(self).damage,
                lists(items@, before),
                next <= items@.len(),
                forall|quad: EncodedQuad| #[trigger]
                    self.quads@.contains(quad) <==> before.contains(quad) && !(covers(scope, quad)
                        && occurs(items@.take(next as int), quad)),
            decreases items@.len() - next,
        {
            let ghost seen = items@.take(next as int);
            let ghost current = self.quads@;
            let quad = items[next];
            if scope.covers_quad(&quad) {
                self.quads.remove(&quad);
            }
            next = next + 1;
            proof {
                let more = items@.take(next as int);
                assert forall|q: EncodedQuad| #[trigger]
                    self.quads@.contains(q) <==> before.contains(q) && !(covers(scope, q)
                        && occurs(more, q)) by {
                    assert(current.contains(q) <==> before.contains(q) && !(covers(scope, q)
                        && occurs(seen, q)));
                    if occurs(seen, q) {
                        let i = choose|i: int| 0 <= i < seen.len() && (#[trigger] seen[i]).model() == q;
                        assert(more[i].model() == q);
                    }
                    if occurs(more, q) && q != quad {
                        let i = choose|i: int| 0 <= i < more.len() && (#[trigger] more[i]).model() == q;
                        assert(i < next - 1);
                        assert(seen[i].model() == q);
                    }
                    assert(more[next - 1].model() == quad);
                }
            }
        }
        proof {
            assert(items@.take(next as int) =~= items@);
            let expected = quads_after(before, WriteOp::ClearQuads(scope));
            assert forall|q: EncodedQuad| self.quads@.contains(q) <==> expected.contains(q) by {
                assert(before.contains(q) <==> occurs(items@, q));
                assert(self.quads@.contains(q) <==> before.contains(q) && !(covers(scope, q)
                    && occurs(items@, q)));
            }
            assert(self.quads@ =~= expected);
        }
    }

    pub fn duplicate(&self) -> (copy: Self)
        requires
            self.wf(),
        ensures
            copy.wf(),
            copy.quads() == self.quads(),
            copy.graphs() == self.graphs(),
            copy.strings() == self.strings(),
            copy.damage() == self.damage(),
    {
        let keys = self.strings.keys();
        let mut strings: FxMap<StrHash, Text> = FxMap::new();
        let mut next: usize = 0;
        while next < keys.len()
            invariant
                self.wf(),
                strings.wf(),
                lists_keys(keys@, self.strings@),
                next <= keys@.len(),
                forall|key: StrHash| #[trigger]
                    strings@.contains_key(key) <==> occurs(keys@.take(next as int), key),
                forall|key: StrHash| #[trigger]
                    strings@.contains_key(key) ==> strings@[key]@ == self.strings@[key]@,
            decreases keys@.len() - next,
        {
            let ghost before = strings@;
            let ghost seen = keys@.take(next as int);
            let key = keys[next];
            assert(self.strings@.contains_key(keys@[next as int].model()));
            if let Some(text) = self.strings.get(&key) {
                strings.insert(key, text.duplicate());
            }
            next = next + 1;
            proof {
                let more = keys@.take(next as int);
                assert forall|k: StrHash| #[trigger] strings@.contains_key(k) <==> occurs(more, k) by {
                    assert(before.contains_key(k) <==> occurs(seen, k));
                    if occurs(seen, k) {
                        let i = choose|i: int| 0 <= i < seen.len() && (#[trigger] seen[i]).model() == k;
                        assert(more[i].model() == k);
                    }
                    if occurs(more, k) && k != key {
                        let i = choose|i: int| 0 <= i < more.len() && (#[trigger] more[i]).model() == k;
                        assert(seen[i].model() == k);
                    }
                    assert(more[next - 1].model() == key);
                }
                assert forall|k: StrHash| #[trigger] strings@.contains_key(k) implies strings@[k]@
                    == self.strings@[k]@ by {
                    assert(k == key || before.contains_key(k));
                }
            }
        }
        let copy = QuadTable {
            quads: self.quads.duplicate(),
            graphs: self.graphs.duplicate(),
            strings,
            damage: self.damage,
        };
        proof {
            assert(keys@.take(next as int) =~= keys@);
            assert forall|k: StrHash| #[trigger]
                copy.strings().contains_key(k) == self.strings().contains_key(k) by {
                assert(copy.strings@.contains_key(k) <==> occurs(keys@, k));
            }
            assert(copy.strings() =~= self.strings());
        }
        copy
    }

    /// How the quads of this table differ from those of an earlier one: each quad that
    /// came with `true`, each that went with `false`.
    pub fn changes_since(&self, earlier: &QuadTable) -> (changes: Vec<(EncodedQuad, bool)>)
        requires
            self.wf(),
            earlier.wf(),
        ensures
            reports(as_deltas(changes@), earlier.quads(), self.quads()),
    {
        let mut changes: Vec<(EncodedQuad, bool)> = Vec::new();
        let ghost before = earlier.quads();
        let ghost after = self.quads();
        let added = self.quads.items();
        let mut next: usize = 0;
        while next < added.len()
            invariant
                self.wf(),
                earlier.wf(),
                before == earlier.quads(),
                after == self.quads(),
                lists(added@, after),
                next <= added@.len(),
                forall|i: int|
                    0 <= i < changes@.len() ==> (#[trigger] changes@[i]).1 && !before.contains(
                        changes@[i].0,
                    ) && occurs(added@.take(next as int), changes@[i].0),
                forall|i: int, j: int|
                    0 <= i < j < changes@.len() ==> (#[trigger] changes@[i]).0 != (
                    #[trigger] changes@[j]).0,
                forall|i: int|
                    0 <= i < next && !before.contains(#[trigger] added@[i]) ==> reported(
                        as_deltas(changes@),
                        added@[i],
                    ),
            decreases added@.len() - next,
        {
            let ghost old_changes = changes@;
            let ghost seen = added@.take(next as int);
            let quad = added[next];
            if !earlier.quads.contains(&quad) {
                changes.push((quad, true));
            }
            next = next + 1;
            proof {
                let more = added@.take(next as int);
                assert forall|i: int| 0 <= i < changes@.len() implies (#[trigger] changes@[i]).1
                    && !before.contains(changes@[i].0) && occurs(more, changes@[i].0) by {
                    if i < old_changes.len() {
                        assert(occurs(seen, old_changes[i].0));
                        let j = choose|j: int|
                            0 <= j < seen.len() && (#[trigger] seen[j]).model() == old_changes[i].0;
                        assert(more[j].model() == old_changes[i].0);
                    } else {
                        assert(more[next - 1].model() == quad);
                    }
                }
                assert forall|i: int, j: int| 0 <= i < j < changes@.len() implies (
                #[trigger] changes@[i]).0 != (#[trigger] changes@[j]).0 by {
                    if j < old_changes.len() {
                        assert(old_changes[i].0 != old_changes[j].0);
                    } else {
                        assert(occurs(seen, old_changes[i].0));
                        let k = choose|k: int|
                            0 <= k < seen.len() && (#[trigger] seen[k]).model() == old_changes[i].0;
                        assert(added@[k].model() != added@[next - 1].model());
                    }
                }
                lemma_still_reported(old_changes, changes@);
                assert forall|i: int|
                    0 <= i < next && !before.contains(#[trigger] added@[i]) implies reported(
                    as_deltas(changes@),
                    added@[i],
                ) by {
                    if i < next - 1 {
                        assert(reported(as_deltas(old_changes), added@[i]));
                    } else {
                        assert(as_deltas(changes@)[changes@.len() - 1].value_of() == quad);
                    }
                }
            }
        }
        assert(added@.take(next as int) =~= added@);
        let ghost additions = changes@;
        proof {
            assert forall|i: int| 0 <= i < additions.len() implies after.contains(
                (#[trigger] additions[i]).0,
            ) by {
                assert(occurs(added@, additions[i].0));
            }
            assert forall|quad: EncodedQuad|
                after.contains(quad) && !before.contains(quad) implies #[trigger] reported(
                as_deltas(additions),
                quad,
            ) by {
                assert(occurs(added@, quad));
                let i = choose|i: int| 0 <= i < added@.len() && (#[trigger] added@[i]).model() == quad;
                assert(reported(as_deltas(additions), added@[i]));
            }
        }
        let removed = earlier.quads.items();
        let mut next: usize = 0;
        while next < removed.len()
            invariant
                self.wf(),
                earlier.wf(),
                before == earlier.quads(),
                after == self.quads(),
                lists(removed@, before),
                next <= removed@.len(),
                additions.len() <= changes@.len(),
                forall|i: int|
                    0 <= i < additions.len() ==> (#[trigger] changes@[i]) == additions[i] && changes@[i].1
                        && !before.contains(changes@[i].0) && after.contains(changes@[i].0),
                forall|i: int|
                    additions.len() <= i < changes@.len() ==> !(#[trigger] changes@[i]).1
                        && !after.contains(changes@[i].0) && occurs(
                        removed@.take(next as int),
                        changes@[i].0,
                    ) && before.contains(changes@[i].0),
                forall|i: int, j: int|
                    0 <= i < j < changes@.len() ==> (#[trigger] changes@[i]).0 != (
                    #[trigger] changes@[j]).0,
                forall|quad: EncodedQuad|
                    after.contains(quad) && !before.contains(quad) ==> #[trigger] reported(
                        as_deltas(changes@),
                        quad,
                    ),
                forall|i: int|
                    0 <= i < next && !after.contains(#[trigger] removed@[i]) ==> reported(
                        as_deltas(changes@),
                        removed@[i],
                    ),
            decreases removed@.len() - next,
        {
            let ghost old_changes = changes@;
            let ghost seen = removed@.take(next as int);
            let quad = removed[next];
            assert(before.contains(removed@[next as int].model()));
            if !self.quads.contains(&quad) {
                changes.push((quad, false));
            }
            next = next + 1;
            proof {
                let more = removed@.take(next as int);
                assert forall|i: int| additions.len() <= i < changes@.len() implies !(
                #[trigger] changes@[i]).1 && !after.contains(changes@[i].0) && occurs(
                    more,
                    changes@[i].0,
                ) && before.contains(changes@[i].0) by {
                    if i < old_changes.len() {
                        assert(occurs(seen, old_changes[i].0));
                        let j = choose|j: int|
                            0 <= j < seen.len() && (#[trigger] seen[j]).model() == old_changes[i].0;
                        assert(more[j].model() == old_changes[i].0);
                    } else {
                        assert(more[next - 1].model() == quad);
                    }
                }
                assert forall|i: int, j: int| 0 <= i < j < changes@.len() implies (
                #[trigger] changes@[i]).0 != (#[trigger] changes@[j]).0 by {
                    if j < old_changes.len() {
                        assert(old_changes[i].0 != old_changes[j].0);
                    } else if i >= additions.len() {
                        assert(occurs(seen, old_changes[i].0));
                        let k = choose|k: int|
                            0 <= k < seen.len() && (#[trigger] seen[k]).model() == old_changes[i].0;
                        assert(removed@[k].model() != removed@[next - 1].model());
                    } else {
                        assert(old_changes[i].1);
                    }
                }
                lemma_still_reported(old_changes, changes@);
                assert forall|q: EncodedQuad|
                    after.contains(q) && !before.contains(q) implies #[trigger] reported(
                    as_deltas(changes@),
                    q,
                ) by {
                    assert(reported(as_deltas(old_changes), q));
                }
                assert forall|i: int|
                    0 <= i < next && !after.contains(#[trigger] removed@[i]) implies reported(
                    as_deltas(changes@),
                    removed@[i],
                ) by {
                    if i < next - 1 {
                        assert(reported(as_deltas(old_changes), removed@[i]));
                    } else {
                        assert(as_deltas(changes@)[changes@.len() - 1].value_of() == quad);
                    }
                }
            }
        }
        proof {
            let deltas = as_deltas(changes@);
            assert forall|i: int, j: int| 0 <= i < j < deltas.len() implies (
            #[trigger] deltas[i]).value_of() != (#[trigger] deltas[j]).value_of() by {
                assert(changes@[i].0 != changes@[j].0);
            }
            assert forall|i: int| 0 <= i < deltas.len() implies differs(
                #[trigger] deltas[i],
                before,
                after,
            ) by {
                if i < additions.len() {
                    assert(changes@[i] == additions[i]);
                } else {
                    assert(!changes@[i].1);
                }
            }
            assert forall|quad: EncodedQuad|
                before.contains(quad) != after.contains(quad) implies #[trigger] reported(
                deltas,
                quad,
            ) by {
                if before.contains(quad) {
                    assert(occurs(removed@, quad));
                    let i = choose|i: int|
                        0 <= i < removed@.len() && (#[trigger] removed@[i]).model() == quad;
                    assert(reported(deltas, removed@[i]));
                }
            }
        }
        changes
    }
}

/// What was reported stays reported when changes are appended.
proof fn lemma_still_reported(fewer: Seq<(EncodedQuad, bool)>, more: Seq<(EncodedQuad, bool)>)
    requires
        fewer.len() <= more.len(),
        forall|i: int| 0 <= i < fewer.len() ==> fewer[i] == #[trigger] more[i],
    ensures
        forall|quad: EncodedQuad|
            reported(as_deltas(fewer), quad) ==> #[trigger] reported(as_deltas(more), quad),
{
    assert forall|quad: EncodedQuad| reported(as_deltas(fewer), quad) implies #[trigger] reported(
        as_deltas(more),
        quad,
    ) by {
        let i = choose|i: int|
            0 <= i < fewer.len() && (#[trigger] as_deltas(fewer)[i]).value_of() == quad;
        assert(fewer[i] == more[i]);
        assert(as_deltas(more)[i].value_of() == quad);
    }
}

/// The strings after one more was put.
pub open spec fn with_string(
    strings: Map<StrHash, Seq<u8>>,
    key: StrHash,
    text: Seq<u8>,
) -> Map<StrHash, Seq<u8>> {
    if strings.contains_key(key) {
        strings
    } else {
        strings.insert(key, text)
    }
}

/// A pattern that asks for nothing selects every quad. Asking for a term at a position leaves
/// those quads that have the term there, and no other.
pub proof fn law_patterns_select_position_by_position(
    pattern: QuadPattern,
    term: EncodedTerm,
    quad: EncodedQuad,
)
    ensures
        selects(
            QuadPattern { subject: None, predicate: None, object: None, graph_name: None },
            quad,
        ),
        selects(QuadPattern { subject: Some(term), ..pattern }, quad) <==> quad.subject == term
            && selects(QuadPattern { subject: None, ..pattern }, quad),
        selects(QuadPattern { predicate: Some(term), ..pattern }, quad) <==> quad.predicate == term
            && selects(QuadPattern { predicate: None, ..pattern }, quad),
        selects(QuadPattern { object: Some(term), ..pattern }, quad) <==> quad.object == term
            && selects(QuadPattern { object: None, ..pattern }, quad),
        selects(QuadPattern { graph_name: Some(term), ..pattern }, quad) <==> quad.graph_name
            == term && selects(QuadPattern { graph_name: None, ..pattern }, quad),
        selects(any_quad(), quad),
{
}

/// A clearing of a graph removes the quads of that graph, one of the named graphs those of all
/// graphs but the default graph, and one of all graphs every quad.
pub proof fn law_clearings_cover_whole_graphs(quad: EncodedQuad, name: EncodedTerm)
    ensures
        covers(ClearScope::Graph(name), quad) <==> quad.graph_name == name,
        covers(ClearScope::AllGraphs, quad),
        covers(ClearScope::NamedGraphs, quad) != covers(
            ClearScope::Graph(EncodedTerm::DefaultGraph),
            quad,
        ),
{
}

/// What one step of a write does to a quad: putting it makes it present, deleting it or
/// clearing its graph makes it absent, and nothing else touches it.
pub proof fn law_steps_touch_the_quads_they_name(
    quads: Set<EncodedQuad>,
    put: EncodedQuad,
    scope: ClearScope,
    name: EncodedTerm,
    quad: EncodedQuad,
)
    ensures
        quads_after(quads, WriteOp::PutQuad(put)).contains(quad) <==> quad == put
            || quads.contains(quad),
        quads_after(quads, WriteOp::DeleteQuad(put)).contains(quad) <==> quad != put
            && quads.contains(quad),
        quads_after(quads, WriteOp::ClearQuads(scope)).contains(quad) <==> !covers(scope, quad)
            && quads.contains(quad),
        quads_after(quads, WriteOp::PutGraph(name)).contains(quad) <==> quads.contains(quad),
        quads_after(quads, WriteOp::DeleteGraph(name)).contains(quad) <==> quads.contains(quad),
        quads_after(quads, WriteOp::ForgetGraphs).contains(quad) <==> quads.contains(quad),
{
}

/// What one step of a write does to the name of a graph: putting the graph, or a quad into it,
/// makes it known, deleting it makes it unknown, and emptying it leaves it as it is.
pub proof fn law_steps_touch_the_graphs_they_name(
    graphs: Set<EncodedTerm>,
    put: EncodedQuad,
    scope: ClearScope,
    name: EncodedTerm,
    other: EncodedTerm,
)
    ensures
        graphs_after(graphs, WriteOp::PutQuad(put)).contains(other) <==> graphs.contains(other) || (
        other == put.graph_name && other != EncodedTerm::DefaultGraph),
        graphs_after(graphs, WriteOp::PutGraph(name)).contains(other) <==> graphs.contains(other)
            || other == name,
        graphs_after(graphs, WriteOp::DeleteGraph(name)).contains(other) <==> graphs.contains(other)
            && other != name,
        !graphs_after(graphs, WriteOp::ForgetGraphs).contains(other),
        graphs_after(graphs, WriteOp::DeleteQuad(put)).contains(other) <==> graphs.contains(other),
        graphs_after(graphs, WriteOp::ClearQuads(scope)).contains(other) <==> graphs.contains(
            other,
        ),
{
}

/// A write does its steps one after the other: its first steps leave what the other ones start
/// from.
pub proof fn law_steps_follow_each_other(
    quads: Set<EncodedQuad>,
    graphs: Set<EncodedTerm>,
    first: Seq<WriteOp>,
    then: Seq<WriteOp>,
    op: WriteOp,
)
    ensures
        quads_written(quads, first + then) == quads_written(quads_written(quads, first), then),
        graphs_written(graphs, first + then) == graphs_written(graphs_written(graphs, first), then),
        quads_written(quads, seq![op]) == quads_after(quads, op),
        graphs_written(graphs, seq![op]) == graphs_after(graphs, op),
        quads_written(quads, Seq::empty()) == quads,
        graphs_written(graphs, Seq::empty()) == graphs,
    decreases then.len(),
{
    reveal_with_fuel(quads_written, 2);
    reveal_with_fuel(graphs_written, 2);
    assert(seq![op].drop_last() =~= Seq::<WriteOp>::empty());
    if then.len() == 0 {
        assert(first + then =~= first);
    } else {
        law_steps_follow_each_other(quads, graphs, first, then.drop_last(), op);
        assert((first + then).drop_last() =~= first + then.drop_last());
    }
}

/// Changes that report how contents differ lead from the ones to the others: what is there
/// afterwards is what was added, and what was there before and was not deleted.
pub proof fn law_reported_changes_lead_to_what_is_there(
    changes: Seq<Delta<EncodedQuad>>,
    before: Set<EncodedQuad>,
    after: Set<EncodedQuad>,
    quad: EncodedQuad,
)
    requires
        reports(changes, before, after),
    ensures
        after.contains(quad) <==> changes.contains(Delta::Addition(quad)) || (before.contains(quad)
            && !changes.contains(Delta::Deletion(quad))),
        changes.contains(Delta::Addition(quad)) ==> !before.contains(quad),
        changes.contains(Delta::Deletion(quad)) ==> before.contains(quad),
        forall|i: int, j: int|
            0 <= i < j < changes.len() ==> (#[trigger] changes[i]) != (#[trigger] changes[j]),
{
    if changes.contains(Delta::Addition(quad)) {
        let i = choose|i: int| 0 <= i < changes.len() && changes[i] == Delta::Addition(quad);
        assert(differs(changes[i], before, after));
    }
    if changes.contains(Delta::Deletion(quad)) {
        let i = choose|i: int| 0 <= i < changes.len() && changes[i] == Delta::Deletion(quad);
        assert(differs(changes[i], before, after));
    }
    if before.contains(quad) != after.contains(quad) {
        assert(reported(changes, quad));
        let i = choose|i: int| 0 <= i < changes.len() && (#[trigger] changes[i]).value_of() == quad;
        assert(differs(changes[i], before, after));
        match changes[i] {
            Delta::Addition(other) => {
                assert(changes.contains(Delta::Addition(quad)));
            },
            Delta::Deletion(other) => {
                assert(changes.contains(Delta::Deletion(quad)));
            },
        }
    }
}

/// A change makes its quad present or absent.
pub proof fn law_changes_make_quads_present_or_absent(quad: EncodedQuad)
    ensures
        as_delta((quad, true)) == Delta::Addition(quad),
        as_delta((quad, false)) == Delta::Deletion(quad),
{
}

/// A string that is known under a hash stays; one under a new hash is known from then on.
pub proof fn law_first_string_of_a_hash_stays(
    strings: Map<StrHash, Seq<u8>>,
    key: StrHash,
    text: Seq<u8>,
    other: StrHash,
)
    ensures
        with_string(strings, key, text).contains_key(other) <==> strings.contains_key(other)
            || other == key,
        strings.contains_key(other) ==> with_string(strings, key, text)[other] == strings[other],
        !strings.contains_key(key) ==> with_string(strings, key, text)[key] == text,
{
}

} // verus!
