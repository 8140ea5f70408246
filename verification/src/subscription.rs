//! Who wants to hear of which changes.

use crate::fx::{lists, occurs, FxMap, FxSet};
use crate::numeric_encoder::{EncodedQuad, EncodedTerm};
use crate::table::{selects, QuadPattern};
use vstd::prelude::*;

verus! {

/// The quads of a subscription. Of the graph name the outer `None` stands for any graph
/// and the inner `None` for the default graph.
#[derive(Clone, Copy, PartialEq, Eq, Structural, Debug)]
pub struct IncrementalQuadPattern {
    pub subject: Option<EncodedTerm>,
    pub predicate: Option<EncodedTerm>,
    pub object: Option<EncodedTerm>,
    pub graph_name: Option<Option<EncodedTerm>>,
}

/// The graph of a pattern, where the default graph has its own name.
pub open spec fn graph_wanted(graph_name: Option<Option<EncodedTerm>>) -> Option<EncodedTerm> {
    match graph_name {
        None => None,
        Some(None) => Some(EncodedTerm::DefaultGraph),
        Some(Some(name)) => Some(name),
    }
}

/// The pattern by which the quads of a subscription are read from a store.
pub open spec fn read_pattern(pattern: IncrementalQuadPattern) -> QuadPattern {
    QuadPattern {
        subject: pattern.subject,
        predicate: pattern.predicate,
        object: pattern.object,
        graph_name: graph_wanted(pattern.graph_name),
    }
}

/// Whether a subscription hears of a quad.
pub open spec fn watches(pattern: IncrementalQuadPattern, quad: EncodedQuad) -> bool {
    selects(read_pattern(pattern), quad)
}

/// The graph of a pattern, where the default graph has its own name.
pub fn wanted_graph(graph_name: Option<Option<EncodedTerm>>) -> (name: Option<EncodedTerm>)
    ensures
        name == graph_wanted(graph_name),
{
    match graph_name {
        None => None,
        Some(None) => Some(EncodedTerm::DefaultGraph),
        Some(Some(name)) => Some(name),
    }
}

impl IncrementalQuadPattern {
    pub fn matches(&self, quad: &EncodedQuad) -> (result: bool)
        ensures
            result == watches(*self, *quad),
    {
        (match self.subject {
            Some(subject) => quad.subject == subject,
            None => true,
        }) && (match self.predicate {
            Some(predicate) => quad.predicate == predicate,
            None => true,
        }) && (match self.object {
            Some(object) => quad.object == object,
            None => true,
        }) && (match self.graph_name {
            Some(Some(name)) => quad.graph_name == name,
            Some(None) => quad.graph_name.is_default_graph(),
            None => true,
        })
    }

    /// The pattern by which the quads are read from a store.
    pub fn to_read_pattern(&self) -> (pattern: QuadPattern)
        ensures
            pattern == read_pattern(*self),
    {
        QuadPattern {
            subject: self.subject,
            predicate: self.predicate,
            object: self.object,
            graph_name: wanted_graph(self.graph_name),
        }
    }
}

/// A position of a quad.
#[derive(Clone, Copy, PartialEq, Eq, Structural, Debug)]
pub enum QuadField {
    Subject,
    Predicate,
    Object,
    GraphName,
}

/// What a subscription asks for at a position.
pub open spec fn wanted(pattern: IncrementalQuadPattern, field: QuadField) -> Option<EncodedTerm> {
    match field {
        QuadField::Subject => pattern.subject,
        QuadField::Predicate => pattern.predicate,
        QuadField::Object => pattern.object,
        QuadField::GraphName => graph_wanted(pattern.graph_name),
    }
}

/// The term of a quad at a position.
pub open spec fn component(quad: EncodedQuad, field: QuadField) -> EncodedTerm {
    match field {
        QuadField::Subject => quad.subject,
        QuadField::Predicate => quad.predicate,
        QuadField::Object => quad.object,
        QuadField::GraphName => quad.graph_name,
    }
}

/// Whether a subscription asks for nothing in particular.
pub open spec fn unconstrained(pattern: IncrementalQuadPattern) -> bool {
    forall|field: QuadField| #[trigger] wanted(pattern, field) is None
}

/// The subscriptions that are filed under a term.
pub open spec fn filed(index: Map<EncodedTerm, FxSet<usize>>, key: EncodedTerm) -> Set<usize> {
    if index.contains_key(key) {
        index[key]@
    } else {
        Set::empty()
    }
}

/// Whether the sets of an index are valid and none of them is empty.
pub open spec fn index_wf(index: FxMap<EncodedTerm, FxSet<usize>>) -> bool {
    &&& index.wf()
    &&& forall|key: EncodedTerm| #[trigger]
        index@.contains_key(key) ==> index@[key].wf() && index@[key]@ != Set::<usize>::empty()
}

fn insert_subscription_index_entry(
    index: &mut FxMap<EncodedTerm, FxSet<usize>>,
    key: EncodedTerm,
    id: usize,
)
    requires
        index_wf(*old(index)),
    ensures
        index_wf(*final(index)),
        forall|other: EncodedTerm| #[trigger]
            filed(final(index)@, other) == if other == key {
                filed(old(index)@, other).insert(id)
            } else {
                filed(old(index)@, other)
            },
{
    let ghost before = index@;
    let mut ids = match index.remove(&key) {
        Some(ids) => ids,
        None => FxSet::new(),
    };
    let ghost known = ids@;
    assert(known == filed(before, key));
    ids.insert(id);
    let ghost more = ids;
    assert(more@.contains(id));
    index.insert(key, ids);
    proof {
        assert(index@ =~= before.insert(key, more));
        assert forall|other: EncodedTerm| #[trigger]
            index@.contains_key(other) implies index@[other].wf() && index@[other]@
            != Set::<usize>::empty() by {
            if other != key {
                assert(before.contains_key(other));
            }
        }
    }
}

/// Takes a subscription out of those filed under a term.
fn remove_subscription_index_entry(
    index: &mut FxMap<EncodedTerm, FxSet<usize>>,
    key: &EncodedTerm,
    id: usize,
)
    requires
        index_wf(*old(index)),
    ensures
        index_wf(*final(index)),
        forall|other: EncodedTerm| #[trigger]
            filed(final(index)@, other) == if other == *key {
                filed(old(index)@, other).remove(id)
            } else {
                filed(old(index)@, other)
            },
{
    let ghost before = index@;
    match index.remove(key) {
        Some(mut ids) => {
            assert(before[*key].wf());
            ids.remove(&id);
            let ghost fewer = ids;
            if !ids.is_empty() {
                index.insert(*key, ids);
                assert(index@ =~= before.insert(*key, fewer));
            } else {
                assert(index@ =~= before.remove(*key));
            }
            proof {
                assert forall|other: EncodedTerm| #[trigger]
                    index@.contains_key(other) implies index@[other].wf() && index@[other]@
                    != Set::<usize>::empty() by {
                    if other != *key {
                        assert(before.contains_key(other));
                    }
                }
            }
        },
        None => {
            assert(index@ =~= before);
            assert(filed(before, *key).remove(id) =~= filed(before, *key));
        },
    }
}

/// Finds the subscriptions that may be interested in a quad without looking at the others.
pub struct IncrementalSubscriptionIndex {
    unconstrained: FxSet<usize>,
    by_subject: FxMap<EncodedTerm, FxSet<usize>>,
    by_predicate: FxMap<EncodedTerm, FxSet<usize>>,
    by_object: FxMap<EncodedTerm, FxSet<usize>>,
    by_graph_name: FxMap<EncodedTerm, FxSet<usize>>,
}

impl IncrementalSubscriptionIndex {
    pub closed spec fn unconstrained_ids(&self) -> Set<usize> {
        self.unconstrained@
    }

    /// The subscriptions that ask for a term at a position.
    pub closed spec fn ids(&self, field: QuadField, key: EncodedTerm) -> Set<usize> {
        match field {
            QuadField::Subject => filed(self.by_subject@, key),
            QuadField::Predicate => filed(self.by_predicate@, key),
            QuadField::Object => filed(self.by_object@, key),
            QuadField::GraphName => filed(self.by_graph_name@, key),
        }
    }

    closed spec fn parts_wf(&self) -> bool {
        &&& self.unconstrained.wf()
        &&& index_wf(self.by_subject)
        &&& index_wf(self.by_predicate)
        &&& index_wf(self.by_object)
        &&& index_wf(self.by_graph_name)
    }

    /// A subscription that asks for nothing in particular is filed under no term.
    pub closed spec fn wf(&self) -> bool {
        &&& self.parts_wf()
        &&& forall|id: usize, field: QuadField, key: EncodedTerm|
            #![trigger self.ids(field, key).contains(id)]
            self.ids(field, key).contains(id) ==> !self.unconstrained_ids().contains(id)
    }

    pub fn new() -> (index: Self)
        ensures
            index.wf(),
            index.unconstrained_ids() == Set::<usize>::empty(),
            forall|field: QuadField, key: EncodedTerm| #[trigger]
                index.ids(field, key) == Set::<usize>::empty(),
    {
        IncrementalSubscriptionIndex {
            unconstrained: FxSet::new(),
            by_subject: FxMap::new(),
            by_predicate: FxMap::new(),
            by_object: FxMap::new(),
            by_graph_name: FxMap::new(),
        }
    }

    /// Files a subscription under each term that it asks for.
    pub fn insert(&mut self, id: usize, pattern: &IncrementalQuadPattern)
        requires
            old(self).wf(),
            !unconstrained(*pattern) ==> !old(self).unconstrained_ids().contains(id),
            unconstrained(*pattern) ==> forall|field: QuadField, key: EncodedTerm|
                !(#[trigger] old(self).ids(field, key)).contains(id),
        ensures
            final(self).wf(),
            final(self).unconstrained_ids() == if unconstrained(*pattern) {
                old(self).unconstrained_ids().insert(id)
            } else {
                old(self).unconstrained_ids()
            },
            forall|field: QuadField, key: EncodedTerm| #[trigger]
                final(self).ids(field, key) == if wanted(*pattern, field) == Some(key) {
                    old(self).ids(field, key).insert(id)
                } else {
                    old(self).ids(field, key)
                },
    {
        let mut constrained = false;
        if let Some(subject) = pattern.subject {
            insert_subscription_index_entry(&mut self.by_subject, subject, id);
            constrained = true;
        }
        if let Some(predicate) = pattern.predicate {
            insert_subscription_index_entry(&mut self.by_predicate, predicate, id);
            constrained = true;
        }
        if let Some(object) = pattern.object {
            insert_subscription_index_entry(&mut self.by_object, object, id);
            constrained = true;
        }
        if let Some(graph_name) = wanted_graph(pattern.graph_name) {
            insert_subscription_index_entry(&mut self.by_graph_name, graph_name, id);
            constrained = true;
        }
        if !constrained {
            self.unconstrained.insert(id);
        }
        proof {
            assert(constrained == !unconstrained(*pattern)) by {
                assert(wanted(*pattern, QuadField::Subject) == pattern.subject);
                assert(wanted(*pattern, QuadField::Predicate) == pattern.predicate);
                assert(wanted(*pattern, QuadField::Object) == pattern.object);
                assert(wanted(*pattern, QuadField::GraphName) == graph_wanted(pattern.graph_name));
            }
            assert forall|field: QuadField, key: EncodedTerm| #[trigger]
                self.ids(field, key) == if wanted(*pattern, field) == Some(key) {
                    old(self).ids(field, key).insert(id)
                } else {
                    old(self).ids(field, key)
                } by {}
            assert forall|other: usize, field: QuadField, key: EncodedTerm|
                #![trigger self.ids(field, key).contains(other)]
                self.ids(field, key).contains(other) implies !self.unconstrained_ids().contains(
                other,
            ) by {
                if old(self).ids(field, key).contains(other) {
                    assert(!old(self).unconstrained_ids().contains(other));
                } else {
                    assert(wanted(*pattern, field) == Some(key));
                    assert(!unconstrained(*pattern));
                }
            }
        }
    }

    /// Takes a subscription out of the index.
    pub fn remove(&mut self, id: usize, pattern: &IncrementalQuadPattern)
        requires
            old(self).wf(),
        ensures
            final(self).wf(),
            final(self).unconstrained_ids() == if unconstrained(*pattern) {
                old(self).unconstrained_ids().remove(id)
            } else {
                old(self).unconstrained_ids()
            },
            forall|field: QuadField, key: EncodedTerm| #[trigger]
                final(self).ids(field, key) == if wanted(*pattern, field) == Some(key) {
                    old(self).ids(field, key).remove(id)
                } else {
                    old(self).ids(field, key)
                },
    {
        if let Some(subject) = &pattern.subject {
            remove_subscription_index_entry(&mut self.by_subject, subject, id);
        }
        if let Some(predicate) = &pattern.predicate {
            remove_subscription_index_entry(&mut self.by_predicate, predicate, id);
        }
        if let Some(object) = &pattern.object {
            remove_subscription_index_entry(&mut self.by_object, object, id);
        }
        if let Some(graph_name) = &wanted_graph(pattern.graph_name) {
            remove_subscription_index_entry(&mut self.by_graph_name, graph_name, id);
        }
        if pattern.subject.is_none() && pattern.predicate.is_none() && pattern.object.is_none()
            && pattern.graph_name.is_none() {
            self.unconstrained.remove(&id);
        }
        proof {
            assert((pattern.subject.is_none() && pattern.predicate.is_none()
                && pattern.object.is_none() && pattern.graph_name.is_none()) == unconstrained(
                *pattern,
            )) by {
                assert(wanted(*pattern, QuadField::Subject) == pattern.subject);
                assert(wanted(*pattern, QuadField::Predicate) == pattern.predicate);
                assert(wanted(*pattern, QuadField::Object) == pattern.object);
                assert(wanted(*pattern, QuadField::GraphName) == graph_wanted(pattern.graph_name));
            }
            assert forall|field: QuadField, key: EncodedTerm| #[trigger]
                self.ids(field, key) == if wanted(*pattern, field) == Some(key) {
                    old(self).ids(field, key).remove(id)
                } else {
                    old(self).ids(field, key)
                } by {}
            assert forall|other: usize, field: QuadField, key: EncodedTerm|
                #![trigger self.ids(field, key).contains(other)]
                self.ids(field, key).contains(other) implies !self.unconstrained_ids().contains(
                other,
            ) by {
                assert(old(self).ids(field, key).contains(other));
            }
        }
    }

    /// Whether the index names a subscription for a quad.
    pub open spec fn names(&self, quad: EncodedQuad, id: usize) -> bool {
        ||| self.unconstrained_ids().contains(id)
        ||| self.ids(QuadField::Subject, quad.subject).contains(id)
        ||| self.ids(QuadField::Predicate, quad.predicate).contains(id)
        ||| self.ids(QuadField::Object, quad.object).contains(id)
        ||| self.ids(QuadField::GraphName, quad.graph_name).contains(id)
    }

    /// The subscriptions that may be interested in a quad, each once: those that ask for
    /// nothing in particular and those that ask for a term of the quad.
    pub fn for_each_candidate(&self, quad: &EncodedQuad) -> (candidates: Vec<usize>)
        requires
            self.wf(),
        ensures
            candidates@.no_duplicates(),
            forall|id: usize| #[trigger] candidates@.contains(id) <==> self.names(*quad, id),
    {
        let mut candidates: Vec<usize> = self.unconstrained.items();
        proof {
            lemma_listed_ids(candidates@, self.unconstrained@);
        }
        let subject_ids = self.by_subject.get(&quad.subject);
        let predicate_ids = self.by_predicate.get(&quad.predicate);
        let object_ids = self.by_object.get(&quad.object);
        let graph_name_ids = self.by_graph_name.get(&quad.graph_name);
        let mut matching: usize = 0;
        if subject_ids.is_some() {
            matching = matching + 1;
        }
        if predicate_ids.is_some() {
            matching = matching + 1;
        }
        if object_ids.is_some() {
            matching = matching + 1;
        }
        if graph_name_ids.is_some() {
            matching = matching + 1;
        }
        proof {
            assert(members(subject_ids) == self.ids(QuadField::Subject, quad.subject));
            assert(members(predicate_ids) == self.ids(QuadField::Predicate, quad.predicate));
            assert(members(object_ids) == self.ids(QuadField::Object, quad.object));
            assert(members(graph_name_ids) == self.ids(QuadField::GraphName, quad.graph_name));
            assert forall|id: usize| #[trigger] members(subject_ids).contains(id) || members(
                predicate_ids,
            ).contains(id) || members(object_ids).contains(id) || members(graph_name_ids).contains(
                id,
            ) implies !candidates@.contains(id) by {
                assert(self.ids(QuadField::Subject, quad.subject).contains(id)
                    ==> !self.unconstrained_ids().contains(id));
                assert(self.ids(QuadField::Predicate, quad.predicate).contains(id)
                    ==> !self.unconstrained_ids().contains(id));
                assert(self.ids(QuadField::Object, quad.object).contains(id)
                    ==> !self.unconstrained_ids().contains(id));
                assert(self.ids(QuadField::GraphName, quad.graph_name).contains(id)
                    ==> !self.unconstrained_ids().contains(id));
            }
        }
        if matching < 2 {
            extend_all(&mut candidates, subject_ids);
            extend_all(&mut candidates, predicate_ids);
            extend_all(&mut candidates, object_ids);
            extend_all(&mut candidates, graph_name_ids);
            return candidates;
        }
        let mut visited: FxSet<usize> = FxSet::new();
        let ghost start = candidates@;
        extend_unvisited(&mut candidates, &mut visited, subject_ids, Ghost(start));
        extend_unvisited(&mut candidates, &mut visited, predicate_ids, Ghost(start));
        extend_unvisited(&mut candidates, &mut visited, object_ids, Ghost(start));
        extend_unvisited(&mut candidates, &mut visited, graph_name_ids, Ghost(start));
        candidates
    }
}

spec fn members(ids: Option<&FxSet<usize>>) -> Set<usize> {
    match ids {
        Some(ids) => ids@,
        None => Set::empty(),
    }
}

proof fn lemma_listed_ids(items: Seq<usize>, ids: Set<usize>)
    requires
        lists(items, ids),
    ensures
        items.no_duplicates(),
        forall|id: usize| #[trigger] items.contains(id) <==> ids.contains(id),
{
    assert forall|i: int, j: int| 0 <= i < items.len() && 0 <= j < items.len() && i != j implies items[i]
        != items[j] by {
        if i < j {
            assert(crate::fx::FxKey::model(&items[i]) != crate::fx::FxKey::model(&items[j]));
        } else {
            assert(crate::fx::FxKey::model(&items[j]) != crate::fx::FxKey::model(&items[i]));
        }
    }
    assert forall|id: usize| #[trigger] items.contains(id) <==> ids.contains(id) by {
        if items.contains(id) {
            let i = choose|i: int| 0 <= i < items.len() && items[i] == id;
            assert(ids.contains(crate::fx::FxKey::model(&items[i])));
        }
        if ids.contains(id) {
            assert(occurs(items, id));
        }
    }
}

/// Appends the members of a set, none of which is there already.
fn extend_all(candidates: &mut Vec<usize>, ids: Option<&FxSet<usize>>)
    requires
        old(candidates)@.no_duplicates(),
        ids matches Some(ids) ==> ids.wf(),
        forall|id: usize| #[trigger]
            members(ids).contains(id) ==> !old(candidates)@.contains(id),
    ensures
        final(candidates)@.no_duplicates(),
        forall|id: usize| #[trigger]
            final(candidates)@.contains(id) <==> old(candidates)@.contains(id) || members(
                ids,
            ).contains(id),
{
    let ghost before = candidates@;
    if let Some(ids) = ids {
        let mut items = ids.items();
        proof {
            lemma_listed_ids(items@, ids@);
        }
        let ghost added = items@;
        candidates.append(&mut items);
        proof {
            let all = candidates@;
            assert(all =~= before + added);
            assert forall|i: int, j: int| 0 <= i < all.len() && 0 <= j < all.len() && i
                != j implies all[i] != all[j] by {
                if i < before.len() && j >= before.len() {
                    assert(added.contains(all[j]));
                    assert(members(Some(ids)).contains(all[j]));
                    assert(before.contains(all[i]));
                } else if j < before.len() && i >= before.len() {
                    assert(added.contains(all[i]));
                    assert(members(Some(ids)).contains(all[i]));
                    assert(before.contains(all[j]));
                }
            }
            assert forall|id: usize| #[trigger] all.contains(id) <==> before.contains(id)
                || members(Some(ids)).contains(id) by {
                if before.contains(id) {
                    let i = choose|i: int| 0 <= i < before.len() && before[i] == id;
                    assert(all[i] == id);
                }
                if added.contains(id) {
                    let i = choose|i: int| 0 <= i < added.len() && added[i] == id;
                    assert(all[before.len() + i] == id);
                }
                if all.contains(id) {
                    let i = choose|i: int| 0 <= i < all.len() && all[i] == id;
                    if i >= before.len() {
                        assert(added[i - before.len()] == id);
                    }
                }
                assert(added.contains(id) <==> ids@.contains(id));
            }
        }
    }
}

/// Appends the members of a set that were not visited before.
fn extend_unvisited(
    candidates: &mut Vec<usize>,
    visited: &mut FxSet<usize>,
    ids: Option<&FxSet<usize>>,
    Ghost(start): Ghost<Seq<usize>>,
)
    requires
        old(visited).wf(),
        old(candidates)@.no_duplicates(),
        ids matches Some(ids) ==> ids.wf(),
        forall|id: usize| #[trigger]
            old(candidates)@.contains(id) <==> start.contains(id) || old(visited)@.contains(id),
        forall|id: usize| #[trigger] members(ids).contains(id) ==> !start.contains(id),
    ensures
        final(visited).wf(),
        final(candidates)@.no_duplicates(),
        forall|id: usize| #[trigger]
            final(candidates)@.contains(id) <==> start.contains(id) || final(visited)@.contains(id),
        forall|id: usize| #[trigger]
            final(visited)@.contains(id) <==> old(visited)@.contains(id) || members(ids).contains(
                id,
            ),
{
    if let Some(ids) = ids {
        let items = ids.items();
        let ghost visited_before = visited@;
        proof {
            lemma_listed_ids(items@, ids@);
            assert forall|id: usize| #[trigger] items@.contains(id) implies !start.contains(id) by {
                assert(members(Some(ids)).contains(id));
            }
        }
        let mut next: usize = 0;
        while next < items.len()
            invariant
                next <= items@.len(),
                visited.wf(),
                candidates@.no_duplicates(),
                forall|id: usize| #[trigger] items@.contains(id) ==> !start.contains(id),
                forall|id: usize| #[trigger]
                    candidates@.contains(id) <==> start.contains(id) || visited@.contains(id),
                forall|id: usize| #[trigger]
                    visited@.contains(id) <==> visited_before.contains(id) || items@.take(
                        next as int,
                    ).contains(id),
            decreases items@.len() - next,
        {
            let id = items[next];
            let ghost seen = items@.take(next as int);
            let ghost before = candidates@;
            let ghost visited_now = visited@;
            assert(items@.contains(id));
            if visited.insert(id) {
                candidates.push(id);
            }
            next = next + 1;
            proof {
                let more = items@.take(next as int);
                assert(more =~= seen.push(id));
                assert forall|other: usize| #[trigger] more.contains(other) <==> seen.contains(other)
                    || other == id by {
                    if seen.contains(other) {
                        let i = choose|i: int| 0 <= i < seen.len() && seen[i] == other;
                        assert(more[i] == other);
                    }
                    if more.contains(other) {
                        let i = choose|i: int| 0 <= i < more.len() && more[i] == other;
                        if i < seen.len() {
                            assert(seen[i] == other);
                        }
                    }
                    assert(more[seen.len() as int] == id);
                }
                assert forall|other: usize| #[trigger]
                    visited@.contains(other) <==> visited_before.contains(other) || more.contains(
                        other,
                    ) by {
                    assert(visited_now.contains(other) <==> visited_before.contains(other)
                        || seen.contains(other));
                }
                assert forall|other: usize| #[trigger] candidates@.contains(other) <==> start.contains(
                    other,
                ) || visited@.contains(other) by {
                    assert(before.contains(other) <==> start.contains(other)
                        || visited_now.contains(other));
                    if candidates@.len() > before.len() {
                        if before.contains(other) {
                            let i = choose|i: int| 0 <= i < before.len() && before[i] == other;
                            assert(candidates@[i] == other);
                        }
                        if candidates@.contains(other) {
                            let i = choose|i: int|
                                0 <= i < candidates@.len() && candidates@[i] == other;
                            if i < before.len() {
                                assert(before[i] == other);
                            }
                        }
                        assert(candidates@[before.len() as int] == id);
                    }
                }
                if candidates@.len() > before.len() {
                    assert(!before.contains(id));
                }
            }
        }
        assert(items@.take(next as int) =~= items@);
    }
}

/// A subscription hears of the quads that have the terms that it asks for, of every graph or
/// of the default graph or of a graph that has a name. It is read from a store by a pattern
/// that selects just those quads.
pub proof fn law_subscriptions_watch_what_they_ask_for(
    pattern: IncrementalQuadPattern,
    quad: EncodedQuad,
)
    ensures
        watches(pattern, quad) <==> {
            &&& pattern.subject is None || pattern.subject == Some(quad.subject)
            &&& pattern.predicate is None || pattern.predicate == Some(quad.predicate)
            &&& pattern.object is None || pattern.object == Some(quad.object)
            &&& match pattern.graph_name {
                None => true,
                Some(None) => quad.graph_name == EncodedTerm::DefaultGraph,
                Some(Some(name)) => quad.graph_name == name,
            }
        },
        selects(read_pattern(pattern), quad) <==> watches(pattern, quad),
{
}

/// A subscription hears of a quad exactly where the quad has, at each position at which a term
/// is asked for, that term. One that asks for nothing in particular hears of every quad.
pub proof fn law_watched_quads_have_the_wanted_terms(
    pattern: IncrementalQuadPattern,
    quad: EncodedQuad,
)
    ensures
        watches(pattern, quad) <==> forall|field: QuadField|
            (#[trigger] wanted(pattern, field)) is None || wanted(pattern, field) == Some(
                component(quad, field),
            ),
        unconstrained(pattern) ==> watches(pattern, quad),
        component(quad, QuadField::Subject) == quad.subject,
        component(quad, QuadField::Predicate) == quad.predicate,
        component(quad, QuadField::Object) == quad.object,
        component(quad, QuadField::GraphName) == quad.graph_name,
{
    assert(wanted(pattern, QuadField::Subject) == pattern.subject);
    assert(wanted(pattern, QuadField::Predicate) == pattern.predicate);
    assert(wanted(pattern, QuadField::Object) == pattern.object);
    assert(wanted(pattern, QuadField::GraphName) == graph_wanted(pattern.graph_name));
}

} // verus!
