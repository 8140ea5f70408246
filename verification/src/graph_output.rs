//! The graph of a CONSTRUCT query, kept up to date from the changes of its solutions.

use crate::bag::{
    count, filter_map, is, lemma_count, lemma_weight_at_least, lemma_weight_push,
    lemma_weight_swap_remove, lemma_weight_without, same_bag, weight, without,
};
use crate::delta::Delta;
use crate::fx::{distinct, fx_insert, fx_new, fx_remove, lists_keys, occurs, FxKey, FxMap};
use crate::model::{Triple, TripleView};
use crate::replay::{lemma_played_push, lemma_same_step, played, step};
use crate::solution::{values_key, QuerySolution};
use crate::solution_set::Values;
use crate::tally::Tally;
use crate::template::{
    drawn, instantiate_template, instantiates, met, numbered, numbered_instances, triple_instance,
    triple_instances, triple_views, Naming, TripleTemplate,
};
use rustc_hash::FxHashMap;
use vstd::prelude::*;

verus! {

/// A solution that was added, with the triples that it gave.
pub struct Entry {
    pub names: Seq<Seq<u8>>,
    pub values: Values,
    pub triples: Seq<TripleView>,
}

pub open spec fn entry_of(stored: (QuerySolution, Vec<Triple>)) -> Entry {
    Entry { names: stored.0.names(), values: stored.0@, triples: triple_views(stored.1@) }
}

pub open spec fn entries_of(bucket: Seq<(QuerySolution, Vec<Triple>)>) -> Seq<Entry> {
    bucket.map_values(|stored: (QuerySolution, Vec<Triple>)| entry_of(stored))
}

/// How often a triple is among those of an entry.
pub open spec fn gives(triple: TripleView) -> spec_fn(Entry) -> int {
    |entry: Entry| count(entry.triples, triple)
}

/// How often entries give a triple.
pub open spec fn support(entries: Seq<Entry>, triple: TripleView) -> int {
    weight(entries, gives(triple))
}

pub open spec fn values_of() -> spec_fn(Entry) -> Option<Values> {
    |entry: Entry| Some(entry.values)
}

/// Whether a solution with these values is among entries.
pub open spec fn has_entry(entries: Seq<Entry>, values: Values) -> bool {
    exists|i: int| 0 <= i < entries.len() && (#[trigger] entries[i]).values == values
}

/// What a change of a solution makes of entries: an addition adds the triples of the
/// solution, a deletion takes out one entry of a solution with the same values, if there is
/// one. All other entries stay as they are.
pub open spec fn entry_step(
    before: Seq<Entry>,
    after: Seq<Entry>,
    change: Delta<QuerySolution>,
    template: Seq<TripleTemplate>,
) -> bool {
    match change {
        Delta::Addition(solution) => {
            &&& after.len() == before.len() + 1
            &&& after.drop_last() == before
            &&& after.last().names == solution.names()
            &&& after.last().values == solution@
            &&& instantiates(after.last().triples, template, solution.names(), solution@)
        },
        Delta::Deletion(solution) => if has_entry(before, solution@) {
            exists|i: int|
                0 <= i < before.len() && (#[trigger] before[i]).values == solution@ && after
                    == before.remove(i)
        } else {
            after == before
        },
    }
}

/// What changes of solutions make of entries, one after the other.
pub open spec fn entry_steps(
    before: Seq<Entry>,
    after: Seq<Entry>,
    changes: Seq<Delta<QuerySolution>>,
    template: Seq<TripleTemplate>,
) -> bool
    decreases changes.len(),
{
    if changes.len() == 0 {
        after == before
    } else {
        exists|middle: Seq<Entry>| #[trigger]
            entry_step(middle, after, changes.last(), template) && entry_steps(
                before,
                middle,
                changes.drop_last(),
                template,
            )
    }
}

/// Whether all entries are of solutions with the variables of these names.
pub open spec fn entries_named(entries: Seq<Entry>, names: Seq<Seq<u8>>) -> bool {
    forall|i: int| 0 <= i < entries.len() ==> (#[trigger] entries[i]).names == names
}

/// Whether all changes are of solutions with the variables of these names.
pub open spec fn changes_named(changes: Seq<Delta<QuerySolution>>, names: Seq<Seq<u8>>) -> bool {
    forall|i: int|
        0 <= i < changes.len() ==> (#[trigger] changes[i]).value_of().names() == names
}

/// Solutions with the same variables keep the entries so.
pub proof fn lemma_entries_named(
    before: Seq<Entry>,
    after: Seq<Entry>,
    changes: Seq<Delta<QuerySolution>>,
    template: Seq<TripleTemplate>,
    names: Seq<Seq<u8>>,
)
    requires
        entry_steps(before, after, changes, template),
        entries_named(before, names),
        changes_named(changes, names),
    ensures
        entries_named(after, names),
    decreases changes.len(),
{
    if changes.len() > 0 {
        let front = changes.drop_last();
        let middle = choose|middle: Seq<Entry>| #[trigger]
            entry_step(middle, after, changes.last(), template) && entry_steps(
                before,
                middle,
                changes.drop_last(),
                template,
            );
        assert forall|i: int| 0 <= i < front.len() implies (
        #[trigger] front[i]).value_of().names() == names by {
            assert(changes[i].value_of().names() == names);
        }
        lemma_entries_named(before, middle, front, template, names);
        let change = changes[changes.len() - 1];
        assert(change.value_of().names() == names);
        assert forall|i: int| 0 <= i < after.len() implies (#[trigger] after[i]).names == names by {
            match change {
                Delta::Addition(solution) => {
                    if i < middle.len() {
                        assert(after[i] == after.drop_last()[i]);
                        assert(middle[i].names == names);
                    }
                },
                Delta::Deletion(solution) => {
                    if has_entry(middle, solution@) {
                        let gone = choose|k: int|
                            0 <= k < middle.len() && (#[trigger] middle[k]).values == solution@
                                && after == middle.remove(k);
                        if i < gone {
                            assert(middle[i].names == names);
                        } else {
                            assert(middle[i + 1].names == names);
                        }
                    } else {
                        assert(middle[i].names == names);
                    }
                },
            }
        }
    }
}

/// A change of a solution, by its values alone.
pub open spec fn change_view(change: Delta<QuerySolution>) -> Delta<Values> {
    Delta::made(change.kind_of(), change.value_of()@)
}

pub open spec fn change_views(changes: Seq<Delta<QuerySolution>>) -> Seq<Delta<Values>> {
    changes.map_values(|change: Delta<QuerySolution>| change_view(change))
}

pub open spec fn triple_delta(change: Delta<Triple>) -> Delta<TripleView> {
    Delta::made(change.kind_of(), change.value_of()@)
}

pub open spec fn triple_deltas(changes: Seq<Delta<Triple>>) -> Seq<Delta<TripleView>> {
    changes.map_values(|change: Delta<Triple>| triple_delta(change))
}

/// One for a truth, zero for a falsehood.
pub open spec fn one_if(condition: bool) -> int {
    if condition {
        1
    } else {
        0
    }
}

/// Whether changes tell exactly what became of a triple that was or was not there and is
/// or is not there.
pub open spec fn tells(
    changes: Seq<Delta<TripleView>>,
    triple: TripleView,
    was_there: bool,
    is_there: bool,
) -> bool {
    &&& count(changes, Delta::Addition(triple)) == one_if(!was_there && is_there)
    &&& count(changes, Delta::Deletion(triple)) == one_if(was_there && !is_there)
}

/// Whether changes tell exactly what became of a set of triples, each triple once.
pub open spec fn tells_graph(
    changes: Seq<Delta<TripleView>>,
    before: Set<TripleView>,
    after: Set<TripleView>,
) -> bool {
    forall|triple: TripleView| #[trigger]
        tells(changes, triple, before.contains(triple), after.contains(triple))
}

/// One more change at the end tells of its triple.
proof fn lemma_tells_push(
    changes: Seq<Delta<TripleView>>,
    change: Delta<TripleView>,
    triple: TripleView,
)
    requires
        tells(changes, change.value_of(), false, false),
    ensures
        triple == change.value_of() ==> tells(
            changes.push(change),
            triple,
            change is Deletion,
            change is Addition,
        ),
        triple != change.value_of() ==> count(changes.push(change), Delta::Addition(triple))
            == count(changes, Delta::Addition(triple)) && count(
            changes.push(change),
            Delta::Deletion(triple),
        ) == count(changes, Delta::Deletion(triple)),
{
    lemma_weight_push(changes, change, is(Delta::Addition(triple)));
    lemma_weight_push(changes, change, is(Delta::Deletion(triple)));
}

/// A solution is among those of entries exactly if an entry has its values.
proof fn lemma_has_entry(entries: Seq<Entry>, values: Values)
    ensures
        filter_map(entries, values_of()).contains(values) <==> has_entry(entries, values),
{
    crate::bag::lemma_filter_map_contains(entries, values_of(), values);
    if has_entry(entries, values) {
        let i = choose|i: int| 0 <= i < entries.len() && (#[trigger] entries[i]).values == values;
        assert(values_of()(entries[i]) == Some(values));
    }
    if filter_map(entries, values_of()).contains(values) {
        let i = choose|i: int|
            0 <= i < entries.len() && values_of()(#[trigger] entries[i]) == Some(values);
        assert(entries[i].values == values);
    }
}

/// Whether a template has no blank nodes.
pub open spec fn plain(template: Seq<TripleTemplate>) -> bool {
    forall|i: int|
        0 <= i < template.len() ==> !((#[trigger] template[i]).subject is BlankNode)
            && !(template[i].object is BlankNode)
}

/// Without blank nodes it does not matter what they stand for.
proof fn lemma_plain(
    template: Seq<TripleTemplate>,
    names: Seq<Seq<u8>>,
    values: Values,
    naming: Naming,
)
    requires
        plain(template),
    ensures
        triple_instances(template, names, values, naming) == triple_instances(
            template,
            names,
            values,
            Map::empty(),
        ),
    decreases template.len(),
{
    if template.len() > 0 {
        let front = template.drop_last();
        let last = template.len() - 1;
        assert forall|i: int| 0 <= i < front.len() implies !((
        #[trigger] front[i]).subject is BlankNode) && !(front[i].object is BlankNode) by {
            assert(!(template[i].subject is BlankNode));
        }
        lemma_plain(front, names, values, naming);
        assert(!(template[last].subject is BlankNode));
        assert(triple_instance(names, values, naming)(template.last()) == triple_instance(
            names,
            values,
            Map::empty(),
        )(template.last()));
    }
}

/// The solutions of entries are their values, in the same order.
proof fn lemma_values(entries: Seq<Entry>)
    ensures
        filter_map(entries, values_of()).len() == entries.len(),
        forall|i: int|
            0 <= i < entries.len() ==> #[trigger] filter_map(entries, values_of())[i]
                == entries[i].values,
    decreases entries.len(),
{
    if entries.len() > 0 {
        lemma_values(entries.drop_last());
    }
}

/// The graph of a CONSTRUCT query.
pub struct IncrementalGraphOutput {
    template: Vec<TripleTemplate>,
    solution_buckets: FxHashMap<u64, Vec<(QuerySolution, Vec<Triple>)>>,
    triple_counts: FxMap<Triple, Tally>,
    stored: Ghost<Seq<Entry>>,
}

impl IncrementalGraphOutput {
    closed spec fn bucket(&self, hash: u64) -> Seq<Entry> {
        if self.solution_buckets@.contains_key(hash) {
            entries_of(self.solution_buckets@[hash]@)
        } else {
            Seq::empty()
        }
    }

    /// How often a triple is counted.
    closed spec fn counted(&self, triple: TripleView) -> int {
        if self.triple_counts@.contains_key(triple) {
            self.triple_counts@[triple]@ as int
        } else {
            0
        }
    }

    closed spec fn filed(&self) -> bool {
        forall|hash: u64, entry: Entry| #[trigger]
            count(self.bucket(hash), entry) == if hash == values_key(entry.values) {
                count(self.stored@, entry)
            } else {
                0
            }
    }

    closed spec fn tallied(&self) -> bool {
        &&& self.triple_counts.wf()
        &&& forall|triple: TripleView| #[trigger]
            self.triple_counts@.contains_key(triple) ==> self.triple_counts@[triple]@ > 0
    }

    /// Every solution is in the bucket of its key with the triples that it gave, and every
    /// triple is counted as often as it was given.
    pub closed spec fn wf(&self) -> bool {
        &&& self.filed()
        &&& self.tallied()
        &&& forall|triple: TripleView| #[trigger]
            self.counted(triple) == support(self.stored@, triple)
        &&& forall|i: int|
            0 <= i < self.stored@.len() ==> instantiates(
                (#[trigger] self.stored@[i]).triples,
                self.template@,
                self.stored@[i].names,
                self.stored@[i].values,
            )
    }

    pub closed spec fn template(&self) -> Seq<TripleTemplate> {
        self.template@
    }

    /// The solutions that are there, with the triples that they gave.
    pub closed spec fn stored(&self) -> Seq<Entry> {
        self.stored@
    }

    /// The solutions that are there.
    pub open spec fn solutions(&self) -> Seq<Values> {
        filter_map(self.stored(), values_of())
    }

    /// Whether all solutions have the variables of these names.
    pub open spec fn named(&self, names: Seq<Seq<u8>>) -> bool {
        entries_named(self.stored(), names)
    }

    /// The triples that are there.
    pub closed spec fn graph(&self) -> Set<TripleView> {
        self.triple_counts@.dom()
    }

    /// A triple is there exactly if a solution that is there gave it.
    pub proof fn law_graph_is_what_solutions_give(&self, triple: TripleView)
        requires
            self.wf(),
        ensures
            self.graph().contains(triple) <==> exists|i: int|
                0 <= i < self.stored().len() && (
                #[trigger] self.stored()[i]).triples.contains(triple),
            forall|i: int|
                0 <= i < self.stored().len() ==> instantiates(
                    (#[trigger] self.stored()[i]).triples,
                    self.template(),
                    self.stored()[i].names,
                    self.stored()[i].values,
                ),
    {
        let all = self.stored@;
        assert(self.counted(triple) == support(all, triple));
        lemma_gives(all, triple);
        if self.graph().contains(triple) {
            assert(self.triple_counts@.contains_key(triple));
            assert(self.triple_counts@[triple]@ > 0);
            lemma_supported(all, triple);
            let i = choose|i: int| 0 <= i < all.len() && (#[trigger] all[i]).triples.contains(triple);
            assert(self.stored()[i].triples.contains(triple));
        }
        if exists|i: int| 0 <= i < all.len() && (#[trigger] all[i]).triples.contains(triple) {
            let i = choose|i: int| 0 <= i < all.len() && (#[trigger] all[i]).triples.contains(triple);
            lemma_count(all[i].triples, triple);
            lemma_weight_at_least(all, i, gives(triple));
            assert(gives(triple)(all[i]) > 0);
            assert(self.triple_counts@.contains_key(triple));
        }
    }

    /// Where the template has no blank nodes, a triple is there exactly if it is one that the
    /// template gives for a solution that is there.
    pub proof fn law_plain_graph_is_that_of_the_solutions(
        &self,
        names: Seq<Seq<u8>>,
        triple: TripleView,
    )
        requires
            self.wf(),
            self.named(names),
            plain(self.template()),
        ensures
            self.graph().contains(triple) <==> exists|i: int|
                0 <= i < self.solutions().len() && triple_instances(
                    self.template(),
                    names,
                    #[trigger] self.solutions()[i],
                    Map::empty(),
                ).contains(triple),
    {
        let all = self.stored();
        let template = self.template();
        self.law_graph_is_what_solutions_give(triple);
        lemma_values(all);
        assert forall|i: int| 0 <= i < all.len() implies (#[trigger] all[i]).triples
            == triple_instances(template, names, self.solutions()[i], Map::empty()) by {
            assert(instantiates(all[i].triples, template, all[i].names, all[i].values));
            let ids = choose|ids: Seq<u128>|
                drawn(ids, met(template, names, all[i].values).len()) && all[i].triples
                    == #[trigger] numbered_instances(template, names, all[i].values, ids);
            lemma_plain(
                template,
                names,
                all[i].values,
                numbered(met(template, names, all[i].values), ids),
            );
        }
        if self.graph().contains(triple) {
            let i = choose|i: int|
                0 <= i < all.len() && (#[trigger] all[i]).triples.contains(triple);
            assert(triple_instances(
                template,
                names,
                self.solutions()[i],
                Map::empty(),
            ).contains(triple));
        }
        if exists|i: int|
            0 <= i < self.solutions().len() && triple_instances(
                template,
                names,
                #[trigger] self.solutions()[i],
                Map::empty(),
            ).contains(triple) {
            let i = choose|i: int|
                0 <= i < self.solutions().len() && triple_instances(
                    template,
                    names,
                    #[trigger] self.solutions()[i],
                    Map::empty(),
                ).contains(triple);
            assert(all[i].triples.contains(triple));
        }
    }

    pub fn new(template: Vec<TripleTemplate>) -> (output: Self)
        ensures
            output.wf(),
            output.template() == template@,
            output.stored() == Seq::<Entry>::empty(),
            output.graph() == Set::<TripleView>::empty(),
    {
        let output = IncrementalGraphOutput {
            template,
            solution_buckets: fx_new(),
            triple_counts: FxMap::new(),
            stored: Ghost(Seq::empty()),
        };
        assert(output.graph() =~= Set::<TripleView>::empty());
        output
    }

    /// Lists the triples that are there, each once.
    pub fn triples(&self) -> (triples: Vec<Triple>)
        requires
            self.wf(),
        ensures
            distinct(triples@),
            forall|triple: TripleView|
                self.graph().contains(triple) <==> #[trigger] occurs(triples@, triple),
    {
        let triples = self.triple_counts.keys();
        assert forall|triple: TripleView|
            self.graph().contains(triple) <==> #[trigger] occurs(triples@, triple) by {
            assert(self.triple_counts@.contains_key(triple) <==> occurs(triples@, triple));
        }
        triples
    }

    /// How often a triple was counted before the changes, if that is not known yet.
    fn note_original(&self, original_counts: &mut FxMap<Triple, usize>, triple: &Triple)
        requires
            self.triple_counts.wf(),
            old(original_counts).wf(),
        ensures
            final(original_counts).wf(),
            final(original_counts)@ == if old(original_counts)@.contains_key(triple@) {
                old(original_counts)@
            } else {
                old(original_counts)@.insert(triple@, self.counted(triple@) as usize)
            },
            self.counted(triple@) <= usize::MAX,
    {
        let known = match self.triple_counts.get(triple) {
            Some(tally) => tally.count(),
            None => 0,
        };
        if !original_counts.contains_key(triple) {
            original_counts.insert(triple.duplicate(), known);
        }
    }

    /// Counts a triple once more.
    fn add_triple(&mut self, triple: &Triple)
        requires
            old(self).tallied(),
        ensures
            final(self).tallied(),
            final(self).template == old(self).template,
            final(self).solution_buckets == old(self).solution_buckets,
            final(self).stored == old(self).stored,
            forall|other: TripleView| #[trigger]
                final(self).counted(other) == old(self).counted(other) + one_if(other == triple@),
    {
        let ghost before = *self;
        let mut tally = match self.triple_counts.remove(triple) {
            Some(tally) => tally,
            None => Tally::new(),
        };
        tally.add();
        let ghost counted = tally;
        self.triple_counts.insert(triple.duplicate(), tally);
        proof {
            assert(self.triple_counts@ =~= before.triple_counts@.insert(triple@, counted));
        }
    }

    /// Counts a triple once less.
    fn remove_triple(&mut self, triple: &Triple)
        requires
            old(self).tallied(),
            old(self).counted(triple@) > 0,
        ensures
            final(self).tallied(),
            final(self).template == old(self).template,
            final(self).solution_buckets == old(self).solution_buckets,
            final(self).stored == old(self).stored,
            forall|other: TripleView| #[trigger]
                final(self).counted(other) == old(self).counted(other) - one_if(other == triple@),
    {
        let ghost before = *self;
        if let Some(mut tally) = self.triple_counts.remove(triple) {
            tally.take();
            let ghost counted = tally;
            if tally.count() > 0 {
                self.triple_counts.insert(triple.duplicate(), tally);
                assert(self.triple_counts@ =~= before.triple_counts@.insert(triple@, counted));
            } else {
                assert(self.triple_counts@ =~= before.triple_counts@.remove(triple@));
            }
        }
    }

    /// What is known of the counts before the changes.
    closed spec fn knows_original(
        &self,
        first: IncrementalGraphOutput,
        original_counts: Map<TripleView, usize>,
    ) -> bool {
        forall|triple: TripleView| #[trigger]
            first.counted(triple) == if original_counts.contains_key(triple) {
                original_counts[triple] as int
            } else {
                self.counted(triple)
            }
    }

    /// A solution that was added gives its triples.
    fn add_solution(
        &mut self,
        solution: QuerySolution,
        original_counts: &mut FxMap<Triple, usize>,
        Ghost(first): Ghost<IncrementalGraphOutput>,
    )
        requires
            old(self).wf(),
            old(original_counts).wf(),
            old(self).knows_original(first, old(original_counts)@),
        ensures
            final(self).wf(),
            final(original_counts).wf(),
            final(self).knows_original(first, final(original_counts)@),
            final(self).template == old(self).template,
            same_bag(
                final(self).solutions(),
                step(old(self).solutions(), Delta::Addition(solution@)),
            ),
            entry_step(
                old(self).stored@,
                final(self).stored@,
                Delta::Addition(solution),
                old(self).template@,
            ),
    {
        let ghost before = *self;
        let triples = instantiate_template(&self.template, &solution);
        let ghost given = triple_views(triples@);
        let mut next: usize = 0;
        assert(given.take(0) =~= Seq::empty());
        while next < triples.len()
            invariant
                self.tallied(),
                self.template == before.template,
                self.solution_buckets == before.solution_buckets,
                self.stored == before.stored,
                given == triple_views(triples@),
                next <= given.len(),
                original_counts.wf(),
                self.knows_original(first, original_counts@),
                forall|triple: TripleView| #[trigger]
                    self.counted(triple) == before.counted(triple) + count(
                        given.take(next as int),
                        triple,
                    ),
            decreases given.len() - next,
        {
            let ghost last = *self;
            let ghost known = original_counts@;
            self.note_original(original_counts, &triples[next]);
            self.add_triple(&triples[next]);
            proof {
                let triple = given[next as int];
                assert forall|other: TripleView| #[trigger]
                    first.counted(other) == if original_counts@.contains_key(other) {
                        original_counts@[other] as int
                    } else {
                        self.counted(other)
                    } by {
                    assert(first.counted(other) == if known.contains_key(other) {
                        known[other] as int
                    } else {
                        last.counted(other)
                    });
                    assert(self.counted(other) == last.counted(other) + one_if(other == triple));
                }
                assert forall|other: TripleView| #[trigger]
                    self.counted(other) == before.counted(other) + count(
                        given.take(next + 1),
                        other,
                    ) by {
                    assert(last.counted(other) == before.counted(other) + count(
                        given.take(next as int),
                        other,
                    ));
                    lemma_weight_push(given.take(next as int), triple, is(other));
                    assert(given.take(next as int).push(triple) =~= given.take(next + 1));
                }
            }
            next = next + 1;
        }
        assert(given.take(next as int) =~= given);
        let ghost filled = *self;
        let key = solution_key(&solution);
        let ghost entry = Entry { names: solution.names(), values: solution@, triples: given };
        let mut bucket = match fx_remove(&mut self.solution_buckets, key) {
            Some(bucket) => bucket,
            None => Vec::new(),
        };
        assert(entries_of(bucket@) =~= before.bucket(key));
        bucket.push((solution, triples));
        assert(entries_of(bucket@) =~= before.bucket(key).push(entry));
        fx_insert(&mut self.solution_buckets, key, bucket);
        self.stored = Ghost(before.stored@.push(entry));
        proof {
            assert(self.bucket(key) =~= before.bucket(key).push(entry));
            assert forall|hash: u64, other: Entry| #[trigger]
                count(self.bucket(hash), other) == if hash == values_key(other.values) {
                    count(self.stored@, other)
                } else {
                    0
                } by {
                assert(count(before.bucket(hash), other) == if hash == values_key(other.values) {
                    count(before.stored@, other)
                } else {
                    0
                });
                lemma_weight_push(before.stored@, entry, is(other));
                if hash == key {
                    lemma_weight_push(before.bucket(hash), entry, is(other));
                } else {
                    assert(self.bucket(hash) == before.bucket(hash));
                }
            }
            assert forall|triple: TripleView| #[trigger]
                self.counted(triple) == support(self.stored@, triple) by {
                lemma_weight_push(before.stored@, entry, gives(triple));
                assert(before.counted(triple) == support(before.stored@, triple));
                assert(filled.counted(triple) == before.counted(triple) + count(given, triple));
                assert(self.counted(triple) == filled.counted(triple));
            }
            assert forall|i: int| 0 <= i < self.stored@.len() implies instantiates(
                (#[trigger] self.stored@[i]).triples,
                self.template@,
                self.stored@[i].names,
                self.stored@[i].values,
            ) by {
                if i < before.stored@.len() {
                    assert(self.stored@[i] == before.stored@[i]);
                }
            }
            crate::bag::lemma_filter_map_push(before.stored@, entry, values_of());
            assert(self.stored@.drop_last() =~= before.stored@);
        }
    }

    /// A solution that was deleted takes the triples back that it gave. One that is not
    /// there changes nothing.
    fn remove_solution(
        &mut self,
        solution: &QuerySolution,
        original_counts: &mut FxMap<Triple, usize>,
        Ghost(first): Ghost<IncrementalGraphOutput>,
    )
        requires
            old(self).wf(),
            old(original_counts).wf(),
            old(self).knows_original(first, old(original_counts)@),
        ensures
            final(self).wf(),
            final(original_counts).wf(),
            final(self).knows_original(first, final(original_counts)@),
            final(self).template == old(self).template,
            same_bag(
                final(self).solutions(),
                step(old(self).solutions(), Delta::Deletion(solution@)),
            ),
            entry_step(
                old(self).stored@,
                final(self).stored@,
                Delta::Deletion(*solution),
                old(self).template@,
            ),
    {
        let ghost before = *self;
        let ghost values = solution@;
        let key = solution_key(solution);
        proof {
            before.lemma_present(values);
            lemma_has_entry(before.stored@, values);
        }
        let mut bucket = match fx_remove(&mut self.solution_buckets, key) {
            Some(bucket) => bucket,
            None => {
                proof {
                    assert(before.bucket(key) =~= Seq::empty());
                    assert(self.solution_buckets@ =~= before.solution_buckets@);
                    self.lemma_same_buckets(before);
                }
                return ;
            },
        };
        let ghost entries = entries_of(bucket@);
        assert(entries == before.bucket(key));
        let position = match find_solution(&bucket, solution) {
            Some(position) => position,
            None => {
                fx_insert(&mut self.solution_buckets, key, bucket);
                proof {
                    assert(self.solution_buckets@ =~= before.solution_buckets@);
                    self.lemma_same_buckets(before);
                }
                return ;
            },
        };
        let ghost entry = entries[position as int];
        let (_, triples) = bucket.swap_remove(position);
        let ghost left = entries_of(bucket@);
        let ghost given = triple_views(triples@);
        proof {
            assert(left =~= entries.update(position as int, entries.last()).drop_last());
            assert(given == entry.triples);
            assert(entries.contains(entry));
            lemma_count(entries, entry);
            assert(count(before.bucket(key), entry) == if key == values_key(entry.values) {
                count(before.stored@, entry)
            } else {
                0
            });
            lemma_count(before.stored@, entry);
        }
        if bucket.len() > 0 {
            fx_insert(&mut self.solution_buckets, key, bucket);
        } else {
            assert(left =~= Seq::empty());
        }
        self.stored = Ghost(without(before.stored@, entry));
        proof {
            let at = before.stored@.index_of(entry);
            assert(before.stored@[at].values == values);
            assert(self.stored@ == before.stored@.remove(at));
        }
        assert(self.bucket(key) =~= left);
        let ghost emptied = *self;
        proof {
            self.lemma_refiled(before, key, position as int, entry);
        }
        let mut next: usize = 0;
        assert(given.take(0) =~= Seq::empty());
        while next < triples.len()
            invariant
                self.tallied(),
                self.template == before.template,
                self.solution_buckets == emptied.solution_buckets,
                self.stored == emptied.stored,
                given == triple_views(triples@),
                next <= given.len(),
                original_counts.wf(),
                self.knows_original(first, original_counts@),
                forall|triple: TripleView| #[trigger]
                    before.counted(triple) == support(emptied.stored@, triple) + count(
                        given,
                        triple,
                    ),
                forall|triple: TripleView| #[trigger]
                    self.counted(triple) == before.counted(triple) - count(
                        given.take(next as int),
                        triple,
                    ),
            decreases given.len() - next,
        {
            let ghost last = *self;
            let ghost known = original_counts@;
            let ghost triple = given[next as int];
            proof {
                lemma_weight_push(given.take(next as int), triple, is(triple));
                assert(given.take(next as int).push(triple) =~= given.take(next + 1));
                lemma_prefix(given, next + 1, triple);
                lemma_gives(emptied.stored@, triple);
                lemma_support(emptied.stored@, triple);
                assert(last.counted(triple) == before.counted(triple) - count(
                    given.take(next as int),
                    triple,
                ));
                assert(before.counted(triple) == support(emptied.stored@, triple) + count(
                    given,
                    triple,
                ));
            }
            self.note_original(original_counts, &triples[next]);
            self.remove_triple(&triples[next]);
            proof {
                assert forall|other: TripleView| #[trigger]
                    first.counted(other) == if original_counts@.contains_key(other) {
                        original_counts@[other] as int
                    } else {
                        self.counted(other)
                    } by {
                    assert(first.counted(other) == if known.contains_key(other) {
                        known[other] as int
                    } else {
                        last.counted(other)
                    });
                    assert(self.counted(other) == last.counted(other) - one_if(other == triple));
                }
                assert forall|other: TripleView| #[trigger]
                    self.counted(other) == before.counted(other) - count(
                        given.take(next + 1),
                        other,
                    ) by {
                    assert(last.counted(other) == before.counted(other) - count(
                        given.take(next as int),
                        other,
                    ));
                    lemma_weight_push(given.take(next as int), triple, is(other));
                    assert(given.take(next as int).push(triple) =~= given.take(next + 1));
                }
            }
            next = next + 1;
        }
        proof {
            assert(given.take(next as int) =~= given);
            assert forall|triple: TripleView| #[trigger]
                self.counted(triple) == support(self.stored@, triple) by {
                assert(self.counted(triple) == before.counted(triple) - count(
                    given.take(next as int),
                    triple,
                ));
                assert(before.counted(triple) == support(emptied.stored@, triple) + count(
                    given,
                    triple,
                ));
            }
            assert(self.filed()) by {
                assert forall|hash: u64, other: Entry| #[trigger]
                    count(self.bucket(hash), other) == if hash == values_key(other.values) {
                        count(self.stored@, other)
                    } else {
                        0
                    } by {
                    assert(self.bucket(hash) == emptied.bucket(hash));
                    assert(count(emptied.bucket(hash), other) == if hash == values_key(
                        other.values,
                    ) {
                        count(emptied.stored@, other)
                    } else {
                        0
                    });
                }
            }
        }
    }

    /// A solution is there exactly if its bucket has it.
    proof fn lemma_present(&self, values: Values)
        requires
            self.filed(),
        ensures
            self.solutions().contains(values) <==> exists|i: int|
                0 <= i < self.bucket(values_key(values)).len() && (#[trigger] self.bucket(
                    values_key(values),
                )[i]).values == values,
    {
        let bucket = self.bucket(values_key(values));
        let all = self.stored@;
        crate::bag::lemma_filter_map_contains(all, values_of(), values);
        if self.solutions().contains(values) {
            let i = choose|i: int|
                0 <= i < all.len() && values_of()(#[trigger] all[i]) == Some(values);
            lemma_count(all, all[i]);
            lemma_count(bucket, all[i]);
            assert(all.contains(all[i]));
            assert(count(self.bucket(values_key(values)), all[i]) == count(all, all[i]));
            let j = choose|j: int| 0 <= j < bucket.len() && bucket[j] == all[i];
            assert(bucket[j].values == values);
        }
        if exists|i: int| 0 <= i < bucket.len() && (#[trigger] bucket[i]).values == values {
            let i = choose|i: int| 0 <= i < bucket.len() && (#[trigger] bucket[i]).values == values;
            assert(bucket.contains(bucket[i]));
            lemma_count(bucket, bucket[i]);
            lemma_count(all, bucket[i]);
            assert(count(self.bucket(values_key(values)), bucket[i]) == count(all, bucket[i]));
            let j = choose|j: int| 0 <= j < all.len() && all[j] == bucket[i];
            assert(values_of()(all[j]) == Some(values));
        }
    }

    proof fn lemma_same_buckets(&self, before: Self)
        requires
            before.wf(),
            self.template == before.template,
            self.triple_counts == before.triple_counts,
            self.stored == before.stored,
            self.solution_buckets@ == before.solution_buckets@,
        ensures
            self.wf(),
            forall|triple: TripleView| #[trigger] self.counted(triple) == before.counted(triple),
            same_bag(self.solutions(), before.solutions()),
    {
        assert forall|hash: u64, entry: Entry| #[trigger]
            count(self.bucket(hash), entry) == if hash == values_key(entry.values) {
                count(self.stored@, entry)
            } else {
                0
            } by {
            assert(self.bucket(hash) == before.bucket(hash));
            assert(count(before.bucket(hash), entry) == if hash == values_key(entry.values) {
                count(before.stored@, entry)
            } else {
                0
            });
        }
        assert forall|triple: TripleView| #[trigger]
            self.counted(triple) == support(self.stored@, triple) by {
            assert(before.counted(triple) == support(before.stored@, triple));
        }
    }

    /// An entry was taken out of its bucket.
    proof fn lemma_refiled(&self, before: Self, key: u64, position: int, entry: Entry)
        requires
            before.wf(),
            before.stored@.contains(entry),
            key == values_key(entry.values),
            0 <= position < before.bucket(key).len(),
            before.bucket(key)[position] == entry,
            self.bucket(key) == before.bucket(key).update(
                position,
                before.bucket(key).last(),
            ).drop_last(),
            forall|hash: u64| hash != key ==> #[trigger] self.bucket(hash) == before.bucket(hash),
            self.stored@ == without(before.stored@, entry),
            self.template == before.template,
            self.triple_counts == before.triple_counts,
        ensures
            self.filed(),
            forall|triple: TripleView| #[trigger]
                before.counted(triple) == support(self.stored@, triple) + count(
                    entry.triples,
                    triple,
                ),
            forall|i: int|
                0 <= i < self.stored@.len() ==> instantiates(
                    (#[trigger] self.stored@[i]).triples,
                    self.template@,
                    self.stored@[i].names,
                    self.stored@[i].values,
                ),
            same_bag(self.solutions(), step(before.solutions(), Delta::Deletion(entry.values))),
            before.solutions().contains(entry.values),
    {
        let all = before.stored@;
        assert forall|hash: u64, other: Entry| #[trigger]
            count(self.bucket(hash), other) == if hash == values_key(other.values) {
                count(self.stored@, other)
            } else {
                0
            } by {
            assert(count(before.bucket(hash), other) == if hash == values_key(other.values) {
                count(all, other)
            } else {
                0
            });
            lemma_weight_without(all, entry, is(other));
            if hash == key {
                lemma_weight_swap_remove(before.bucket(key), position, is(other));
            } else {
                assert(self.bucket(hash) == before.bucket(hash));
            }
        }
        assert forall|triple: TripleView| #[trigger]
            before.counted(triple) == support(self.stored@, triple) + count(
                entry.triples,
                triple,
            ) by {
            assert(before.counted(triple) == support(all, triple));
            lemma_weight_without(all, entry, gives(triple));
        }
        let at = all.index_of(entry);
        assert forall|i: int| 0 <= i < self.stored@.len() implies instantiates(
            (#[trigger] self.stored@[i]).triples,
            self.template@,
            self.stored@[i].names,
            self.stored@[i].values,
        ) by {
            let k = if i < at {
                i
            } else {
                i + 1
            };
            assert(self.stored@[i] == all[k]);
            assert(instantiates(
                all[k].triples,
                before.template@,
                all[k].names,
                all[k].values,
            ));
        }
        crate::bag::lemma_filter_map_contains(all, values_of(), entry.values);
        assert(values_of()(all[at]) == Some(entry.values));
        assert forall|values: Values| #[trigger]
            count(self.solutions(), values) == count(
                step(before.solutions(), Delta::Deletion(entry.values)),
                values,
            ) by {
            let g = crate::bag::through(values_of(), is(values));
            crate::bag::lemma_filter_map_weight(self.stored@, values_of(), is(values));
            crate::bag::lemma_filter_map_weight(all, values_of(), is(values));
            lemma_weight_without(all, entry, g);
            lemma_weight_without(before.solutions(), entry.values, is(values));
        }
    }

    /// Applies changes of solutions, and tells what became of the graph.
    pub fn apply(&mut self, changes: Vec<Delta<QuerySolution>>) -> (deltas: Vec<Delta<Triple>>)
        requires
            old(self).wf(),
        ensures
            final(self).wf(),
            final(self).template() == old(self).template(),
            same_bag(
                final(self).solutions(),
                played(old(self).solutions(), change_views(changes@)),
            ),
            entry_steps(
                old(self).stored(),
                final(self).stored(),
                changes@,
                old(self).template(),
            ),
            tells_graph(triple_deltas(deltas@), old(self).graph(), final(self).graph()),
    {
        let ghost first = *self;
        let ghost all = change_views(changes@);
        let ghost given = changes@;
        let mut changes = changes;
        let mut original_counts: FxMap<Triple, usize> = FxMap::new();
        let ghost mut done: int = 0;
        assert(all.take(0) =~= Seq::empty());
        while changes.len() > 0
            invariant
                self.wf(),
                given.len() == all.len(),
                changes@ == given.skip(done),
                entry_steps(first.stored@, self.stored@, given.take(done), first.template@),
                original_counts.wf(),
                self.template == first.template,
                self.knows_original(first, original_counts@),
                0 <= done,
                done + changes@.len() == all.len(),
                forall|i: int| 0 <= i < changes@.len() ==> change_view(#[trigger] changes@[i])
                    == all[done + i],
                same_bag(self.solutions(), played(first.solutions(), all.take(done))),
            decreases changes@.len(),
        {
            let ghost waiting = changes@;
            let ghost last = *self;
            let change = changes.remove(0);
            proof {
                assert(change_view(waiting[0]) == all[done]);
                lemma_played_push(first.solutions(), all.take(done), all[done]);
                assert(all.take(done).push(all[done]) =~= all.take(done + 1));
                lemma_same_step(
                    last.solutions(),
                    played(first.solutions(), all.take(done)),
                    all[done],
                );
                assert forall|i: int| 0 <= i < changes@.len() implies change_view(
                    #[trigger] changes@[i],
                ) == all[done + 1 + i] by {
                    assert(changes@[i] == waiting[i + 1]);
                    assert(change_view(waiting[i + 1]) == all[done + i + 1]);
                }
                assert(changes@ =~= given.skip(done + 1));
                assert(given.take(done + 1).drop_last() =~= given.take(done));
                assert(given.take(done + 1).last() == change);
            }
            match change {
                Delta::Addition(solution) => {
                    self.add_solution(solution, &mut original_counts, Ghost(first));
                },
                Delta::Deletion(solution) => {
                    self.remove_solution(&solution, &mut original_counts, Ghost(first));
                },
            }
            proof {
                crate::bag::lemma_same_bag_transitive(
                    self.solutions(),
                    step(last.solutions(), all[done]),
                    step(played(first.solutions(), all.take(done)), all[done]),
                );
                done = done + 1;
            }
        }
        assert(all.take(done) =~= all);
        assert(given.take(done) =~= given);
        self.graph_changes(&original_counts, Ghost(first))
    }

    /// What became of the triples whose counts were changed.
    fn graph_changes(
        &self,
        original_counts: &FxMap<Triple, usize>,
        Ghost(first): Ghost<IncrementalGraphOutput>,
    ) -> (deltas: Vec<Delta<Triple>>)
        requires
            self.wf(),
            first.wf(),
            original_counts.wf(),
            self.knows_original(first, original_counts@),
        ensures
            tells_graph(triple_deltas(deltas@), first.graph(), self.graph()),
    {
        let triples = original_counts.keys();
        let mut deltas: Vec<Delta<Triple>> = Vec::new();
        let mut next: usize = 0;
        while next < triples.len()
            invariant
                self.wf(),
                first.wf(),
                original_counts.wf(),
                self.knows_original(first, original_counts@),
                lists_keys(triples@, original_counts@),
                next <= triples@.len(),
                forall|triple: TripleView| #[trigger]
                    self.told_so_far(
                        first,
                        triples@.take(next as int),
                        triple_deltas(deltas@),
                        triple,
                    ),
            decreases triples@.len() - next,
        {
            let ghost so_far = triple_deltas(deltas@);
            let ghost triple = triples@[next as int]@;
            let ghost seen = triples@.take(next as int);
            let ghost more = triples@.take(next + 1);
            proof {
                self.lemma_counted(triple);
                first.lemma_counted(triple);
                assert(original_counts@.contains_key(triples@[next as int].model()));
                assert(first.counted(triple) == original_counts@[triple] as int);
                assert(self.told_so_far(first, seen, so_far, triple));
                lemma_fresh(triples@, next as int);
            }
            let old_count: usize = match original_counts.get(&triples[next]) {
                Some(old_count) => *old_count,
                None => 0,
            };
            let new_count: usize = match self.triple_counts.get(&triples[next]) {
                Some(tally) => tally.count(),
                None => 0,
            };
            if old_count == 0 && new_count != 0 {
                deltas.push(Delta::Addition(triples[next].duplicate()));
                assert(triple_deltas(deltas@) =~= so_far.push(Delta::Addition(triple)));
            } else if old_count != 0 && new_count == 0 {
                deltas.push(Delta::Deletion(triples[next].duplicate()));
                assert(triple_deltas(deltas@) =~= so_far.push(Delta::Deletion(triple)));
            }
            proof {
                assert forall|other: TripleView| #[trigger]
                    self.told_so_far(first, more, triple_deltas(deltas@), other) by {
                    assert(self.told_so_far(first, seen, so_far, other));
                    lemma_met(triples@, next as int, other);
                    lemma_tells_push(so_far, Delta::Addition(triple), other);
                    lemma_tells_push(so_far, Delta::Deletion(triple), other);
                }
            }
            next = next + 1;
        }
        proof {
            assert(triples@.take(next as int) =~= triples@);
            assert forall|triple: TripleView| #[trigger]
                tells(
                    triple_deltas(deltas@),
                    triple,
                    first.graph().contains(triple),
                    self.graph().contains(triple),
                ) by {
                self.lemma_counted(triple);
                first.lemma_counted(triple);
                assert(original_counts@.contains_key(triple) <==> occurs(triples@, triple));
                assert(self.told_so_far(first, triples@, triple_deltas(deltas@), triple));
                assert(first.counted(triple) == if original_counts@.contains_key(triple) {
                    original_counts@[triple] as int
                } else {
                    self.counted(triple)
                });
            }
        }
        deltas
    }

    /// Whether changes tell what became of a triple, if it was met.
    closed spec fn told_so_far(
        &self,
        first: IncrementalGraphOutput,
        met: Seq<Triple>,
        changes: Seq<Delta<TripleView>>,
        triple: TripleView,
    ) -> bool {
        if occurs(met, triple) {
            tells(
                changes,
                triple,
                first.graph().contains(triple),
                self.graph().contains(triple),
            )
        } else {
            tells(changes, triple, false, false)
        }
    }

    /// A triple is there exactly if it is counted.
    proof fn lemma_counted(&self, triple: TripleView)
        requires
            self.tallied(),
        ensures
            self.graph().contains(triple) <==> self.counted(triple) > 0,
    {
        if self.triple_counts@.contains_key(triple) {
            assert(self.triple_counts@[triple]@ > 0);
        }
    }
}

/// A key of a list of keys that differ was not met before.
proof fn lemma_fresh(keys: Seq<Triple>, at: int)
    requires
        distinct(keys),
        0 <= at < keys.len(),
    ensures
        !occurs(keys.take(at), keys[at]@),
{
    let seen = keys.take(at);
    if occurs(seen, keys[at]@) {
        let i = choose|i: int| 0 <= i < seen.len() && (#[trigger] seen[i]).model() == keys[at]@;
        assert(keys[i].model() != keys[at].model());
    }
}

/// What was met with one key more.
proof fn lemma_met(keys: Seq<Triple>, at: int, triple: TripleView)
    requires
        0 <= at < keys.len(),
    ensures
        occurs(keys.take(at + 1), triple) <==> occurs(keys.take(at), triple) || triple
            == keys[at]@,
{
    let seen = keys.take(at);
    let more = keys.take(at + 1);
    if occurs(seen, triple) {
        let i = choose|i: int| 0 <= i < seen.len() && (#[trigger] seen[i]).model() == triple;
        assert(more[i].model() == triple);
    }
    if occurs(more, triple) {
        let i = choose|i: int| 0 <= i < more.len() && (#[trigger] more[i]).model() == triple;
        if i < at {
            assert(seen[i].model() == triple);
        }
    }
    assert(more[at].model() == keys[at]@);
}

/// The hash of the values of a solution.
pub fn solution_key(solution: &QuerySolution) -> (key: u64)
    ensures
        key == values_key(solution@),
{
    solution.key()
}

/// Where a solution with the same values is.
fn find_solution(
    bucket: &Vec<(QuerySolution, Vec<Triple>)>,
    solution: &QuerySolution,
) -> (position: Option<usize>)
    ensures
        match position {
            Some(position) => position < bucket@.len() && bucket@[position as int].0@
                == solution@,
            None => forall|i: int|
                0 <= i < bucket@.len() ==> (#[trigger] entries_of(bucket@)[i]).values
                    != solution@,
        },
{
    let mut next: usize = 0;
    while next < bucket.len()
        invariant
            next <= bucket@.len(),
            forall|i: int|
                0 <= i < next ==> (#[trigger] entries_of(bucket@)[i]).values != solution@,
        decreases bucket@.len() - next,
    {
        if bucket[next].0.same_values(solution) {
            return Some(next);
        }
        next = next + 1;
    }
    None
}

proof fn lemma_gives(entries: Seq<Entry>, triple: TripleView)
    ensures
        forall|i: int| 0 <= i < entries.len() ==> 0 <= gives(triple)(#[trigger] entries[i]),
{
    assert forall|i: int| 0 <= i < entries.len() implies 0 <= gives(triple)(
        #[trigger] entries[i],
    ) by {
        lemma_count(entries[i].triples, triple);
    }
}

proof fn lemma_support(entries: Seq<Entry>, triple: TripleView)
    ensures
        support(entries, triple) >= 0,
    decreases entries.len(),
{
    if entries.len() > 0 {
        lemma_support(entries.drop_last(), triple);
        lemma_count(entries.last().triples, triple);
    }
}

/// A triple that is counted was given.
proof fn lemma_supported(entries: Seq<Entry>, triple: TripleView)
    requires
        support(entries, triple) > 0,
    ensures
        exists|i: int|
            0 <= i < entries.len() && (#[trigger] entries[i]).triples.contains(triple),
    decreases entries.len(),
{
    if entries.len() > 0 {
        let last = entries.len() - 1;
        lemma_count(entries.last().triples, triple);
        if count(entries.last().triples, triple) > 0 {
            assert(entries[last].triples.contains(triple));
        } else {
            let front = entries.drop_last();
            lemma_supported(front, triple);
            let i = choose|i: int|
                0 <= i < front.len() && (#[trigger] front[i]).triples.contains(triple);
            assert(entries[i].triples.contains(triple));
        }
    }
}

/// What occurs in a part occurs at least as often in the whole.
proof fn lemma_prefix(items: Seq<TripleView>, at: int, item: TripleView)
    requires
        0 <= at <= items.len(),
    ensures
        count(items.take(at), item) <= count(items, item),
{
    assert(items =~= items.take(at) + items.skip(at));
    crate::bag::lemma_weight_add(items.take(at), items.skip(at), is(item));
    lemma_count(items.skip(at), item);
}

/// Changes of solutions and of triples keep their kinds and their values. Changes that tell
/// what became of a set of triples lead from the set before to the set after.
pub proof fn law_changes_of_graphs_keep_their_kind(
    solution: QuerySolution,
    triple: Triple,
    changes: Seq<Delta<TripleView>>,
    before: Set<TripleView>,
    after: Set<TripleView>,
    view: TripleView,
)
    ensures
        change_view(Delta::Addition(solution)) == Delta::Addition(solution@),
        change_view(Delta::Deletion(solution)) == Delta::Deletion(solution@),
        triple_delta(Delta::Addition(triple)) == Delta::Addition(triple@),
        triple_delta(Delta::Deletion(triple)) == Delta::Deletion(triple@),
        tells_graph(changes, before, after) ==> (after.contains(view) <==> changes.contains(
            Delta::Addition(view),
        ) || (before.contains(view) && !changes.contains(Delta::Deletion(view)))),
        tells_graph(changes, before, after) && changes.contains(Delta::Addition(view))
            ==> !before.contains(view),
{
    if tells_graph(changes, before, after) {
        assert(tells(changes, view, before.contains(view), after.contains(view)));
        lemma_count(changes, Delta::Addition(view));
        lemma_count(changes, Delta::Deletion(view));
    }
}

/// A change of a solution changes the solutions that are kept by just that: one more with the
/// values of an added one, one less with those of a deleted one, if there is one.
pub proof fn law_kept_solutions_follow_the_changes(
    before: Seq<Entry>,
    after: Seq<Entry>,
    solution: QuerySolution,
    template: Seq<TripleTemplate>,
)
    ensures
        entry_step(before, after, Delta::Addition(solution), template) ==> after.len()
            == before.len() + 1 && has_entry(after, solution@) && forall|i: int|
            0 <= i < before.len() ==> (#[trigger] after[i]) == before[i],
        entry_step(before, after, Delta::Deletion(solution), template) ==> after.len()
            == before.len() - (if exists|i: int|
            0 <= i < before.len() && (#[trigger] before[i]).values == solution@ {
            1int
        } else {
            0int
        }),
{
    if entry_step(before, after, Delta::Addition(solution), template) {
        assert(after[after.len() - 1].values == solution@);
        assert forall|i: int| 0 <= i < before.len() implies (#[trigger] after[i]) == before[i] by {
            assert(after.drop_last()[i] == before[i]);
        }
    }
}

} // verus!
