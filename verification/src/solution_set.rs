//! Bags of solutions.

use crate::bag::{
    concat, count, is, lemma_count, lemma_weight_add, lemma_weight_push, lemma_weight_without,
    same_bag,
};
use crate::delta::Delta;
use crate::fx::{distinct, lists_keys, occurs, FxKey, FxMap};
use crate::model::{names, TermView, Variable};
use crate::replay::step;
use crate::solution::{value_words, QuerySolution};
use crate::table::share;
use crate::tally::Tally;
use std::sync::Arc;
use vstd::prelude::*;

verus! {

/// The values of a solution.
pub type Values = Seq<Option<TermView>>;

impl FxKey for QuerySolution {
    type Model = Seq<Option<TermView>>;

    open spec fn model(&self) -> Seq<Option<TermView>> {
        self@
    }

    open spec fn words(model: Seq<Option<TermView>>) -> Seq<u64> {
        value_words(model)
    }

    fn same(&self, other: &Self) -> (result: bool) {
        self.same_values(other)
    }

    fn duplicate(&self) -> (result: Self) {
        QuerySolution::duplicate(self)
    }

    fn to_words(&self) -> (words: Vec<u64>) {
        self.words()
    }
}

/// The variables of a solution, and how often it occurs.
pub struct Counted {
    variables: Arc<Vec<Variable>>,
    tally: Tally,
}

impl Counted {
    /// The names of the variables.
    pub closed spec fn names(&self) -> Seq<Seq<u8>> {
        names(self.variables@)
    }

    /// How often the solution occurs.
    pub closed spec fn times(&self) -> nat {
        self.tally@
    }
}

/// A collision-safe multiset of query solutions keyed by the hash of their ordered values.
pub struct QuerySolutionSet {
    counts: FxMap<QuerySolution, Counted>,
    all: Ghost<Seq<Values>>,
}

impl QuerySolutionSet {
    /// Every solution is counted.
    pub closed spec fn wf(&self) -> bool {
        &&& self.counts.wf()
        &&& forall|values: Values| #[trigger]
            self.counts@.contains_key(values) <==> count(self.all@, values) > 0
        &&& forall|values: Values| #[trigger]
            self.counts@.contains_key(values) ==> self.counts@[values].times() == count(
                self.all@,
                values,
            )
    }

    /// The names of the variables of a solution that is there.
    pub closed spec fn names_of(&self, values: Values) -> Seq<Seq<u8>> {
        self.counts@[values].names()
    }

    /// Whether all solutions have the variables of these names.
    pub open spec fn named(&self, names: Seq<Seq<u8>>) -> bool {
        forall|values: Values| #[trigger]
            self@.contains(values) ==> self.names_of(values) == names
    }

    /// The solutions.
    pub closed spec fn view(&self) -> Seq<Values> {
        self.all@
    }

    pub fn new() -> (set: Self)
        ensures
            set.wf(),
            set@ == Seq::<Values>::empty(),
    {
        QuerySolutionSet { counts: FxMap::new(), all: Ghost(Seq::empty()) }
    }

    pub fn insert(&mut self, solution: QuerySolution)
        requires
            old(self).wf(),
        ensures
            final(self).wf(),
            final(self)@ == step(old(self)@, Delta::Addition(solution@)),
            forall|values: Values| #[trigger]
                final(self)@.contains(values) ==> final(self).names_of(values) == if old(self)@.contains(values) {
                    old(self).names_of(values)
                } else {
                    solution.names()
                },
    {
        let ghost before = *self;
        let ghost values = solution@;
        let mut counted = match self.counts.remove(&solution) {
            Some(counted) => counted,
            None => Counted { variables: solution.shared_variables(), tally: Tally::new() },
        };
        counted.tally.add();
        let ghost entry = counted;
        self.counts.insert(solution, counted);
        self.all = Ghost(before.all@.push(values));
        proof {
            lemma_count(before.all@, values);
            assert(self.counts@ =~= before.counts@.insert(values, entry));
            assert forall|other: Values|
                #![trigger self.counts@.contains_key(other)]
                (self.counts@.contains_key(other) <==> count(self.all@, other) > 0) && (
                self.counts@.contains_key(other) ==> self.counts@[other].times() == count(
                    self.all@,
                    other,
                )) by {
                lemma_weight_push(before.all@, values, is(other));
                lemma_count(before.all@, other);
                assert(before.counts@.contains_key(other) <==> count(before.all@, other) > 0);
                assert(before.counts@.contains_key(values) <==> count(before.all@, values) > 0);
            }
            assert forall|other: Values| #[trigger] self@.contains(other) implies self.names_of(
                other,
            ) == if before@.contains(other) {
                before.names_of(other)
            } else {
                solution.names()
            } by {
                lemma_count(before.all@, other);
                lemma_weight_push(before.all@, values, is(other));
                lemma_count(self.all@, other);
                assert(before.counts@.contains_key(other) <==> count(before.all@, other) > 0);
            }
        }
    }

    /// Takes one occurrence of a solution out, if there is one.
    pub fn remove_one(&mut self, solution: &QuerySolution)
        requires
            old(self).wf(),
        ensures
            final(self).wf(),
            final(self)@ == step(old(self)@, Delta::Deletion(solution@)),
            forall|values: Values| #[trigger]
                final(self)@.contains(values) ==> old(self)@.contains(values) && final(self).names_of(values) == old(self).names_of(values),
    {
        let ghost before = *self;
        let ghost values = solution@;
        proof {
            lemma_count(before.all@, values);
            assert(before.counts@.contains_key(values) <==> count(before.all@, values) > 0);
        }
        let mut counted = match self.counts.remove(solution) {
            Some(counted) => counted,
            None => {
                assert(self.counts@ =~= before.counts@);
                return ;
            },
        };
        counted.tally.take();
        let ghost entry = counted;
        if counted.tally.count() > 0 {
            self.counts.insert(solution.duplicate(), counted);
        }
        self.all = Ghost(step(before.all@, Delta::Deletion(values)));
        proof {
            if entry.times() > 0 {
                assert(self.counts@ =~= before.counts@.insert(values, entry));
            } else {
                assert(self.counts@ =~= before.counts@.remove(values));
            }
            assert forall|other: Values|
                #![trigger self.counts@.contains_key(other)]
                (self.counts@.contains_key(other) <==> count(self.all@, other) > 0) && (
                self.counts@.contains_key(other) ==> self.counts@[other].times() == count(
                    self.all@,
                    other,
                )) by {
                lemma_weight_without(before.all@, values, is(other));
                lemma_count(before.all@, other);
                assert(before.counts@.contains_key(other) <==> count(before.all@, other) > 0);
            }
            assert forall|other: Values| #[trigger] self@.contains(other) implies before@.contains(
                other,
            ) && self.names_of(other) == before.names_of(other) by {
                lemma_weight_without(before.all@, values, is(other));
                lemma_count(before.all@, other);
                lemma_count(self.all@, other);
                assert(self.counts@.contains_key(other) <==> count(self.all@, other) > 0);
            }
        }
    }

    /// Goes through the solutions, each as often as it occurs.
    pub fn iter(&self) -> (iter: QuerySolutionSetIter<'_>)
        requires
            self.wf(),
        ensures
            iter.wf(),
            iter.all() == self@,
            same_bag(iter.rest(), self@),
            forall|values: Values| #[trigger] iter.names_of(values) == self.names_of(values),
    {
        let solutions = self.counts.keys();
        let iter = QuerySolutionSetIter { set: self, solutions, index: 0, remaining: 0 };
        proof {
            lemma_iter(*self, solutions@);
            if solutions@.len() > 0 {
                assert(solutions@ =~= seq![solutions@[0]] + solutions@.skip(1));
                lemma_concat_first(solutions@, repeated(*self));
                assert(iter.rest() =~= concat(solutions@, repeated(*self)));
            } else {
                assert(iter.rest() =~= concat(solutions@, repeated(*self)));
            }
        }
        iter
    }
}

/// As often as a solution occurs, its values.
spec fn repeated(set: QuerySolutionSet) -> spec_fn(QuerySolution) -> Seq<Values> {
    |solution: QuerySolution| Seq::new(set.counts@[solution@].times(), |i: int| solution@)
}

proof fn lemma_concat_first<T, U>(items: Seq<T>, f: spec_fn(T) -> Seq<U>)
    requires
        items.len() > 0,
    ensures
        concat(items, f) == f(items[0]) + concat(items.skip(1), f),
    decreases items.len(),
{
    if items.len() == 1 {
        assert(items.drop_last() =~= Seq::empty());
        assert(items.skip(1) =~= Seq::empty());
        assert(concat(items.drop_last(), f) =~= Seq::empty());
        assert(concat(items.skip(1), f) =~= Seq::empty());
        assert(Seq::<U>::empty() + f(items.last()) =~= f(items[0]) + Seq::<U>::empty());
    } else {
        lemma_concat_first(items.drop_last(), f);
        assert(items.drop_last().skip(1) =~= items.skip(1).drop_last());
        assert(items.skip(1).last() == items.last());
        assert((f(items[0]) + concat(items.skip(1).drop_last(), f)) + f(items.last()) =~= f(
            items[0],
        ) + (concat(items.skip(1).drop_last(), f) + f(items.last())));
    }
}

proof fn lemma_repeat_count(values: Values, times: nat, other: Values)
    ensures
        count(Seq::new(times, |i: int| values), other) == if other == values {
            times as int
        } else {
            0
        },
    decreases times,
{
    let all = Seq::new(times, |i: int| values);
    if times > 0 {
        let front = Seq::new((times - 1) as nat, |i: int| values);
        assert(all.drop_last() =~= front);
        lemma_repeat_count(values, (times - 1) as nat, other);
    }
}

proof fn lemma_keys_count(set: QuerySolutionSet, keys: Seq<QuerySolution>, values: Values)
    requires
        distinct(keys),
    ensures
        count(concat(keys, repeated(set)), values) == if occurs(keys, values) {
            set.counts@[values].times() as int
        } else {
            0
        },
    decreases keys.len(),
{
    if keys.len() > 0 {
        let front = keys.drop_last();
        let last = keys.len() - 1;
        assert(distinct(front)) by {
            assert forall|i: int, j: int| 0 <= i < j < front.len() implies (
            #[trigger] front[i]).model() != (#[trigger] front[j]).model() by {
                assert(keys[i].model() != keys[j].model());
            }
        }
        lemma_keys_count(set, front, values);
        lemma_weight_add(concat(front, repeated(set)), repeated(set)(keys.last()), is(values));
        lemma_repeat_count(keys.last()@, set.counts@[keys.last()@].times(), values);
        assert(occurs(keys, values) <==> occurs(front, values) || keys.last()@ == values) by {
            if occurs(front, values) {
                let i = choose|i: int| 0 <= i < front.len() && (#[trigger] front[i]).model()
                    == values;
                assert(keys[i].model() == values);
            }
            if occurs(keys, values) {
                let i = choose|i: int| 0 <= i < keys.len() && (#[trigger] keys[i]).model()
                    == values;
                if i < last {
                    assert(front[i].model() == values);
                }
            }
            assert(keys[last].model() == keys.last()@);
        }
        if occurs(front, values) && keys.last()@ == values {
            let i = choose|i: int| 0 <= i < front.len() && (#[trigger] front[i]).model() == values;
            assert(keys[i].model() != keys[last].model());
        }
    }
}

proof fn lemma_iter(set: QuerySolutionSet, keys: Seq<QuerySolution>)
    requires
        set.wf(),
        lists_keys(keys, set.counts@),
    ensures
        same_bag(concat(keys, repeated(set)), set@),
{
    assert forall|values: Values| #[trigger]
        count(concat(keys, repeated(set)), values) == count(set@, values) by {
        lemma_keys_count(set, keys, values);
        lemma_count(set@, values);
        assert(set.counts@.contains_key(values) <==> occurs(keys, values));
        assert(set.counts@.contains_key(values) <==> count(set.all@, values) > 0);
    }
}

/// A walk through a bag of solutions.
pub struct QuerySolutionSetIter<'a> {
    set: &'a QuerySolutionSet,
    solutions: Vec<QuerySolution>,
    index: usize,
    remaining: usize,
}

impl<'a> QuerySolutionSetIter<'a> {
    pub closed spec fn wf(&self) -> bool {
        &&& self.set.wf()
        &&& self.index <= self.solutions@.len()
        &&& forall|i: int|
            0 <= i < self.solutions@.len() ==> self.set.counts@.contains_key(
                (#[trigger] self.solutions@[i])@,
            )
        &&& self.remaining > 0 ==> self.index < self.solutions@.len()
    }

    /// All solutions.
    pub closed spec fn all(&self) -> Seq<Values> {
        self.set@
    }

    /// The names of the variables of a solution that is there.
    pub closed spec fn names_of(&self, values: Values) -> Seq<Seq<u8>> {
        self.set.names_of(values)
    }

    /// Whether all solutions have the variables of these names.
    pub open spec fn named(&self, names: Seq<Seq<u8>>) -> bool {
        forall|values: Values| #[trigger]
            self.all().contains(values) ==> self.names_of(values) == names
    }

    /// The solutions that are still to come.
    pub closed spec fn rest(&self) -> Seq<Values> {
        if self.index < self.solutions@.len() {
            let solution = self.solutions@[self.index as int];
            let left = if self.remaining == 0 {
                self.set.counts@[solution@].times()
            } else {
                self.remaining as nat
            };
            Seq::new(left, |i: int| solution@) + concat(
                self.solutions@.skip(self.index + 1),
                repeated(*self.set),
            )
        } else {
            Seq::empty()
        }
    }

    /// The next solution, and how often it occurs in all.
    pub fn next(&mut self) -> (item: Option<(QuerySolution, usize)>)
        requires
            old(self).wf(),
        ensures
            final(self).wf(),
            final(self).all() == old(self).all(),
            forall|values: Values| #[trigger]
                final(self).names_of(values) == old(self).names_of(values),
            match item {
                Some((solution, times)) => {
                    &&& old(self).rest().len() > 0
                    &&& solution@ == old(self).rest()[0]
                    &&& solution.names() == old(self).names_of(solution@)
                    &&& old(self).all().contains(solution@)
                    &&& final(self).rest() == old(self).rest().drop_first()
                    &&& times == count(old(self).all(), solution@)
                },
                None => old(self).rest().len() == 0 && final(self).rest() == old(self).rest(),
            },
    {
        let ghost before = *self;
        if self.index >= self.solutions.len() {
            return None;
        }
        let found = &self.solutions[self.index];
        proof {
            let values = self.solutions@[self.index as int]@;
            assert(self.set.counts@.contains_key(values));
            lemma_count(self.set.all@, values);
        }
        let (solution, times) = match self.set.counts.get(found) {
            Some(counted) => (
                found.with_variables(share(&counted.variables)),
                counted.tally.count(),
            ),
            None => (found.duplicate(), 1),
        };
        if self.remaining == 0 {
            self.remaining = times;
        }
        self.remaining = self.remaining - 1;
        if self.remaining == 0 {
            self.index = self.index + 1;
            proof {
                let skipped = before.solutions@.skip(before.index + 1);
                if self.index < self.solutions@.len() {
                    lemma_concat_first(skipped, repeated(*self.set));
                    assert(skipped.skip(1) =~= self.solutions@.skip(self.index + 1));
                    assert(skipped[0] == self.solutions@[self.index as int]);
                } else {
                    assert(skipped =~= Seq::empty());
                    assert(concat(skipped, repeated(*self.set)) =~= Seq::empty());
                }
                assert(self.rest() =~= before.rest().drop_first());
            }
        } else {
            assert(self.rest() =~= before.rest().drop_first());
        }
        Some((solution, times))
    }
}

} // verus!
