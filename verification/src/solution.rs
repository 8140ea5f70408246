//! Solutions of queries.

use crate::fx::{hash_words, words_hash};
use crate::model::{names, term_words, Term, TermView, Variable};
use crate::table::share;
use crate::tuple::column_of;
use std::sync::Arc;
use vstd::prelude::*;

verus! {

/// A solution of a query: the variables of the query and their values.
pub struct QuerySolution {
    variables: Arc<Vec<Variable>>,
    values: Vec<Option<Term>>,
}

/// The views of values.
pub open spec fn value_views(values: Seq<Option<Term>>) -> Seq<Option<TermView>> {
    values.map_values(
        |value: Option<Term>|
            match value {
                Some(term) => Some(term@),
                None => None,
            },
    )
}

/// What identifies a solution: its values in the order of the variables.
impl View for QuerySolution {
    type V = Seq<Option<TermView>>;

    closed spec fn view(&self) -> Seq<Option<TermView>> {
        value_views(self.values@)
    }
}

/// The words of values.
pub open spec fn value_words(values: Seq<Option<TermView>>) -> Seq<u64>
    decreases values.len(),
{
    if values.len() == 0 {
        Seq::empty()
    } else {
        let front = value_words(values.drop_last());
        match values.last() {
            Some(term) => front.push(1) + term_words(term),
            None => front.push(0),
        }
    }
}

/// The hash of values.
pub open spec fn values_key(values: Seq<Option<TermView>>) -> u64 {
    words_hash(value_words(values))
}

/// The value of a variable in a solution.
pub open spec fn value_of(
    variables: Seq<Seq<u8>>,
    values: Seq<Option<TermView>>,
    name: Seq<u8>,
) -> Option<TermView> {
    if variables.contains(name) && column_of(variables, name) < values.len() {
        values[column_of(variables, name) as int]
    } else {
        None
    }
}

/// The value of a variable is the one that stands where the variable stands first among the
/// variables; a variable that is not among them has none.
pub proof fn law_values_stand_where_their_variables_stand(
    variables: Seq<Seq<u8>>,
    values: Seq<Option<TermView>>,
    name: Seq<u8>,
)
    ensures
        forall|i: int|
            0 <= i < variables.len() && i < values.len() && (#[trigger] variables[i]) == name && (
            forall|j: int| 0 <= j < i ==> (#[trigger] variables[j]) != name) ==> value_of(
                variables,
                values,
                name,
            ) == values[i],
        (forall|i: int| 0 <= i < variables.len() ==> (#[trigger] variables[i]) != name)
            ==> value_of(variables, values, name) is None,
        value_of(variables, values, name) is Some ==> exists|i: int|
            0 <= i < variables.len() && i < values.len() && (#[trigger] variables[i]) == name
                && values[i] == value_of(variables, values, name),
{
    if variables.contains(name) {
        variables.index_of_first_ensures(name);
    }
    assert forall|i: int|
        0 <= i < variables.len() && i < values.len() && (#[trigger] variables[i]) == name && (
        forall|j: int| 0 <= j < i ==> (#[trigger] variables[j]) != name) implies value_of(
        variables,
        values,
        name,
    ) == values[i] by {
        assert(variables.contains(name));
        assert(column_of(variables, name) == i);
    }
}

impl QuerySolution {
    /// The names of the variables.
    pub closed spec fn names(&self) -> Seq<Seq<u8>> {
        names(self.variables@)
    }

    pub fn new(variables: Arc<Vec<Variable>>, values: Vec<Option<Term>>) -> (solution: Self)
        ensures
            solution.names() == names(variables@),
            solution@ == value_views(values@),
    {
        QuerySolution { variables, values }
    }

    pub fn variables(&self) -> (variables: &Vec<Variable>)
        ensures
            names(variables@) == self.names(),
    {
        &self.variables
    }

    pub fn values(&self) -> (values: &Vec<Option<Term>>)
        ensures
            value_views(values@) == self@,
    {
        &self.values
    }

    /// The value of a variable, if it has one.
    pub fn get(&self, variable: &Variable) -> (value: Option<&Term>)
        ensures
            match value {
                Some(term) => value_of(self.names(), self@, variable@) == Some(term@),
                None => value_of(self.names(), self@, variable@) is None,
            },
    {
        let ghost known = self.names();
        let mut next: usize = 0;
        while next < self.variables.len()
            invariant
                known == names(self.variables@),
                next <= known.len(),
                forall|i: int| 0 <= i < next ==> known[i] != variable@,
            decreases known.len() - next,
        {
            if self.variables[next].same(variable) {
                proof {
                    assert(known[next as int] == variable@);
                    known.index_of_first_ensures(variable@);
                }
                if next < self.values.len() {
                    assert(self@[next as int] == value_views(self.values@)[next as int]);
                    return match &self.values[next] {
                        Some(term) => Some(term),
                        None => None,
                    };
                }
                return None;
            }
            next = next + 1;
        }
        assert(!known.contains(variable@));
        None
    }

    /// The variables, shared.
    pub fn shared_variables(&self) -> (variables: Arc<Vec<Variable>>)
        ensures
            names(variables@) == self.names(),
    {
        share(&self.variables)
    }

    /// The same values, of the given variables.
    pub fn with_variables(&self, variables: Arc<Vec<Variable>>) -> (solution: Self)
        ensures
            solution@ == self@,
            solution.names() == names(variables@),
    {
        QuerySolution { variables, values: duplicate_values(&self.values) }
    }

    pub fn duplicate(&self) -> (solution: Self)
        ensures
            solution@ == self@,
            solution.names() == self.names(),
    {
        QuerySolution { variables: share(&self.variables), values: duplicate_values(&self.values) }
    }

    /// Whether two solutions have the same values.
    pub fn same_values(&self, other: &QuerySolution) -> (result: bool)
        ensures
            result == (self@ == other@),
    {
        if self.values.len() != other.values.len() {
            assert(self@.len() != other@.len());
            return false;
        }
        let mut next: usize = 0;
        while next < self.values.len()
            invariant
                self.values@.len() == other.values@.len(),
                next <= self.values@.len(),
                forall|i: int| 0 <= i < next ==> self@[i] == other@[i],
            decreases self.values@.len() - next,
        {
            let same = match (&self.values[next], &other.values[next]) {
                (Some(a), Some(b)) => a.same(b),
                (None, None) => true,
                _ => false,
            };
            if !same {
                assert(self@[next as int] != other@[next as int]);
                return false;
            }
            next = next + 1;
        }
        assert(self@ =~= other@);
        true
    }

    /// The hash of the values.
    pub fn key(&self) -> (key: u64)
        ensures
            key == values_key(self@),
    {
        hash_words(&self.words())
    }

    /// The words of the values.
    pub fn words(&self) -> (words: Vec<u64>)
        ensures
            words@ == value_words(self@),
    {
        let ghost all = self@;
        let mut words: Vec<u64> = Vec::new();
        let mut next: usize = 0;
        assert(all.take(0) =~= Seq::empty());
        while next < self.values.len()
            invariant
                all == value_views(self.values@),
                next <= self.values@.len(),
                words@ == value_words(all.take(next as int)),
            decreases self.values@.len() - next,
        {
            let ghost so_far = words@;
            assert(all.take(next + 1).drop_last() =~= all.take(next as int));
            assert(all.take(next + 1).last() == all[next as int]);
            match &self.values[next] {
                Some(term) => {
                    words.push(1);
                    term.push_words(&mut words);
                },
                None => {
                    words.push(0);
                },
            }
            next = next + 1;
        }
        assert(all.take(next as int) =~= all);
        words
    }
}

fn duplicate_values(values: &Vec<Option<Term>>) -> (copy: Vec<Option<Term>>)
    ensures
        value_views(copy@) == value_views(values@),
{
    let mut copy: Vec<Option<Term>> = Vec::new();
    let mut next: usize = 0;
    while next < values.len()
        invariant
            next <= values@.len(),
            copy@.len() == next,
            forall|i: int|
                0 <= i < next ==> value_views(copy@)[i] == value_views(values@)[i],
        decreases values@.len() - next,
    {
        let ghost so_far = copy@;
        copy.push(
            match &values[next] {
                Some(term) => Some(term.duplicate()),
                None => None,
            },
        );
        assert forall|i: int| 0 <= i < next + 1 implies value_views(copy@)[i] == value_views(
            values@,
        )[i] by {
            if i < next {
                assert(copy@[i] == so_far[i]);
                assert(value_views(so_far)[i] == value_views(values@)[i]);
            }
        }
        next = next + 1;
    }
    assert(value_views(copy@) =~= value_views(values@));
    copy
}

/// Values are seen one for one, and those that are missing are missing.
pub proof fn law_values_are_seen_one_for_one(values: Seq<Option<Term>>)
    ensures
        value_views(values).len() == values.len(),
        forall|i: int|
            0 <= i < values.len() ==> match values[i] {
                Some(term) => (#[trigger] value_views(values)[i]) == Some(term@),
                None => value_views(values)[i] is None,
            },
{
}

} // verus!
