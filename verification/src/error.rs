//! Errors of the store and of query evaluation.

use crate::numeric_encoder::StrHash;
use crate::table::share;
use std::sync::Arc;
use vstd::prelude::*;

verus! {

/// What is wrong with stored data.
#[derive(Clone, Copy, PartialEq, Eq, Structural, Debug)]
pub enum CorruptionError {
    /// The default graph stands where a term is expected.
    UnexpectedDefaultGraph,
    /// A term refers to a string that is not in the store.
    MissingString(StrHash),
    /// The row of this number could not be decoded.
    UndecodableRow(u64),
    /// A quad is in a graph that is not listed as a named graph.
    UnlistedGraph,
}

/// Why a store operation failed.
#[derive(Clone, Copy, PartialEq, Eq, Structural, Debug)]
pub enum StorageError {
    /// The underlying files could not be read or written; the number tells the cause.
    Io(i32),
    Corruption(CorruptionError),
    /// There is nothing on disk of an in-memory store that could be copied.
    InMemoryBackup,
    /// The store was opened for reading alone.
    ReadOnly,
}

impl StorageError {
    /// A description of the error.
    pub fn message(&self) -> (message: &'static str)
        ensures
            message@ == self.message_text(),
    {
        match self {
            StorageError::Io(_) => "input or output failed",
            StorageError::Corruption(CorruptionError::UnexpectedDefaultGraph) =>
            "Unexpected default graph",
            StorageError::Corruption(CorruptionError::MissingString(_)) =>
            "Not able to find a string in the storage",
            StorageError::Corruption(CorruptionError::UndecodableRow(_)) =>
            "A row of the storage could not be decoded",
            StorageError::Corruption(CorruptionError::UnlistedGraph) =>
            "A quad is in a graph that is not a named graph",
            StorageError::InMemoryBackup => "It is not possible to backup an in-memory database",
            StorageError::ReadOnly => "Transactions are only possible on read-write instances",
        }
    }

    pub open spec fn message_text(self) -> Seq<char> {
        match self {
            StorageError::Io(_) => "input or output failed"@,
            StorageError::Corruption(CorruptionError::UnexpectedDefaultGraph) =>
            "Unexpected default graph"@,
            StorageError::Corruption(CorruptionError::MissingString(_)) =>
            "Not able to find a string in the storage"@,
            StorageError::Corruption(CorruptionError::UndecodableRow(_)) =>
            "A row of the storage could not be decoded"@,
            StorageError::Corruption(CorruptionError::UnlistedGraph) =>
            "A quad is in a graph that is not a named graph"@,
            StorageError::InMemoryBackup => "It is not possible to backup an in-memory database"@,
            StorageError::ReadOnly => "Transactions are only possible on read-write instances"@,
        }
    }
}

/// The forms of query patterns that cannot be kept up to date from changes.
#[derive(Clone, Copy, PartialEq, Eq, Structural, Debug)]
pub enum PatternForm {
    Path,
    Graph,
    Minus,
    LeftJoin,
    Filter,
    Union,
    Extend,
    OrderBy,
    Distinct,
    Reduced,
    Slice,
    Group,
    Service,
}

/// A query pattern that cannot be kept up to date from changes.
#[derive(PartialEq, Eq, Debug)]
pub struct UnsupportedPattern {
    pub form: PatternForm,
    /// The pattern, as messages show it.
    pub shown: Arc<String>,
}

impl UnsupportedPattern {
    pub fn duplicate(&self) -> (pattern: Self)
        ensures
            pattern == *self,
    {
        UnsupportedPattern { form: self.form, shown: share(&self.shown) }
    }
}

/// Why the evaluation of a query failed.
#[derive(PartialEq, Eq, Debug)]
pub enum QueryEvaluationError {
    /// The dataset failed.
    Dataset(StorageError),
    /// The evaluation was cancelled.
    Cancelled,
    /// A quad of the default graph came where only named graphs were asked for.
    UnexpectedDefaultGraph,
    /// The pattern cannot be evaluated incrementally.
    Unsupported(UnsupportedPattern),
    /// A tuple was deleted that had not been added.
    NonExistingTupleDeleted,
    /// The variable of the substitution of this number is not a variable of the query.
    NotExistingSubstitutedVariable(usize),
}

/// The error for a change that deletes a tuple which is not there.
pub fn non_existing_tuple_deleted() -> (error: QueryEvaluationError)
    ensures
        error == QueryEvaluationError::NonExistingTupleDeleted,
{
    QueryEvaluationError::NonExistingTupleDeleted
}

impl QueryEvaluationError {
    /// A description of the error.
    pub fn message(&self) -> (message: String)
        ensures
            message@ == self.message_text(),
    {
        match self {
            QueryEvaluationError::Dataset(error) => error.message().to_owned(),
            QueryEvaluationError::Cancelled => "The query evaluation was cancelled".to_owned(),
            QueryEvaluationError::UnexpectedDefaultGraph => "Unexpected default graph".to_owned(),
            QueryEvaluationError::Unsupported(pattern) => {
                let mut message = "incremental SELECT core does not support ".to_owned();
                message.append(pattern.shown.as_str());
                message.append(" yet");
                message
            },
            QueryEvaluationError::NonExistingTupleDeleted =>
            "A tuple was deleted before it was added".to_owned(),
            QueryEvaluationError::NotExistingSubstitutedVariable(_) =>
            "A substituted variable is not a variable of the query".to_owned(),
        }
    }

    pub open spec fn message_text(self) -> Seq<char> {
        match self {
            QueryEvaluationError::Dataset(error) => error.message_text(),
            QueryEvaluationError::Cancelled => "The query evaluation was cancelled"@,
            QueryEvaluationError::UnexpectedDefaultGraph => "Unexpected default graph"@,
            QueryEvaluationError::Unsupported(pattern) =>
            "incremental SELECT core does not support "@ + pattern.shown@ + " yet"@,
            QueryEvaluationError::NonExistingTupleDeleted =>
            "A tuple was deleted before it was added"@,
            QueryEvaluationError::NotExistingSubstitutedVariable(_) =>
            "A substituted variable is not a variable of the query"@,
        }
    }
}

/// An error of a store has the same message as an error of a query. The message on a pattern
/// that is not supported shows the pattern, always in the same sentence.
pub proof fn law_messages_show_what_failed(
    error: StorageError,
    first: UnsupportedPattern,
    second: UnsupportedPattern,
)
    ensures
        QueryEvaluationError::Dataset(error).message_text() == error.message_text(),
        exists|before: Seq<char>, after: Seq<char>|
            {
                &&& QueryEvaluationError::Unsupported(first).message_text() == #[trigger] (before
                    + first.shown@ + after)
                &&& QueryEvaluationError::Unsupported(second).message_text() == before
                    + second.shown@ + after
            },
{
    let before = "incremental SELECT core does not support "@;
    let after = " yet"@;
    assert(QueryEvaluationError::Unsupported(first).message_text() == (before + first.shown@
        + after));
    assert(QueryEvaluationError::Unsupported(second).message_text() == (before + second.shown@
        + after));
}

} // verus!
