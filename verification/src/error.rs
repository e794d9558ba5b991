//! The failures that stop a pipeline.

use vstd::prelude::*;

verus! {

/// Why a node could not be built or run. Every one of these ends the run;
/// failed assertions and differences between tables are results, not errors.
#[derive(Debug, PartialEq, Eq)]
pub enum PipelineError {
    /// A value that is none of null, string, integer and float.
    UnsupportedValueKind,
    /// A configuration lacks the named field, or holds a value there that
    /// is not of the kind that the node asks for.
    MissingField(String),
    /// A configuration has a shape that its node cannot read.
    MalformedConfig,
    /// A node names a template that the template document does not hold.
    UnknownTemplate(String),
    /// A node names a driver that nobody registered.
    UnknownDriver(String),
    /// An assertion document that is not one key over a fitting value.
    MalformedAssert,
    /// A node names a table that the state does not hold.
    UnknownTable(String),
    /// Source data that is not a list of records of plain values, or a record
    /// without the field it is identified by.
    MalformedData,
    /// A checkpoint document that does not hold tables and a plan.
    MalformedCheckpoint,
    /// An input that the source does not hold.
    MissingInput,
}

/// What a `PipelineError` holds, as a mathematical value.
pub enum ErrorModel {
    UnsupportedValueKind,
    MissingField(Seq<char>),
    MalformedConfig,
    UnknownTemplate(Seq<char>),
    UnknownDriver(Seq<char>),
    MalformedAssert,
    UnknownTable(Seq<char>),
    MalformedData,
    MalformedCheckpoint,
    MissingInput,
}

impl View for PipelineError {
    type V = ErrorModel;

    open spec fn view(&self) -> ErrorModel {
        match self {
            PipelineError::UnsupportedValueKind => ErrorModel::UnsupportedValueKind,
            PipelineError::MissingField(name) => ErrorModel::MissingField(name@),
            PipelineError::MalformedConfig => ErrorModel::MalformedConfig,
            PipelineError::UnknownTemplate(name) => ErrorModel::UnknownTemplate(name@),
            PipelineError::UnknownDriver(name) => ErrorModel::UnknownDriver(name@),
            PipelineError::MalformedAssert => ErrorModel::MalformedAssert,
            PipelineError::UnknownTable(name) => ErrorModel::UnknownTable(name@),
            PipelineError::MalformedData => ErrorModel::MalformedData,
            PipelineError::MalformedCheckpoint => ErrorModel::MalformedCheckpoint,
            PipelineError::MissingInput => ErrorModel::MissingInput,
        }
    }
}

} // verus!
