//! What ends a run.

use vstd::prelude::*;
use vstd::string::StringExecFns;

verus! {

/// Why a run was given up. Each of these is fatal: nothing is retried and no
/// partial result is kept.
#[derive(Debug, Clone, PartialEq, Eq)]
pub enum FilterError {
    /// A batch size of zero: no batch could ever take a record.
    InvalidBatchSize,
    /// A worker ended with a failure status. Holds the script it ran and
    /// what it wrote to standard error.
    ProcessFailure { script: String, stderr: String },
    /// A worker ended well, but its output was not a dataset.
    Deserialization { message: String },
}

/// What a [`FilterError`] holds.
#[verifier::ext_equal]
pub enum FailureModel {
    InvalidBatchSize,
    ProcessFailure { script: Seq<char>, stderr: Seq<char> },
    Deserialization { message: Seq<char> },
}

impl View for FilterError {
    type V = FailureModel;

    open spec fn view(&self) -> FailureModel {
        match self {
            FilterError::InvalidBatchSize => FailureModel::InvalidBatchSize,
            FilterError::ProcessFailure { script, stderr } => FailureModel::ProcessFailure {
                script: script@,
                stderr: stderr@,
            },
            FilterError::Deserialization { message } => FailureModel::Deserialization {
                message: message@,
            },
        }
    }
}

impl FailureModel {
    /// The text that tells a person what went wrong. For a failed worker it
    /// is the script, a line break, and the worker's standard error.
    pub open spec fn diagnostic(self) -> Seq<char> {
        match self {
            FailureModel::InvalidBatchSize => "batch size must be at least 1"@,
            FailureModel::ProcessFailure { script, stderr } => script + "\n"@ + stderr,
            FailureModel::Deserialization { message } => "worker output is not a dataset: "@
                + message,
        }
    }
}

impl FilterError {
    /// The text that tells a person what went wrong.
    pub fn diagnostic(&self) -> (text: String)
        ensures
            text@ == self@.diagnostic(),
    {
        match self {
            FilterError::InvalidBatchSize => "batch size must be at least 1".to_owned(),
            FilterError::ProcessFailure { script, stderr } => {
                let mut text = script.clone();
                text.append("\n");
                text.append(stderr.as_str());
                text
            },
            FilterError::Deserialization { message } => {
                let mut text = "worker output is not a dataset: ".to_owned();
                text.append(message.as_str());
                text
            },
        }
    }
}

} // verus!
