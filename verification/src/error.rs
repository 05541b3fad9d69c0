//! The failures that training and classification report.

use vstd::prelude::*;

verus! {

/// Why training or classification did not produce a result.
#[derive(Clone, Copy, Debug, PartialEq, Eq, Structural)]
pub enum ClassifierError {
    /// No record of the training set has both a text and a topic.
    InvalidInput,
    /// A count of the training set does not fit a 64-bit integer.
    CapacityExceeded,
    /// The model handed to classification is not well formed.
    ModelDecodeError,
}

impl ClassifierError {
    /// What the error says.
    pub open spec fn text(self) -> Seq<char> {
        match self {
            ClassifierError::InvalidInput => "No valid training documents"@,
            ClassifierError::CapacityExceeded => "Training data exceeds the capacity of the model"@,
            ClassifierError::ModelDecodeError => "Model is not well formed"@,
        }
    }

    /// What the error says.
    pub fn message(&self) -> (said: String)
        ensures
            said@ == self.text(),
    {
        match self {
            ClassifierError::InvalidInput => "No valid training documents".to_string(),
            ClassifierError::CapacityExceeded => "Training data exceeds the capacity of the model".to_string(),
            ClassifierError::ModelDecodeError => "Model is not well formed".to_string(),
        }
    }
}

} // verus!
