//! The errors of the engine.

use vstd::prelude::*;

verus! {

/// What went wrong, with a message for the user.
#[derive(Debug)]
pub enum NodeStorError {
    IoError(String),
    InvalidModelFormat(String),
    InferenceError(String),
    ConfigError(String),
    VulkanError(String),
}

impl NodeStorError {
    /// The message that the error carries.
    pub open spec fn text(&self) -> Seq<char> {
        match self {
            NodeStorError::IoError(m) => m@,
            NodeStorError::InvalidModelFormat(m) => m@,
            NodeStorError::InferenceError(m) => m@,
            NodeStorError::ConfigError(m) => m@,
            NodeStorError::VulkanError(m) => m@,
        }
    }

    /// The message that the error carries.
    pub fn message(&self) -> (m: String)
        ensures
            m@ == self.text(),
    {
        match self {
            NodeStorError::IoError(m) => m.clone(),
            NodeStorError::InvalidModelFormat(m) => m.clone(),
            NodeStorError::InferenceError(m) => m.clone(),
            NodeStorError::ConfigError(m) => m.clone(),
            NodeStorError::VulkanError(m) => m.clone(),
        }
    }
}

} // verus!
