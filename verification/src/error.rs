//! Why devices cannot be resolved.

use vstd::prelude::*;

verus! {

/// Why the requested devices cannot be resolved.
#[derive(Debug)]
pub enum CdiError {
    Fatal(String),
}

impl DeepView for CdiError {
    type V = Seq<char>;

    open spec fn deep_view(&self) -> Seq<char> {
        match self {
            CdiError::Fatal(message) => message@,
        }
    }
}

impl CdiError {
    /// What is told of the error.
    pub fn message(&self) -> (r: String)
        ensures
            r@ == self.deep_view(),
    {
        match self {
            CdiError::Fatal(message) => message.clone(),
        }
    }
}

} // verus!
