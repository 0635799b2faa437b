//! The cascade request of the admin surface: which way a stream is handed
//! on.

use vstd::prelude::*;
use vstd::string::*;

verus! {

/// What a cascade request asks for.
#[derive(Debug)]
pub enum CascadeAction {
    /// Pull the stream from the source.
    Pull { source_url: String },
    /// Push the stream to the target.
    Push { target_url: String },
}

/// Why a cascade request is refused.
#[derive(Clone, Copy, Debug, PartialEq, Eq, Structural)]
pub enum CascadeError {
    /// Neither source nor target is given.
    BothEmpty,
    /// Source and target are both given.
    BothGiven,
}

impl CascadeError {
    /// The message that the client is given.
    pub fn message(&self) -> (text: String)
        ensures
            text@ == match self {
                CascadeError::BothEmpty => "src and dst cannot be empty at the same time"@,
                CascadeError::BothGiven => "src and dst cannot be non-empty at the same time"@,
            },
    {
        match self {
            CascadeError::BothEmpty => String::from_str(
                "src and dst cannot be empty at the same time",
            ),
            CascadeError::BothGiven => String::from_str(
                "src and dst cannot be non-empty at the same time",
            ),
        }
    }
}

/// Decides a cascade request: exactly one of source and target has to be
/// given.
pub fn cascade_action(source_url: Option<String>, target_url: Option<String>) -> (decision: Result<
    CascadeAction,
    CascadeError,
>)
    ensures
        decision == match (source_url, target_url) {
            (None, None) => Err::<CascadeAction, CascadeError>(CascadeError::BothEmpty),
            (Some(_), Some(_)) => Err(CascadeError::BothGiven),
            (Some(source_url), None) => Ok(CascadeAction::Pull { source_url }),
            (None, Some(target_url)) => Ok(CascadeAction::Push { target_url }),
        },
{
    match (source_url, target_url) {
        (None, None) => Err(CascadeError::BothEmpty),
        (Some(_), Some(_)) => Err(CascadeError::BothGiven),
        (Some(source_url), None) => Ok(CascadeAction::Pull { source_url }),
        (None, Some(target_url)) => Ok(CascadeAction::Push { target_url }),
    }
}

} // verus!
