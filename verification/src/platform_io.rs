//! Reading ranges of model files, and the standard directories.

use vstd::prelude::*;

use crate::le_bytes::copy_bytes;
use crate::paths::{home_of, join_path, joined};

verus! {

/// Why a range could not be read.
#[derive(Debug, Clone, Copy, PartialEq, Eq, Structural)]
pub enum RangeError {
    /// The end of the range cannot be counted: "range overflow".
    Overflow,
    /// The file ends inside the range: "read past end of file".
    PastEnd,
}

impl RangeError {
    /// The error as text.
    pub fn message(&self) -> (s: String)
        ensures
            s@ == match self {
                RangeError::Overflow => "range overflow"@,
                RangeError::PastEnd => "read past end of file"@,
            },
    {
        match self {
            RangeError::Overflow => "range overflow".to_string(),
            RangeError::PastEnd => "read past end of file".to_string(),
        }
    }
}

/// The `len` bytes from `offset` on of a file that holds `data`.
pub fn read_range_sync(data: &[u8], offset: u64, len: usize) -> (r: Result<Vec<u8>, RangeError>)
    ensures
        ({
            let start = (offset as usize) as int;
            match r {
                Ok(v) => start + len <= data@.len() && v@ == data@.subrange(start, start + len),
                Err(RangeError::Overflow) => start + len > usize::MAX,
                Err(RangeError::PastEnd) => start + len <= usize::MAX && start + len
                    > data@.len(),
            }
        }),
{
    let start: usize = offset as usize;
    match start.checked_add(len) {
        None => Err(RangeError::Overflow),
        Some(end) => {
            if end > data.len() {
                Err(RangeError::PastEnd)
            } else {
                Ok(copy_bytes(data, start, end))
            }
        },
    }
}

/// The engine's directory, inside the home directory.
pub fn nodestor_data_dir(home: &str) -> (s: String)
    ensures
        s@ == home_of(home@),
{
    join_path(home, ".nodestor")
}

/// The directory of models.
pub fn models_dir(home: &str) -> (s: String)
    ensures
        s@ == joined(home_of(home@), "models"@),
{
    let base = nodestor_data_dir(home);
    join_path(base.as_str(), "models")
}

/// The directory of adapters.
pub fn loras_dir(home: &str) -> (s: String)
    ensures
        s@ == joined(home_of(home@), "loras"@),
{
    let base = nodestor_data_dir(home);
    join_path(base.as_str(), "loras")
}

/// The directory of system prompts.
pub fn prompts_dir(home: &str) -> (s: String)
    ensures
        s@ == joined(home_of(home@), "prompts"@),
{
    let base = nodestor_data_dir(home);
    join_path(base.as_str(), "prompts")
}

/// The directory of caches.
pub fn cache_dir(home: &str) -> (s: String)
    ensures
        s@ == joined(home_of(home@), "cache"@),
{
    let base = nodestor_data_dir(home);
    join_path(base.as_str(), "cache")
}

} // verus!
