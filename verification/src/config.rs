//! Checks on the configuration.

use vstd::prelude::*;
use vstd::string::*;
use crate::models::HyperFindError;

verus! {

/// A configuration error carrying `msg`.
pub open spec fn is_config_error(e: HyperFindError, msg: Seq<char>) -> bool {
    e matches HyperFindError::ConfigError(s) && s@ == msg
}

/// Checks that a directory to index exists and is a directory, given what
/// the file system says of `path`.
pub fn validate_directory(path: &str, exists: bool, is_dir: bool) -> (r: Result<(), HyperFindError>)
    ensures
        !exists ==> (r matches Err(e) && is_config_error(e, "Directory does not exist: "@ + path@)),
        exists && !is_dir ==> (r matches Err(e) && is_config_error(e, "Path is not a directory: "@ + path@)),
        exists && is_dir ==> r is Ok,
{
    if !exists {
        let mut m = String::from_str("Directory does not exist: ");
        m.append(path);
        return Err(HyperFindError::ConfigError(m));
    }
    if !is_dir {
        let mut m = String::from_str("Path is not a directory: ");
        m.append(path);
        return Err(HyperFindError::ConfigError(m));
    }
    Ok(())
}

} // verus!
