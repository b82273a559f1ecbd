//! The file names of the persisted documents, appended to whatever base
//! directory the surrounding program resolved.

use vstd::prelude::*;

verus! {

/// The settings file's path under a base directory.
pub fn get_settings_location(base: &str) -> (r: String)
    ensures
        r@ == base@ + "/settings.json"@,
{
    let mut r = String::from_str(base);
    r.append("/settings.json");
    r
}

/// The active task list's path under a base directory.
pub fn get_task_list_location(base: &str) -> (r: String)
    ensures
        r@ == base@ + "/storage.json"@,
{
    let mut r = String::from_str(base);
    r.append("/storage.json");
    r
}

/// The archive's path under a base directory.
pub fn get_archive_location(base: &str) -> (r: String)
    ensures
        r@ == base@ + "/archive.json"@,
{
    let mut r = String::from_str(base);
    r.append("/archive.json");
    r
}

} // verus!
