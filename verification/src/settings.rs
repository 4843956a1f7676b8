//! Where the application's settings file lives inside a configuration
//! directory. The file itself is read and written outside this crate;
//! only the path rule is the library's business.

use vstd::prelude::*;

verus! {

/// The settings file's path inside the given directory.
pub fn settings_file_path_for_dir(dir: &str) -> (r: String)
    ensures
        r@ == dir@ + "/settings.json"@,
{
    let mut s = dir.to_owned();
    s.append("/settings.json");
    s
}

} // verus!
