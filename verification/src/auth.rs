//! Where the editor that the plugin borrows its sign-in from keeps its
//! state database.

use vstd::prelude::*;

verus! {

/// The database path under a Linux home directory.
pub open spec fn linux_db_path(home: Seq<char>) -> Seq<char> {
    home + "/.config/Cursor/User/globalStorage/state.vscdb"@
}

/// The database path under a macOS home directory.
pub open spec fn macos_db_path(home: Seq<char>) -> Seq<char> {
    home + "/Library/Application Support/Cursor/User/globalStorage/state.vscdb"@
}

/// The places to look for the database under `home`, in the order to try
/// them: the Linux one, then the macOS one.
pub fn cursor_db_candidates(home: &str) -> (r: (String, String))
    ensures
        r.0@ == linux_db_path(home@),
        r.1@ == macos_db_path(home@),
{
    let mut linux = String::from_str(home);
    linux.append("/.config/Cursor/User/globalStorage/state.vscdb");
    let mut macos = String::from_str(home);
    macos.append("/Library/Application Support/Cursor/User/globalStorage/state.vscdb");
    (linux, macos)
}

} // verus!
