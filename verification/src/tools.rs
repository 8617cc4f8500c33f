//! Where an FFmpeg command-line tool is run from.

use vstd::prelude::*;

use crate::mixer::text::join;

verus! {

/// Where a tool is found.
pub enum ToolPlace {
    /// The copy that is shipped next to the running executable, under this file name.
    Beside(String),
    /// The bare file name, found on `PATH`.
    OnPath(String),
}

/// The file name of a tool: its name and what executables end in here.
pub fn tool_file(name: &str, suffix: &str) -> (file: String)
    ensures
        file@ == name@ + suffix@,
{
    join(name, suffix)
}

/// Picks where to run a tool from: the bundled copy when there is one, so that a packaged
/// app records and converts with nothing installed; otherwise the bare name.
pub fn tool_beside(name: &str, suffix: &str, bundled: bool) -> (place: ToolPlace)
    ensures
        match place {
            ToolPlace::Beside(file) => bundled && file@ == name@ + suffix@,
            ToolPlace::OnPath(file) => !bundled && file@ == name@ + suffix@,
        },
{
    let file = tool_file(name, suffix);
    if bundled {
        ToolPlace::Beside(file)
    } else {
        ToolPlace::OnPath(file)
    }
}

} // verus!
