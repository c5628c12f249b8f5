use vstd::prelude::*;

use crate::path::is_component;

verus! {

/// Relies on rustix::system::uname: the node name that the running system
/// reports, read as text (bytes that are not UTF-8 become U+FFFD).
#[verifier::external_body]
pub(crate) fn system_hostname() -> (r: String) {
    rustix::system::uname().nodename().to_string_lossy().into_owned()
}

/// Relies on ignore::WalkBuilder with `max_depth(Some(1))` and
/// `standard_filters(false)`: the walk yields `dir` itself at depth 0 and
/// every entry directly inside it at depth 1, hidden and ignored files
/// included. Each entry is handed back as its depth and its file name
/// (`Path::file_name`, a single non-empty component, read as text), or
/// `None` where the walk reported an error or the entry has no file name.
#[verifier::external_body]
pub(crate) fn list_children(dir: &String) -> (r: Vec<Option<(usize, String)>>)
    ensures
        forall|i: int|
            0 <= i < r@.len() ==> (#[trigger] r@[i] matches Some((d, n)) ==> d <= 1 && is_component(n@)),
{
    let mut out = Vec::new();
    let walk = ignore::WalkBuilder::new(dir.as_str()).max_depth(Some(1)).standard_filters(false).build();
    for entry in walk {
        out.push(entry.ok().and_then(|e| {
            let depth = e.depth();
            e.path().file_name().map(|n| (depth, n.to_string_lossy().into_owned()))
        }));
    }
    out
}

} // verus!
