//! Writing a file so that it is never seen half written.
//!
//! The text goes into a new file beside the target, which then takes the target's
//! name. Where either step fails, the new file is removed and the target stays as
//! it was. A file that holds secrets is created for its owner alone, before it has
//! its name.

use crate::extensions::paths;
use crate::extensions::paths::{copy_path, PathPart};
use crate::ident::fresh_id;
use crate::text::cat3;
use vstd::prelude::*;
use vstd::string::*;

verus! {

/// The directory of a file: the path without its last part, or the current
/// directory where nothing is left.
pub open spec fn directory_of(path: Seq<paths::PartView>) -> Seq<paths::PartView> {
    if path.len() > 1 && !(path.last() is RootDir) && !(path.last() is Prefix) {
        path.drop_last()
    } else {
        seq![paths::PartView::CurDir]
    }
}

/// The name of a file: the last part of its path, or `file` where that is no
/// name.
pub open spec fn file_name_of(path: Seq<paths::PartView>) -> Seq<char> {
    if path.len() > 0 {
        match path.last() {
            paths::PartView::Normal(n) => n,
            _ => "file"@,
        }
    } else {
        "file"@
    }
}

/// The file beside `path` that is written first.
pub open spec fn temp_of(path: Seq<paths::PartView>, id: Seq<char>) -> Seq<paths::PartView> {
    directory_of(path).push(
        paths::PartView::Normal("."@ + file_name_of(path) + ".dscode-"@ + id + ".tmp"@),
    )
}

/// The file beside `path` that is written first, under the id `id`.
pub fn temp_path(path: &Vec<PathPart>, id: &str) -> (r: Vec<PathPart>)
    ensures
        paths::path_view(r@) == temp_of(paths::path_view(path@), id@),
{
    let ghost p = paths::path_view(path@);
    let n: usize = path.len();
    let mut nameless = "file".to_string();
    let mut inside = false;
    if n > 0 {
        match &path[n - 1] {
            PathPart::Normal(name) => {
                nameless = name.clone();
                inside = n > 1;
            },
            PathPart::CurDir => {
                inside = n > 1;
            },
            PathPart::ParentDir => {
                inside = n > 1;
            },
            _ => {},
        }
    }
    assert(nameless@ == file_name_of(p));
    let mut dir = copy_path(path);
    if inside {
        let _ = dir.pop();
        assert(paths::path_view(dir@) =~= p.drop_last()) by {
            assert(forall|i: int| 0 <= i < dir@.len() ==> paths::path_view(dir@)[i] == p[i]);
        }
    } else {
        dir = Vec::new();
        dir.push(PathPart::CurDir);
        assert(paths::path_view(dir@) =~= seq![paths::PartView::CurDir]);
    }
    let ghost before = dir@;
    let name = cat3(".", nameless.as_str(), ".dscode-").concat(id).concat(".tmp");
    dir.push(PathPart::Normal(name));
    assert(paths::path_view(dir@) =~= paths::path_view(before).push(dir@.last()@));
    dir
}

/// A write under way.
#[derive(Debug)]
pub struct AtomicWrite {
    /// The file that is written in the end.
    pub target: Vec<PathPart>,
    /// The file beside it that is written first.
    pub temp: Vec<PathPart>,
    /// Whether the file is created for its owner alone.
    pub private: bool,
}

/// What to do next.
#[derive(Debug, PartialEq, Eq)]
pub enum WriteStep {
    /// Give the new file the name of the target.
    Rename,
    /// Remove the new file; the write has failed for the reason given.
    Discard(String),
    /// The target is written.
    Done,
}

fn begin(path: &Vec<PathPart>, private: bool) -> (r: AtomicWrite)
    ensures
        paths::path_view(r.target@) == paths::path_view(path@),
        r.private == private,
        exists|id: Seq<char>|
            id.len() == 36 && #[trigger] temp_of(paths::path_view(path@), id) == paths::path_view(
                r.temp@,
            ),
{
    let id = fresh_id();
    AtomicWrite { target: copy_path(path), temp: temp_path(path, id.as_str()), private }
}

/// Starts writing the file at `path`: the text goes into a new file beside it.
pub fn write_atomic(path: &Vec<PathPart>) -> (r: AtomicWrite)
    ensures
        paths::path_view(r.target@) == paths::path_view(path@),
        !r.private,
        exists|id: Seq<char>|
            id.len() == 36 && #[trigger] temp_of(paths::path_view(path@), id) == paths::path_view(
                r.temp@,
            ),
{
    begin(path, false)
}

/// [`write_atomic`] for a file that only its owner may read.
pub fn write_private_atomic(path: &Vec<PathPart>) -> (r: AtomicWrite)
    ensures
        paths::path_view(r.target@) == paths::path_view(path@),
        r.private,
        exists|id: Seq<char>|
            id.len() == 36 && #[trigger] temp_of(paths::path_view(path@), id) == paths::path_view(
                r.temp@,
            ),
{
    begin(path, true)
}

impl AtomicWrite {
    /// What to do once the new file is written and flushed, or could not be.
    pub fn on_written(&self, outcome: Result<(), String>) -> (r: WriteStep)
        ensures
            r == (match outcome {
                Ok(_) => WriteStep::Rename,
                Err(e) => WriteStep::Discard(e),
            }),
    {
        match outcome {
            Ok(_) => WriteStep::Rename,
            Err(e) => WriteStep::Discard(e),
        }
    }

    /// What to do once the new file has the name of the target, or could not get
    /// it.
    pub fn on_renamed(&self, outcome: Result<(), String>) -> (r: WriteStep)
        ensures
            r == (match outcome {
                Ok(_) => WriteStep::Done,
                Err(e) => WriteStep::Discard(e),
            }),
    {
        match outcome {
            Ok(_) => WriteStep::Done,
            Err(e) => WriteStep::Discard(e),
        }
    }
}

/// The new file is never the target itself, and stands in the target's directory.
pub proof fn law_temp_is_beside(path: Seq<paths::PartView>, id: Seq<char>)
    ensures
        temp_of(path, id) != path,
        directory_of(temp_of(path, id)) == directory_of(path),
{
    reveal_strlit(".");
    reveal_strlit(".dscode-");
    reveal_strlit(".tmp");
    let t = temp_of(path, id);
    assert(t.drop_last() =~= directory_of(path));
    if t == path {
        assert(t.last() == path.last());
        let own = file_name_of(path);
        assert(("."@ + own + ".dscode-"@ + id + ".tmp"@).len() > own.len());
    }
}

} // verus!
