//! The files a scan reads: where each was found, what its report name is, and why a file that
//! was passed over was passed over.
//!
//! A file is taken for binary by the heuristic `git` and `grep` use, a NUL byte near its start,
//! which `content_inspector` applies; a path the user named directly is always taken.

use vstd::prelude::*;

use crate::text::{decimal, decimal_string, join, joined, owned, push_str, views};

verus! {

/// What is left of `path` once the leading components that make up `root` are removed, if
/// `root` is a prefix of it component by component.
pub uninterp spec fn path_after_prefix(path: Seq<char>, root: Seq<char>) -> Option<Seq<char>>;

/// `std::path::Path::strip_prefix`, which compares whole components, not characters.
#[verifier::external_body]
pub(crate) fn strip_path_prefix(path: &str, root: &str) -> (r: Option<String>)
    ensures
        match r {
            Some(rest) => path_after_prefix(path@, root@) == Some(rest@),
            None => path_after_prefix(path@, root@) is None,
        },
{
    std::path::Path::new(path).strip_prefix(root).ok().map(|rest| rest.to_string_lossy().into_owned())
}

/// The final component of `path`, unless it ends in `..`.
pub uninterp spec fn path_file_name(path: Seq<char>) -> Option<Seq<char>>;

/// `std::path::Path::file_name`.
#[verifier::external_body]
pub(crate) fn file_name_of(path: &str) -> (r: Option<String>)
    ensures
        match r {
            Some(name) => path_file_name(path@) == Some(name@),
            None => path_file_name(path@) is None,
        },
{
    std::path::Path::new(path).file_name().map(|name| name.to_string_lossy().into_owned())
}

/// A file the scanner will read, and the root it was found under.
#[derive(Debug, Clone, PartialEq, Eq)]
pub struct Source {
    path: String,
    root: String,
}

impl Source {
    /// The file's path.
    pub closed spec fn path_text(&self) -> Seq<char> {
        self.path@
    }

    /// The root the file was found under.
    pub closed spec fn root_text(&self) -> Seq<char> {
        self.root@
    }

    pub fn new(path: &str, root: &str) -> (r: Self)
        ensures
            r.path_text() == path@,
            r.root_text() == root@,
    {
        Source { path: owned(path), root: owned(root) }
    }

    pub fn path(&self) -> (r: &str)
        ensures
            r@ == self.path_text(),
    {
        self.path.as_str()
    }

    /// Report name: the full path, because shard names repeat across subdirectories.
    pub fn label(&self) -> (r: String)
        ensures
            r@ == self.path_text(),
    {
        owned(self.path.as_str())
    }

    /// Position within its root, so an output tree can mirror the input one; the whole path
    /// when the file does not lie under its root.
    pub fn relative(&self) -> (r: String)
        ensures
            r@ == match path_after_prefix(self.path_text(), self.root_text()) {
                Some(rest) => rest,
                None => self.path_text(),
            },
    {
        match strip_path_prefix(self.path.as_str(), self.root.as_str()) {
            Some(rest) => rest,
            None => owned(self.path.as_str()),
        }
    }
}

/// A path that was not scanned, and why.
#[derive(Debug, Clone, PartialEq, Eq)]
pub struct Skipped {
    pub path: String,
    pub reason: &'static str,
}

/// The files a scan will read and the paths it passed over.
#[derive(Debug, Default)]
pub struct Discovery {
    pub sources: Vec<Source>,
    pub skipped: Vec<Skipped>,
}

/// Whether content_inspector's `inspect` calls these leading bytes binary: no byte-order mark
/// starts them, and a NUL byte occurs in the first 1024 of them or they start with a PDF or PNG
/// signature.
pub open spec fn inspected_binary(head: Seq<u8>) -> bool {
    let boms: Seq<Seq<u8>> = seq![
        seq![0xEFu8, 0xBBu8, 0xBFu8],
        seq![0x00u8, 0x00u8, 0xFEu8, 0xFFu8],
        seq![0xFFu8, 0xFEu8, 0x00u8, 0x00u8],
        seq![0xFEu8, 0xFFu8],
        seq![0xFFu8, 0xFEu8],
    ];
    let scanned = if head.len() < 1024 { head.len() as int } else { 1024 };
    &&& !(exists|k: int| 0 <= k < boms.len() && boms[k].is_prefix_of(head))
    &&& ((exists|i: int| 0 <= i < scanned && head[i] == 0u8)
        || seq![0x25u8, 0x50u8, 0x44u8, 0x46u8].is_prefix_of(head)
        || seq![0x89u8, 0x50u8, 0x4Eu8, 0x47u8].is_prefix_of(head))
}

/// `content_inspector::inspect`, asked whether the bytes are binary.
#[verifier::external_body]
fn inspects_as_binary(head: &[u8]) -> (r: bool)
    ensures
        r == inspected_binary(head@),
{
    content_inspector::inspect(head).is_binary()
}

/// Why a file found while walking a directory is not scanned, or `None` when it looks like
/// text; `head` is its first bytes, or `None` when it could not be read.
pub fn classify(head: Option<&[u8]>) -> (r: Option<&'static str>)
    ensures
        match head {
            None => r matches Some(reason) && reason@ == "unreadable"@,
            Some(bytes) => if inspected_binary(bytes@) {
                r matches Some(reason) && reason@ == "binary"@
            } else {
                r is None
            },
        },
{
    match head {
        None => Some("unreadable"),
        Some(bytes) => if inspects_as_binary(bytes) {
            Some("binary")
        } else {
            None
        },
    }
}

/// How a skipped path is named in the summary: its file name (the whole path when it has
/// none) and the reason in brackets.
pub open spec fn skipped_entry(s: Skipped) -> Seq<char> {
    let name = match path_file_name(s.path@) {
        Some(n) => n,
        None => s.path@,
    };
    name + " ("@ + s.reason@ + ")"@
}

/// The summary line for these skipped paths, naming at most `limit` of them.
pub open spec fn skipped_summary(skipped: Seq<Skipped>, limit: nat) -> Option<Seq<char>> {
    if skipped.len() == 0 {
        None
    } else {
        let shown = if limit < skipped.len() { limit as int } else { skipped.len() as int };
        let names = Seq::new(shown as nat, |i: int| skipped_entry(skipped[i]));
        let more = if skipped.len() > limit {
            ", and "@ + decimal((skipped.len() - limit) as nat) + " more"@
        } else {
            Seq::empty()
        };
        Some("skipped "@ + decimal(skipped.len()) + ": "@ + joined(names, ", "@) + more)
    }
}

impl Discovery {
    pub fn is_empty(&self) -> (r: bool)
        ensures
            r == (self.sources@.len() == 0),
    {
        self.sources.len() == 0
    }

    /// One line naming what was passed over, or `None` when nothing was.
    pub fn summarize_skipped(&self, limit: usize) -> (r: Option<String>)
        ensures
            match r {
                Some(note) => skipped_summary(self.skipped@, limit as nat) == Some(note@),
                None => skipped_summary(self.skipped@, limit as nat) is None,
            },
    {
        let count = self.skipped.len();
        if count == 0 {
            return None;
        }
        let shown_count = if limit < count { limit } else { count };
        let ghost names = Seq::new(shown_count as nat, |i: int| skipped_entry(self.skipped@[i]));
        let mut shown: Vec<String> = Vec::new();
        let mut k: usize = 0;
        while k < shown_count
            invariant
                shown_count <= count == self.skipped@.len(),
                k <= shown_count,
                names == Seq::new(shown_count as nat, |i: int| skipped_entry(self.skipped@[i])),
                views(shown@) == names.take(k as int),
            decreases shown_count - k,
        {
            let entry = &self.skipped[k];
            let mut item = match file_name_of(entry.path.as_str()) {
                Some(name) => name,
                None => owned(entry.path.as_str()),
            };
            push_str(&mut item, " (");
            push_str(&mut item, entry.reason);
            push_str(&mut item, ")");
            proof {
                crate::text::lemma_views_push(shown@, item);
            }
            shown.push(item);
            k = k + 1;
            proof {
                assert(views(shown@) =~= names.take(k as int));
            }
        }
        proof {
            assert(names.take(shown_count as int) =~= names);
        }
        let mut note = owned("skipped ");
        push_str(&mut note, decimal_string(count as u64).as_str());
        push_str(&mut note, ": ");
        push_str(&mut note, join(&shown, ", ").as_str());
        if count > limit {
            push_str(&mut note, ", and ");
            push_str(&mut note, decimal_string((count - limit) as u64).as_str());
            push_str(&mut note, " more");
        }
        Some(note)
    }
}

/// What discovery does with a root it was handed.
#[derive(Debug, Clone, Copy, PartialEq, Eq, Structural)]
pub enum RootStep {
    /// A directory: walked, each file inside classified.
    Walk,
    /// A path named directly: taken as it is, never classified, because naming it was the
    /// operator's decision.
    Take,
    /// Nothing is there: reported as skipped.
    Missing,
}

pub fn root_step(is_dir: bool, exists: bool) -> (r: RootStep)
    ensures
        r == (if is_dir {
            RootStep::Walk
        } else if exists {
            RootStep::Take
        } else {
            RootStep::Missing
        }),
{
    if is_dir {
        RootStep::Walk
    } else if exists {
        RootStep::Take
    } else {
        RootStep::Missing
    }
}

/// Why a root that does not exist is skipped.
pub const MISSING_REASON: &'static str = "does not exist";

} // verus!
