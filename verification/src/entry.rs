//! The per-path record held by the index, and the monoidal summary the index
//! aggregates over ranges of entries.

use crate::char_bag::CharBag;
use crate::paths::{PathKey, TreePath};
use vstd::prelude::*;

verus! {

/// What kind of object an entry records.
#[derive(Clone, Copy, Debug, PartialEq, Eq, Structural)]
pub enum EntryKind {
    /// A directory whose children have not been scanned into the index yet.
    PendingDir,
    /// A directory whose children are in the index.
    Dir,
    /// A regular file, carrying the character fingerprint of its path.
    File(CharBag),
}

/// One indexed entry of the worktree.
pub struct Entry {
    pub path: TreePath,
    pub kind: EntryKind,
    pub inode: u64,
    pub is_symlink: bool,
    /// `None` while classification against the ignore rules is pending.
    pub is_ignored: Option<bool>,
}

/// The mathematical value of an `Entry`.
pub ghost struct EntryData {
    pub path: Seq<Seq<u8>>,
    pub kind: EntryKind,
    pub inode: u64,
    pub is_symlink: bool,
    pub is_ignored: Option<bool>,
}

impl View for Entry {
    type V = EntryData;

    open spec fn view(&self) -> EntryData {
        EntryData {
            path: self.path@,
            kind: self.kind,
            inode: self.inode,
            is_symlink: self.is_symlink,
            is_ignored: self.is_ignored,
        }
    }
}

impl DeepView for Entry {
    type V = EntryData;

    open spec fn deep_view(&self) -> EntryData {
        self.view()
    }
}

pub open spec fn is_file(e: EntryData) -> bool {
    e.kind is File
}

pub open spec fn is_dir_kind(e: EntryData) -> bool {
    e.kind is PendingDir || e.kind is Dir
}

/// A visible file: a file whose classification is settled as not ignored.
pub open spec fn is_visible_file(e: EntryData) -> bool {
    is_file(e) && e.is_ignored == Some(false)
}

impl Clone for Entry {
    fn clone(&self) -> (r: Self)
        ensures
            r@ == self@,
    {
        Entry {
            path: self.path.clone(),
            kind: self.kind,
            inode: self.inode,
            is_symlink: self.is_symlink,
            is_ignored: self.is_ignored,
        }
    }
}

impl Entry {
    pub fn path(&self) -> (r: &TreePath)
        ensures
            r@ == self@.path,
    {
        &self.path
    }

    pub fn inode(&self) -> (r: u64)
        ensures
            r == self@.inode,
    {
        self.inode
    }

    pub fn is_ignored(&self) -> (r: Option<bool>)
        ensures
            r == self@.is_ignored,
    {
        self.is_ignored
    }

    pub fn set_ignored(&mut self, ignored: bool)
        ensures
            final(self)@ == (EntryData { is_ignored: Some(ignored), ..old(self)@ }),
    {
        self.is_ignored = Some(ignored);
    }

    pub fn is_dir(&self) -> (r: bool)
        ensures
            r == is_dir_kind(self@),
    {
        matches!(self.kind, EntryKind::PendingDir | EntryKind::Dir)
    }

    /// The key under which this entry is addressed in the index.
    pub fn key(&self) -> (r: PathKey)
        ensures
            r@ == self@.path,
    {
        PathKey(self.path.clone())
    }
}

/// The mathematical value of an `EntrySummary`.
pub ghost struct SummaryData {
    pub max_path: Seq<Seq<u8>>,
    pub file_count: usize,
    pub visible_file_count: usize,
    pub recompute_ignore_status: bool,
}

/// The aggregate carried for a range of entries: the greatest path of the
/// range, how many entries are files, how many of those are visible, and
/// whether any entry still awaits ignore classification.
pub struct EntrySummary {
    pub max_path: TreePath,
    pub file_count: usize,
    pub visible_file_count: usize,
    pub recompute_ignore_status: bool,
}

impl View for EntrySummary {
    type V = SummaryData;

    open spec fn view(&self) -> SummaryData {
        SummaryData {
            max_path: self.max_path@,
            file_count: self.file_count,
            visible_file_count: self.visible_file_count,
            recompute_ignore_status: self.recompute_ignore_status,
        }
    }
}

/// The summary of a single entry.
pub open spec fn summary_of(e: EntryData) -> SummaryData {
    SummaryData {
        max_path: e.path,
        file_count: if is_file(e) {
            1usize
        } else {
            0usize
        },
        visible_file_count: if is_visible_file(e) {
            1usize
        } else {
            0usize
        },
        recompute_ignore_status: e.is_ignored is None,
    }
}

/// The monoid combine: counts add, the flag ORs, the greater `max_path` wins
/// (for summaries aggregated left to right, the right operand's).
pub open spec fn summary_combine(a: SummaryData, b: SummaryData) -> SummaryData {
    SummaryData {
        max_path: b.max_path,
        file_count: (a.file_count + b.file_count) as usize,
        visible_file_count: (a.visible_file_count + b.visible_file_count) as usize,
        recompute_ignore_status: a.recompute_ignore_status || b.recompute_ignore_status,
    }
}

impl Entry {
    pub fn summary(&self) -> (r: EntrySummary)
        ensures
            r@ == summary_of(self@),
    {
        let file_count: usize;
        let visible_file_count: usize;
        if matches!(self.kind, EntryKind::File(_)) {
            file_count = 1;
            visible_file_count = if matches!(self.is_ignored, Some(false)) {
                1
            } else {
                0
            };
        } else {
            file_count = 0;
            visible_file_count = 0;
        }
        EntrySummary {
            max_path: self.path.clone(),
            file_count,
            visible_file_count,
            recompute_ignore_status: self.is_ignored.is_none(),
        }
    }
}

impl EntrySummary {
    /// Fold another summary into this one, from the right.
    pub fn add_assign(&mut self, rhs: &EntrySummary)
        requires
            old(self)@.file_count + rhs@.file_count <= usize::MAX,
            old(self)@.visible_file_count + rhs@.visible_file_count <= usize::MAX,
        ensures
            final(self)@ == summary_combine(old(self)@, rhs@),
    {
        self.max_path = rhs.max_path.clone();
        self.file_count = self.file_count + rhs.file_count;
        self.visible_file_count = self.visible_file_count + rhs.visible_file_count;
        self.recompute_ignore_status = self.recompute_ignore_status || rhs.recompute_ignore_status;
    }
}

impl Default for EntrySummary {
    /// The monoid identity: empty path, zero counts, no pending flag.
    fn default() -> (r: Self)
        ensures
            r@.max_path.len() == 0,
            r@.file_count == 0,
            r@.visible_file_count == 0,
            !r@.recompute_ignore_status,
    {
        EntrySummary {
            max_path: TreePath::root(),
            file_count: 0,
            visible_file_count: 0,
            recompute_ignore_status: false,
        }
    }
}

} // verus!
