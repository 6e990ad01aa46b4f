//! An ordered iterator over the file entries of a snapshot — all of them, or
//! only the visible ones — seekable to a starting position in the chosen
//! count dimension.

use crate::entry::{Entry, EntryData};
use crate::index::{files_of, visible_files_of, FileCount, VisibleFileCount};
use crate::snapshot::Snapshot;
use vstd::prelude::*;

verus! {

pub enum FileIter {
    All(FileCount),
    Visible(VisibleFileCount),
}

impl FileIter {
    /// How many files of the chosen dimension have been passed.
    pub open spec fn position(&self) -> int {
        match self {
            FileIter::All(c) => c.0 as int,
            FileIter::Visible(c) => c.0 as int,
        }
    }

    pub open spec fn is_visible_iter(&self) -> bool {
        self is Visible
    }

    /// The sequence of entries this iterator walks, in path order.
    pub open spec fn stream(&self, s: Seq<EntryData>) -> Seq<EntryData> {
        if self.is_visible_iter() {
            visible_files_of(s)
        } else {
            files_of(s)
        }
    }

    /// An iterator over all files, starting at the `start`-th.
    pub fn all(start: usize) -> (r: FileIter)
        ensures
            r == FileIter::All(FileCount(start)),
    {
        FileIter::All(FileCount(start))
    }

    /// An iterator over visible files only, starting at the `start`-th.
    pub fn visible(start: usize) -> (r: FileIter)
        ensures
            r == FileIter::Visible(VisibleFileCount(start)),
    {
        FileIter::Visible(VisibleFileCount(start))
    }

    /// The entry at the iterator's position, if it is within the stream.
    pub fn item<'a>(&self, snapshot: &'a Snapshot) -> (r: Option<&'a Entry>)
        ensures
            match r {
                Some(e) => self.position() < self.stream(snapshot@.entries).len() && e@
                    == self.stream(snapshot@.entries)[self.position()],
                None => self.position() >= self.stream(snapshot@.entries).len(),
            },
    {
        match self {
            FileIter::All(c) => snapshot.entries.file_at(c.0),
            FileIter::Visible(c) => snapshot.entries.visible_file_at(c.0),
        }
    }

    /// Step past the current position.
    pub fn next_internal(&mut self)
        requires
            old(self).position() < usize::MAX,
        ensures
            final(self).is_visible_iter() == old(self).is_visible_iter(),
            final(self).position() == old(self).position() + 1,
    {
        let stepped = match self {
            FileIter::All(c) => FileIter::All(FileCount(c.0 + 1)),
            FileIter::Visible(c) => FileIter::Visible(VisibleFileCount(c.0 + 1)),
        };
        *self = stepped;
    }

    /// The entry at the current position, stepping past it when there is one.
    pub fn next<'a>(&mut self, snapshot: &'a Snapshot) -> (r: Option<&'a Entry>)
        requires
            old(self).position() < usize::MAX,
        ensures
            final(self).is_visible_iter() == old(self).is_visible_iter(),
            match r {
                Some(e) => old(self).position() < old(self).stream(snapshot@.entries).len() && e@
                    == old(self).stream(snapshot@.entries)[old(self).position()] && final(self).position()
                    == old(self).position() + 1,
                None => old(self).position() >= old(self).stream(snapshot@.entries).len()
                    && final(self).position() == old(self).position(),
            },
    {
        let item = match self {
            FileIter::All(c) => snapshot.entries.file_at(c.0),
            FileIter::Visible(c) => snapshot.entries.visible_file_at(c.0),
        };
        if item.is_some() {
            self.next_internal();
        }
        item
    }
}

impl Snapshot {
    /// An iterator over the file entries, starting at the `start`-th file.
    pub fn files(&self, start: usize) -> (r: FileIter)
        ensures
            r == FileIter::All(FileCount(start)),
    {
        FileIter::all(start)
    }

    /// An iterator over the visible file entries, starting at the `start`-th.
    pub fn visible_files(&self, start: usize) -> (r: FileIter)
        ensures
            r == FileIter::Visible(VisibleFileCount(start)),
    {
        FileIter::visible(start)
    }
}

} // verus!
