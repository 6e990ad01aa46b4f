//! The snapshot: the bundle a reader holds — root identity, scan id, the
//! entry index and the ignore map — with its queries, and the mutations the
//! scanner drives it with.

use crate::char_bag::{bag_of_bytes, CharBag};
use crate::entry::{is_dir_kind, is_file, Entry, EntryData, EntryKind};
use crate::ignore_store::{
    consult_rules, has_dir, ig_at, IgnoreData, IgnoreStore, RuleMatch, match_of,
};
use crate::index::{
    entry_at, has_path, lemma_at_index, EntryIndex,
};
use crate::paths::{copy_bytes, is_under, wf_path, TreePath};
use vstd::prelude::*;

verus! {

/// An error returned to a caller of a snapshot query.
#[derive(Clone, Copy, Debug, PartialEq, Eq, Structural)]
pub enum WorktreeError {
    /// The queried path is not in the index.
    NotFound,
}

/// The component name `.git`.
pub open spec fn dot_git_name() -> Seq<u8> {
    seq![46u8, 103u8, 105u8, 116u8]
}

/// The component name `.gitignore`.
pub open spec fn gitignore_name() -> Seq<u8> {
    seq![46u8, 103u8, 105u8, 116u8, 105u8, 103u8, 110u8, 111u8, 114u8, 101u8]
}

/// A path that names a gitignore file: nonempty, final component `.gitignore`.
pub open spec fn is_gitignore_path(p: Seq<Seq<u8>>) -> bool {
    p.len() > 0 && p.last() == gitignore_name()
}

/// An entry that records a gitignore file.
pub open spec fn is_gitignore_file(e: EntryData) -> bool {
    is_file(e) && is_gitignore_path(e.path)
}

fn dot_git_vec() -> (r: Vec<u8>)
    ensures
        r@ == dot_git_name(),
{
    let mut v: Vec<u8> = Vec::new();
    v.push(46);
    v.push(103);
    v.push(105);
    v.push(116);
    proof {
        assert(v@ =~= dot_git_name());
    }
    v
}

pub(crate) fn gitignore_vec() -> (r: Vec<u8>)
    ensures
        r@ == gitignore_name(),
{
    let mut v: Vec<u8> = Vec::new();
    v.push(46);
    v.push(103);
    v.push(105);
    v.push(116);
    v.push(105);
    v.push(103);
    v.push(110);
    v.push(111);
    v.push(114);
    v.push(101);
    proof {
        assert(v@ =~= gitignore_name());
    }
    v
}

/// The mathematical value of a `Snapshot`.
pub ghost struct SnapshotData {
    pub id: u64,
    pub scan_id: u64,
    pub abs_path: Seq<Seq<u8>>,
    pub root_name_chars: Seq<u8>,
    pub ignores: Seq<IgnoreData>,
    pub entries: Seq<EntryData>,
}

/// A consistent, cheaply clonable view of the worktree at one scan id.
pub struct Snapshot {
    pub id: u64,
    pub scan_id: u64,
    /// The absolute path of the root, as components from the filesystem root.
    pub abs_path: TreePath,
    /// The bytes of the root's file name plus a trailing separator; folded
    /// into every entry's character fingerprint.
    pub root_name_chars: Vec<u8>,
    pub ignores: IgnoreStore,
    pub entries: EntryIndex,
}

impl View for Snapshot {
    type V = SnapshotData;

    open spec fn view(&self) -> SnapshotData {
        SnapshotData {
            id: self.id,
            scan_id: self.scan_id,
            abs_path: self.abs_path@,
            root_name_chars: self.root_name_chars@,
            ignores: self.ignores@,
            entries: self.entries@,
        }
    }
}

impl Clone for Snapshot {
    fn clone(&self) -> (r: Self)
        ensures
            r@ == self@,
    {
        Snapshot {
            id: self.id,
            scan_id: self.scan_id,
            abs_path: self.abs_path.clone(),
            root_name_chars: copy_bytes(&self.root_name_chars),
            ignores: self.ignores.clone(),
            entries: self.entries.clone(),
        }
    }
}

/// The ancestor walk of the ignore classification, consulting ancestors of
/// length `k` downward. The walk stops (and classifies as not ignored) at the
/// first ancestor missing from the index; a registered ruleset decides with
/// `Whitelist` or `Ignore`; `NoRule` defers to the next ancestor up.
pub open spec fn walk_ancestors(
    entries: Seq<EntryData>,
    ignores: Seq<IgnoreData>,
    p: Seq<Seq<u8>>,
    is_dir: bool,
    k: int,
) -> bool
    decreases k + 1,
{
    if k < 0 {
        false
    } else {
        let anc = p.subrange(0, k);
        if !has_path(entries, anc) {
            false
        } else if has_dir(ignores, anc) {
            match match_of(ig_at(ignores, anc).rules, p.skip(k), is_dir) {
                RuleMatch::Whitelist => false,
                RuleMatch::Ignore => true,
                RuleMatch::NoRule => walk_ancestors(entries, ignores, p, is_dir, k - 1),
            }
        } else {
            walk_ancestors(entries, ignores, p, is_dir, k - 1)
        }
    }
}

/// Whether the indexed path `p` is ignored: paths under `.git` always are;
/// otherwise the nearest ancestor whose rules decide, wins.
pub open spec fn spec_ignored(s: SnapshotData, p: Seq<Seq<u8>>) -> bool {
    if p.len() > 0 && p[0] == dot_git_name() {
        true
    } else {
        walk_ancestors(s.entries, s.ignores, p, is_dir_kind(entry_at(s.entries, p)), p.len() - 1)
    }
}

impl Snapshot {
    pub open spec fn wf(&self) -> bool {
        self.entries.wf() && self.ignores.wf()
    }

    /// An empty snapshot of the worktree rooted at `abs_path`.
    pub fn new(id: u64, abs_path: TreePath, root_name_chars: Vec<u8>) -> (r: Snapshot)
        ensures
            r.wf(),
            r@.id == id,
            r@.scan_id == 0,
            r@.abs_path == abs_path@,
            r@.root_name_chars == root_name_chars@,
            r@.entries =~= Seq::<EntryData>::empty(),
            r@.ignores =~= Seq::<IgnoreData>::empty(),
    {
        Snapshot {
            id,
            scan_id: 0,
            abs_path,
            root_name_chars,
            ignores: IgnoreStore::new(),
            entries: EntryIndex::new(),
        }
    }

    /// How many entries are files.
    pub fn file_count(&self) -> (r: usize)
        ensures
            r == crate::index::files_of(self@.entries).len(),
    {
        self.entries.summary().file_count
    }

    /// How many entries are files classified as not ignored.
    pub fn visible_file_count(&self) -> (r: usize)
        ensures
            r == crate::index::visible_files_of(self@.entries).len(),
    {
        self.entries.summary().visible_file_count
    }

    /// The entry carrying exactly `path`, if any.
    pub fn entry_for_path(&self, path: &TreePath) -> (r: Option<&Entry>)
        requires
            self.wf(),
        ensures
            r is Some <==> has_path(self@.entries, path@),
            match r {
                Some(e) => e@ == entry_at(self@.entries, path@),
                None => true,
            },
    {
        self.entries.lookup(path)
    }

    /// The inode recorded for `path`, if the path is indexed.
    pub fn inode_for_path(&self, path: &TreePath) -> (r: Option<u64>)
        requires
            self.wf(),
        ensures
            r is Some <==> has_path(self@.entries, path@),
            match r {
                Some(ino) => ino == entry_at(self@.entries, path@).inode,
                None => true,
            },
    {
        match self.entry_for_path(path) {
            Some(e) => Some(e.inode()),
            None => None,
        }
    }

    /// The root entry, present once a scan has inserted it.
    pub fn root_entry(&self) -> (r: Option<&Entry>)
        requires
            self.wf(),
        ensures
            r is Some <==> has_path(self@.entries, Seq::empty()),
            match r {
                Some(e) => e@ == entry_at(self@.entries, Seq::empty()),
                None => true,
            },
    {
        let root = TreePath::root();
        self.entry_for_path(&root)
    }

    /// The final component of the root's absolute path.
    pub fn root_name(&self) -> (r: Option<&Vec<u8>>)
        ensures
            match r {
                Some(n) => self@.abs_path.len() > 0 && n@ == self@.abs_path.last(),
                None => self@.abs_path.len() == 0,
            },
    {
        self.abs_path.file_name()
    }

    pub fn root_name_chars(&self) -> (r: &Vec<u8>)
        ensures
            r@ == self@.root_name_chars,
    {
        &self.root_name_chars
    }

    /// The paths of every entry but the root itself, in index (path) order.
    pub fn paths(&self) -> (r: Vec<TreePath>)
        requires
            self.wf(),
        ensures
            has_path(self@.entries, Seq::empty()) ==> r@.len() == self@.entries.len() - 1
                && (forall|i: int|
                0 <= i < r@.len() ==> r.deep_view()[i] == self@.entries[i + 1].path),
            !has_path(self@.entries, Seq::empty()) ==> r@.len() == self@.entries.len() && (forall|
                i: int,
            | 0 <= i < r@.len() ==> r.deep_view()[i] == self@.entries[i].path),
    {
        proof {
            // the root entry, if present, sits first in the path order
            if has_path(self@.entries, Seq::empty()) {
                let j = crate::index::idx_of(self@.entries, Seq::empty());
                if j > 0 {
                    assert(crate::paths::path_lt(self@.entries[0].path, Seq::empty()));
                }
            }
        }
        let mut start: usize = 0;
        if self.entries.len() > 0 {
            if self.entries.entry_at_index(0).path.num_components() == 0 {
                start = 1;
                proof {
                    assert(self@.entries[0].path =~= Seq::<Seq<u8>>::empty());
                    crate::index::lemma_at_index(self@.entries, 0);
                }
            } else {
                proof {
                    if has_path(self@.entries, Seq::empty()) {
                        assert(self@.entries[0].path.len() == 0);
                    }
                }
            }
        }
        let ghost base = start as int;
        let mut out: Vec<TreePath> = Vec::new();
        let mut i: usize = start;
        while i < self.entries.len()
            invariant
                base <= i <= self@.entries.len(),
                self.wf(),
                out@.len() == i - base,
                forall|k: int| 0 <= k < i - base ==> out.deep_view()[k] == self@.entries[k + base].path,
            decreases self@.entries.len() - i,
        {
            let e = self.entries.entry_at_index(i);
            let ghost pre = out;
            out.push(e.path.clone());
            proof {
                assert forall|k: int| 0 <= k < out@.len() implies out.deep_view()[k]
                    == self@.entries[k + base].path by {
                    assert(out.deep_view()[k] == out@[k].deep_view());
                    if k < pre@.len() {
                        assert(out@[k] == pre@[k]);
                        assert(pre.deep_view()[k] == pre@[k].deep_view());
                    }
                };
            }
            i += 1;
        }
        out
    }

    /// Whether `path` is ignored under the current rules. `Err(NotFound)`
    /// exactly when the path is not indexed.
    pub fn is_path_ignored(&self, path: &TreePath) -> (r: Result<bool, WorktreeError>)
        requires
            self.wf(),
        ensures
            r is Ok <==> has_path(self@.entries, path@),
            match r {
                Ok(b) => b == spec_ignored(self@, path@),
                Err(e) => e == WorktreeError::NotFound,
            },
    {
        let subject = match self.entries.lookup(path) {
            Some(e) => e,
            None => {
                return Err(WorktreeError::NotFound);
            },
        };
        let is_dir = subject.is_dir();
        proof {
            let i = crate::index::idx_of(self@.entries, path@);
            assert(wf_path(self@.entries[i].path));
            assert(wf_path(path@));
        }
        if path.num_components() > 0 {
            let git = dot_git_vec();
            if crate::paths::bytes_cmp(&path.components[0], &git) == crate::paths::PathOrder::Equal
             {
                proof {
                    crate::paths::lemma_deep_index(path.components, 0);
                }
                return Ok(true);
            }
            proof {
                crate::paths::lemma_deep_index(path.components, 0);
            }
        }
        let ghost sv = self@;
        let ghost pv = path@;
        let n = path.num_components();
        let mut k = n;
        while k > 0
            invariant
                self@ == sv,
                self.wf(),
                pv == path@,
                wf_path(pv),
                k <= n == pv.len(),
                has_path(sv.entries, pv),
                !(pv.len() > 0 && pv[0] == dot_git_name()),
                is_dir == is_dir_kind(entry_at(sv.entries, pv)),
                walk_ancestors(sv.entries, sv.ignores, pv, is_dir, pv.len() - 1)
                    == walk_ancestors(sv.entries, sv.ignores, pv, is_dir, k as int - 1),
            decreases k,
        {
            k = k - 1;
            let anc = path.prefix(k);
            match self.entries.lookup(&anc) {
                None => {
                    return Ok(false);
                },
                Some(_) => {},
            }
            match self.ignores.find(&anc) {
                Some(item) => {
                    let rel = path.suffix(k);
                    proof {
                        assert forall|j: int| 0 <= j < rel@.len() implies crate::paths::wf_component(
                            #[trigger] rel@[j],
                        ) by {
                            assert(rel@[j] == pv[k + j]);
                        };
                        assert(rel@.len() > 0);
                    }
                    match consult_rules(&item.rules, &rel, is_dir) {
                        RuleMatch::Whitelist => {
                            return Ok(false);
                        },
                        RuleMatch::Ignore => {
                            return Ok(true);
                        },
                        RuleMatch::NoRule => {},
                    }
                },
                None => {},
            }
        }
        proof {
            assert(walk_ancestors(sv.entries, sv.ignores, pv, is_dir, -1) == false);
        }
        Ok(false)
    }

    /// Insert one entry. A gitignore file entry comes with the raw bytes of
    /// its rules, which are registered for its directory at the current scan
    /// id; every other entry comes with `None`.
    pub fn insert_entry(&mut self, entry: Entry, ignore_rules: Option<Vec<u8>>)
        requires
            old(self).wf(),
            wf_path(entry@.path),
            ignore_rules is Some <==> is_gitignore_file(entry@),
        ensures
            final(self).wf(),
            final(self)@.id == old(self)@.id,
            final(self)@.scan_id == old(self)@.scan_id,
            final(self)@.abs_path == old(self)@.abs_path,
            final(self)@.root_name_chars == old(self)@.root_name_chars,
            forall|q: Seq<Seq<u8>>|
                #[trigger] has_path(final(self)@.entries, q) <==> (has_path(old(self)@.entries, q)
                    || q == entry@.path),
            entry_at(final(self)@.entries, entry@.path) == entry@,
            forall|q: Seq<Seq<u8>>|
                q != entry@.path && #[trigger] has_path(old(self)@.entries, q) ==> entry_at(
                    final(self)@.entries,
                    q,
                ) == entry_at(old(self)@.entries, q),
            match ignore_rules {
                Some(rules) => {
                    &&& forall|q: Seq<Seq<u8>>|
                        #[trigger] has_dir(final(self)@.ignores, q) <==> (has_dir(
                            old(self)@.ignores,
                            q,
                        ) || q == entry@.path.drop_last())
                    &&& ig_at(final(self)@.ignores, entry@.path.drop_last()) == (IgnoreData {
                        dir_path: entry@.path.drop_last(),
                        rules: rules@,
                        scan_id: old(self)@.scan_id,
                    })
                    &&& forall|q: Seq<Seq<u8>>|
                        q != entry@.path.drop_last() && #[trigger] has_dir(old(self)@.ignores, q)
                            ==> ig_at(final(self)@.ignores, q) == ig_at(old(self)@.ignores, q)
                },
                None => final(self)@.ignores == old(self)@.ignores,
            },
    {
        match ignore_rules {
            Some(rules) => {
                match entry.path.parent() {
                    Some(parent) => {
                        self.ignores.insert(parent, rules, self.scan_id);
                    },
                    None => {
                        proof {
                            assert(false);
                        }
                    },
                }
            },
            None => {},
        }
        self.entries.insert(entry);
    }

    /// Remove `path` and its whole subtree from the index. Removing a
    /// gitignore file marks its directory's rules as changed at the current
    /// scan id, so the next recomputation revisits that subtree.
    pub fn remove_path(&mut self, path: &TreePath)
        requires
            old(self).wf(),
        ensures
            final(self).wf(),
            final(self)@.id == old(self)@.id,
            final(self)@.scan_id == old(self)@.scan_id,
            final(self)@.abs_path == old(self)@.abs_path,
            final(self)@.root_name_chars == old(self)@.root_name_chars,
            final(self)@.entries == old(self)@.entries.filter(
                |e: EntryData| !is_under(path@, e.path),
            ),
            forall|q: Seq<Seq<u8>>|
                #[trigger] has_path(final(self)@.entries, q) <==> (has_path(old(self)@.entries, q)
                    && !is_under(path@, q)),
            forall|q: Seq<Seq<u8>>|
                #[trigger] has_path(final(self)@.entries, q) ==> entry_at(final(self)@.entries, q)
                    == entry_at(old(self)@.entries, q),
            forall|q: Seq<Seq<u8>>|
                #[trigger] has_dir(final(self)@.ignores, q) <==> has_dir(old(self)@.ignores, q),
            is_gitignore_path(path@) && has_dir(old(self)@.ignores, path@.drop_last()) ==> ig_at(
                final(self)@.ignores,
                path@.drop_last(),
            ) == (IgnoreData {
                scan_id: old(self)@.scan_id,
                ..ig_at(old(self)@.ignores, path@.drop_last())
            }),
            forall|q: Seq<Seq<u8>>|
                (!is_gitignore_path(path@) || q != path@.drop_last()) && #[trigger] has_dir(
                    old(self)@.ignores,
                    q,
                ) ==> ig_at(final(self)@.ignores, q) == ig_at(old(self)@.ignores, q),
            !is_gitignore_path(path@) ==> final(self)@.ignores == old(self)@.ignores,
            is_gitignore_path(path@) && !has_dir(old(self)@.ignores, path@.drop_last())
                ==> final(self)@.ignores == old(self)@.ignores,
    {
        self.entries.remove_subtree(path);
        let is_ignore_file = match path.file_name() {
            Some(name) => {
                let gi = gitignore_vec();
                matches!(crate::paths::bytes_cmp(name, &gi), crate::paths::PathOrder::Equal)
            },
            None => false,
        };
        if is_ignore_file {
            match path.parent() {
                Some(parent) => {
                    self.ignores.set_scan_id(&parent, self.scan_id);
                },
                None => {
                    proof {
                        assert(false);
                    }
                },
            }
        }
    }
}

/// `p` is a direct child path of `parent`: one component deeper.
pub open spec fn is_child_path(parent: Seq<Seq<u8>>, p: Seq<Seq<u8>>) -> bool {
    p.len() == parent.len() + 1 && p.subrange(0, parent.len() as int) == parent
}

impl Snapshot {
    /// Materialize the children of a scanned directory: the parent moves
    /// from `PendingDir` to `Dir`, every child entry is inserted, and the
    /// directory's gitignore rules, when the listing carried some, are
    /// registered at the current scan id.
    pub fn populate_dir(&mut self, parent: &TreePath, children: Vec<Entry>, ignore_rules: Option<
        Vec<u8>,
    >)
        requires
            old(self).wf(),
            has_path(old(self)@.entries, parent@),
            entry_at(old(self)@.entries, parent@).kind is PendingDir,
            forall|i: int|
                0 <= i < children@.len() ==> is_child_path(
                    parent@,
                    (#[trigger] children.deep_view()[i]).path,
                ) && wf_path(children.deep_view()[i].path),
            forall|i: int, j: int|
                0 <= i < j < children@.len() ==> children.deep_view()[i].path
                    != children.deep_view()[j].path,
        ensures
            final(self).wf(),
            final(self)@.id == old(self)@.id,
            final(self)@.scan_id == old(self)@.scan_id,
            final(self)@.abs_path == old(self)@.abs_path,
            final(self)@.root_name_chars == old(self)@.root_name_chars,
            entry_at(final(self)@.entries, parent@) == (EntryData {
                kind: EntryKind::Dir,
                ..entry_at(old(self)@.entries, parent@)
            }),
            forall|i: int|
                0 <= i < children@.len() ==> has_path(
                    final(self)@.entries,
                    (#[trigger] children.deep_view()[i]).path,
                ) && entry_at(final(self)@.entries, children.deep_view()[i].path)
                    == children.deep_view()[i],
            forall|q: Seq<Seq<u8>>|
                #[trigger] has_path(final(self)@.entries, q) <==> (has_path(old(self)@.entries, q)
                    || exists|i: int|
                    0 <= i < children@.len() && q == (#[trigger] children.deep_view()[i]).path),
            forall|q: Seq<Seq<u8>>|
                q != parent@ && !(exists|i: int|
                    0 <= i < children@.len() && q == (#[trigger] children.deep_view()[i]).path)
                    && has_path(old(self)@.entries, q) ==> entry_at(final(self)@.entries, q)
                    == entry_at(old(self)@.entries, q),
            match ignore_rules {
                Some(rules) => {
                    &&& forall|q: Seq<Seq<u8>>|
                        #[trigger] has_dir(final(self)@.ignores, q) <==> (has_dir(
                            old(self)@.ignores,
                            q,
                        ) || q == parent@)
                    &&& ig_at(final(self)@.ignores, parent@) == (IgnoreData {
                        dir_path: parent@,
                        rules: rules@,
                        scan_id: old(self)@.scan_id,
                    })
                    &&& forall|q: Seq<Seq<u8>>|
                        q != parent@ && #[trigger] has_dir(old(self)@.ignores, q) ==> ig_at(
                            final(self)@.ignores,
                            q,
                        ) == ig_at(old(self)@.ignores, q)
                },
                None => final(self)@.ignores == old(self)@.ignores,
            },
    {
        let ghost s0 = self@;
        let ghost cdv = children.deep_view();
        let ghost pv = parent@;
        // flip the parent to a populated directory
        let flipped = match self.entries.lookup(parent) {
            Some(pe) => Entry {
                path: parent.clone(),
                kind: EntryKind::Dir,
                inode: pe.inode,
                is_symlink: pe.is_symlink,
                is_ignored: pe.is_ignored,
            },
            None => {
                proof {
                    assert(false);
                }
                Entry {
                    path: parent.clone(),
                    kind: EntryKind::Dir,
                    inode: 0,
                    is_symlink: false,
                    is_ignored: None,
                }
            },
        };
        self.entries.insert(flipped);
        match ignore_rules {
            Some(rules) => {
                self.ignores.insert(parent.clone(), rules, self.scan_id);
            },
            None => {},
        }
        let ghost midv = self@;
        proof {
            assert(has_path(midv.entries, pv));
        }
        let n = children.len();
        let mut i: usize = 0;
        while i < n
            invariant
                i <= n == children@.len(),
                children.deep_view() == cdv,
                pv == parent@,
                self.wf(),
                self@.id == midv.id,
                self@.scan_id == midv.scan_id,
                self@.abs_path == midv.abs_path,
                self@.root_name_chars == midv.root_name_chars,
                self@.ignores == midv.ignores,
                forall|k: int|
                    0 <= k < cdv.len() ==> is_child_path(pv, (#[trigger] cdv[k]).path) && wf_path(
                        cdv[k].path,
                    ),
                forall|k1: int, k2: int|
                    0 <= k1 < k2 < cdv.len() ==> cdv[k1].path != cdv[k2].path,
                forall|k: int|
                    0 <= k < i ==> has_path(self@.entries, (#[trigger] cdv[k]).path) && entry_at(
                        self@.entries,
                        cdv[k].path,
                    ) == cdv[k],
                forall|q: Seq<Seq<u8>>|
                    #[trigger] has_path(self@.entries, q) <==> (has_path(midv.entries, q) || exists|
                        k: int,
                    | 0 <= k < i && q == (#[trigger] cdv[k]).path),
                forall|q: Seq<Seq<u8>>|
                    !(exists|k: int| 0 <= k < i && q == (#[trigger] cdv[k]).path) && #[trigger]
                        has_path(midv.entries, q) ==> entry_at(self@.entries, q) == entry_at(
                        midv.entries,
                        q,
                    ),
            decreases n - i,
        {
            let c = children[i].clone();
            proof {
                assert(c@ == children@[i as int].deep_view());
                assert(c@ == cdv[i as int]);
            }
            let ghost prev = self@;
            self.entries.insert(c);
            proof {
                assert forall|k: int|
                    0 <= k < i + 1 implies has_path(self@.entries, (#[trigger] cdv[k]).path)
                        && entry_at(self@.entries, cdv[k].path) == cdv[k] by {
                    if k < i {
                        assert(has_path(prev.entries, cdv[k].path));
                        assert(cdv[k].path != cdv[i as int].path);
                    }
                };
                assert forall|q: Seq<Seq<u8>>| #[trigger]
                    has_path(self@.entries, q) implies (has_path(midv.entries, q) || exists|k: int|
                        0 <= k < i + 1 && q == (#[trigger] cdv[k]).path) by {
                    if has_path(prev.entries, q) && q != cdv[i as int].path {
                        if !has_path(midv.entries, q) {
                            let k0 = choose|k: int| 0 <= k < i && q == (#[trigger] cdv[k]).path;
                            assert(0 <= k0 < i + 1 && q == cdv[k0].path);
                        }
                    } else {
                        assert(q == cdv[i as int].path);
                    }
                };
                assert forall|q: Seq<Seq<u8>>|
                    has_path(midv.entries, q) || (exists|k: int|
                        0 <= k < i + 1 && q == (#[trigger] cdv[k]).path) implies #[trigger]
                        has_path(self@.entries, q) by {
                    if has_path(midv.entries, q) {
                        assert(has_path(prev.entries, q));
                    } else {
                        let k0 = choose|k: int| 0 <= k < i + 1 && q == (#[trigger] cdv[k]).path;
                        if k0 < i {
                            assert(has_path(prev.entries, q));
                        }
                    }
                };
                assert forall|q: Seq<Seq<u8>>|
                    !(exists|k: int| 0 <= k < i + 1 && q == (#[trigger] cdv[k]).path)
                        && #[trigger] has_path(midv.entries, q) implies entry_at(self@.entries, q)
                        == entry_at(midv.entries, q) by {
                    assert(!(exists|k: int| 0 <= k < i && q == (#[trigger] cdv[k]).path)) by {
                        if exists|k: int| 0 <= k < i && q == (#[trigger] cdv[k]).path {
                            let k0 = choose|k: int| 0 <= k < i && q == (#[trigger] cdv[k]).path;
                            assert(0 <= k0 < i + 1 && q == cdv[k0].path);
                        }
                    }
                    assert(q != cdv[i as int].path) by {
                        if q == cdv[i as int].path {
                            assert(0 <= i < i + 1 && q == cdv[i as int].path);
                        }
                    }
                    assert(has_path(prev.entries, q));
                };
            }
            i += 1;
        }
        proof {
            // the parent is one component shorter than any child path
            assert forall|k: int| 0 <= k < cdv.len() implies pv != (#[trigger] cdv[k]).path by {
                assert(cdv[k].path.len() == pv.len() + 1);
            };
            assert(!(exists|k: int| 0 <= k < cdv.len() && pv == (#[trigger] cdv[k]).path));
            assert(entry_at(self@.entries, pv) == entry_at(midv.entries, pv));
            assert forall|q: Seq<Seq<u8>>|
                q != pv && !(exists|k: int|
                    0 <= k < cdv.len() && q == (#[trigger] cdv[k]).path) && has_path(
                s0.entries,
                q,
            ) implies entry_at(self@.entries, q) == entry_at(s0.entries, q) by {
                assert(has_path(midv.entries, q));
                assert(entry_at(midv.entries, q) == entry_at(s0.entries, q));
            };
            assert forall|q: Seq<Seq<u8>>| #[trigger]
                has_path(self@.entries, q) implies (has_path(s0.entries, q) || exists|k: int|
                    0 <= k < cdv.len() && q == (#[trigger] cdv[k]).path) by {
                if has_path(midv.entries, q) {
                }
            };
            assert forall|q: Seq<Seq<u8>>|
                has_path(s0.entries, q) || (exists|k: int|
                    0 <= k < cdv.len() && q == (#[trigger] cdv[k]).path) implies #[trigger]
                    has_path(self@.entries, q) by {
                if has_path(s0.entries, q) {
                    assert(has_path(midv.entries, q));
                }
            };
        }
    }
}

} // verus!
