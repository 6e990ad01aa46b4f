//! The scanner's reconciliation decisions, as pure operations on a snapshot:
//! starting a scan, materializing a directory listing, applying one
//! filesystem event, coalescing an event batch, and recomputing ignore
//! classifications. The surrounding process — reading the disk, the worker
//! pool, the event stream — hands these functions plain values.

use crate::char_bag::{bag_of_bytes, bag_of_path, CharBag};
use crate::entry::{Entry, EntryData, EntryKind};
use crate::ignore_store::{has_dir, ig_at, IgnoreData};
use crate::index::{entry_at, has_path, idx_of, lemma_at_index};
use crate::paths::{
    is_under, lemma_path_lt_trans, lemma_path_order, path_starts_with, wf_component, wf_path,
    TreePath,
};
use crate::snapshot::{is_child_path, is_gitignore_path, gitignore_name, Snapshot, SnapshotData};
use vstd::prelude::*;

verus! {

/// What a stat of one on-disk object reports.
#[derive(Clone, Copy, Debug, PartialEq, Eq, Structural)]
pub struct FsEntryInfo {
    pub inode: u64,
    pub is_dir: bool,
    pub is_symlink: bool,
}

/// One child of a directory listing, as read from disk: its name, its stat
/// results, and — for a regular file named `.gitignore` — the raw bytes of
/// its rules.
pub struct RawChild {
    pub name: Vec<u8>,
    pub info: FsEntryInfo,
    pub ignore_rules: Option<Vec<u8>>,
}

/// The mathematical value of a `RawChild`.
pub ghost struct RawChildData {
    pub name: Seq<u8>,
    pub info: FsEntryInfo,
    pub ignore_rules: Option<Seq<u8>>,
}

impl View for RawChild {
    type V = RawChildData;

    open spec fn view(&self) -> RawChildData {
        RawChildData {
            name: self.name@,
            info: self.info,
            ignore_rules: match self.ignore_rules {
                Some(ref r) => Some(r@),
                None => None,
            },
        }
    }
}

impl DeepView for RawChild {
    type V = RawChildData;

    open spec fn deep_view(&self) -> RawChildData {
        self.view()
    }
}

/// A re-stat delivered with a filesystem event: the new metadata of the
/// path, and the rule bytes when the path is a regular gitignore file.
pub struct EventUpdate {
    pub info: FsEntryInfo,
    pub ignore_rules: Option<Vec<u8>>,
}

/// The fingerprint base of a snapshot: the bag of the root's name bytes.
pub open spec fn root_bag_of(s: SnapshotData) -> u64 {
    bag_of_bytes(0u64, s.root_name_chars)
}

/// The entry a fresh stat of `p` produces: a pending directory, or a file
/// carrying the fingerprint of its path; classification is left pending.
pub open spec fn stat_entry_of(root_bag: u64, p: Seq<Seq<u8>>, info: FsEntryInfo) -> EntryData {
    EntryData {
        path: p,
        kind: if info.is_dir {
            EntryKind::PendingDir
        } else {
            EntryKind::File(CharBag(bag_of_path(root_bag, p)))
        },
        inode: info.inode,
        is_symlink: info.is_symlink,
        is_ignored: None,
    }
}

/// The entry a directory listing produces for one child.
pub open spec fn child_entry_of(
    root_bag: u64,
    parent: Seq<Seq<u8>>,
    rc: RawChildData,
) -> EntryData {
    stat_entry_of(root_bag, parent.push(rc.name), rc.info)
}

impl Snapshot {
    /// The fingerprint every entry path is folded onto.
    pub fn root_bag(&self) -> (r: CharBag)
        ensures
            r.0 == root_bag_of(self@),
    {
        CharBag::empty().extend_bytes(&self.root_name_chars)
    }

    /// Begin a scan: bump the scan id and index the root itself, as a
    /// pending directory or as a bare file. Returns whether the root is a
    /// directory and so needs its children scanned.
    pub fn start_scan(&mut self, info: FsEntryInfo) -> (is_dir: bool)
        requires
            old(self).wf(),
            old(self)@.scan_id < u64::MAX,
        ensures
            final(self).wf(),
            final(self)@.id == old(self)@.id,
            final(self)@.abs_path == old(self)@.abs_path,
            final(self)@.root_name_chars == old(self)@.root_name_chars,
            final(self)@.scan_id == old(self)@.scan_id + 1,
            final(self)@.ignores == old(self)@.ignores,
            is_dir == info.is_dir,
            forall|q: Seq<Seq<u8>>|
                #[trigger] has_path(final(self)@.entries, q) <==> (has_path(old(self)@.entries, q)
                    || q == Seq::<Seq<u8>>::empty()),
            entry_at(final(self)@.entries, Seq::empty()) == stat_entry_of(
                root_bag_of(old(self)@),
                Seq::empty(),
                info,
            ),
            forall|q: Seq<Seq<u8>>|
                q != Seq::<Seq<u8>>::empty() && #[trigger] has_path(old(self)@.entries, q)
                    ==> entry_at(final(self)@.entries, q) == entry_at(old(self)@.entries, q),
    {
        self.scan_id = self.scan_id + 1;
        let root = TreePath::root();
        let kind = if info.is_dir {
            EntryKind::PendingDir
        } else {
            let bag = self.root_bag().extend_path(&root);
            EntryKind::File(bag)
        };
        let entry = Entry {
            path: root,
            kind,
            inode: info.inode,
            is_symlink: info.is_symlink,
            is_ignored: None,
        };
        self.insert_entry(entry, None);
        info.is_dir
    }

    /// Apply one coalesced filesystem event: drop the subtree at `path`,
    /// then, if the path still exists on disk, index its fresh entry.
    /// Returns whether a directory now needs its children scanned.
    pub fn apply_event(&mut self, path: &TreePath, update: Option<EventUpdate>) -> (dir_job: bool)
        requires
            old(self).wf(),
            wf_path(path@),
            match update {
                Some(u) => u.ignore_rules is Some <==> (!u.info.is_dir && is_gitignore_path(
                    path@,
                )),
                None => true,
            },
        ensures
            final(self).wf(),
            final(self)@.id == old(self)@.id,
            final(self)@.scan_id == old(self)@.scan_id,
            final(self)@.abs_path == old(self)@.abs_path,
            final(self)@.root_name_chars == old(self)@.root_name_chars,
            forall|q: Seq<Seq<u8>>|
                #[trigger] has_path(final(self)@.entries, q) <==> ((has_path(old(self)@.entries, q)
                    && !is_under(path@, q)) || (update is Some && q == path@)),
            update matches Some(u) ==> entry_at(final(self)@.entries, path@) == stat_entry_of(
                root_bag_of(old(self)@),
                path@,
                u.info,
            ),
            forall|q: Seq<Seq<u8>>|
                q != path@ && !is_under(path@, q) && #[trigger] has_path(old(self)@.entries, q)
                    ==> entry_at(final(self)@.entries, q) == entry_at(old(self)@.entries, q),
            dir_job == (update matches Some(u) && u.info.is_dir),
            forall|q: Seq<Seq<u8>>|
                q != path@.drop_last() ==> (#[trigger] has_dir(final(self)@.ignores, q) <==> has_dir(
                    old(self)@.ignores,
                    q,
                )),
            forall|q: Seq<Seq<u8>>|
                q != path@.drop_last() && #[trigger] has_dir(old(self)@.ignores, q) ==> ig_at(
                    final(self)@.ignores,
                    q,
                ) == ig_at(old(self)@.ignores, q),
            !is_gitignore_path(path@) ==> final(self)@.ignores == old(self)@.ignores,
    {
        self.remove_path(path);
        let ghost mid = self@;
        let dir_job = match update {
            Some(u) => {
                let kind = if u.info.is_dir {
                    EntryKind::PendingDir
                } else {
                    EntryKind::File(self.root_bag().extend_path(path))
                };
                let entry = Entry {
                    path: path.clone(),
                    kind,
                    inode: u.info.inode,
                    is_symlink: u.info.is_symlink,
                    is_ignored: None,
                };
                self.insert_entry(entry, u.ignore_rules);
                u.info.is_dir
            },
            None => false,
        };
        proof {
            assert forall|q: Seq<Seq<u8>>|
                q != path@ && !is_under(path@, q) && #[trigger] has_path(old(self)@.entries, q)
                    implies entry_at(self@.entries, q) == entry_at(old(self)@.entries, q) by {
                assert(has_path(mid.entries, q));
                assert(entry_at(mid.entries, q) == entry_at(old(self)@.entries, q));
            };
            assert forall|q: Seq<Seq<u8>>|
                q != path@.drop_last() && #[trigger] has_dir(old(self)@.ignores, q) implies ig_at(
                self@.ignores,
                q,
            ) == ig_at(old(self)@.ignores, q) by {
                assert(has_dir(mid.ignores, q));
                assert(ig_at(mid.ignores, q) == ig_at(old(self)@.ignores, q));
            };
        }
        dir_job
    }

    /// Materialize a directory listing: flip the parent from pending to
    /// populated, index every child, register the directory's gitignore
    /// rules if the listing carries one, and return the subdirectories that
    /// need scanning.
    pub fn scan_directory(&mut self, parent: &TreePath, children: Vec<RawChild>) -> (jobs: Vec<
        TreePath,
    >)
        requires
            old(self).wf(),
            wf_path(parent@),
            has_path(old(self)@.entries, parent@),
            entry_at(old(self)@.entries, parent@).kind is PendingDir,
            forall|i: int|
                0 <= i < children@.len() ==> wf_component(
                    (#[trigger] children.deep_view()[i]).name,
                ),
            forall|i: int, j: int|
                0 <= i < j < children@.len() ==> children.deep_view()[i].name
                    != children.deep_view()[j].name,
            forall|i: int|
                0 <= i < children@.len() ==> ((#[trigger] children.deep_view()[i].ignore_rules)
                    is Some <==> (!children.deep_view()[i].info.is_dir
                    && children.deep_view()[i].name == gitignore_name())),
        ensures
            final(self).wf(),
            final(self)@.id == old(self)@.id,
            final(self)@.scan_id == old(self)@.scan_id,
            final(self)@.abs_path == old(self)@.abs_path,
            final(self)@.root_name_chars == old(self)@.root_name_chars,
            // the parent is now a populated directory
            entry_at(final(self)@.entries, parent@) == (EntryData {
                kind: EntryKind::Dir,
                ..entry_at(old(self)@.entries, parent@)
            }),
            // every child is indexed with its listing data
            forall|i: int|
                0 <= i < children@.len() ==> has_path(
                    final(self)@.entries,
                    parent@.push(children.deep_view()[i].name),
                ) && entry_at(final(self)@.entries, parent@.push(children.deep_view()[i].name))
                    == child_entry_of(
                    root_bag_of(old(self)@),
                    parent@,
                    #[trigger] children.deep_view()[i],
                ),
            // nothing else appears
            forall|q: Seq<Seq<u8>>|
                #[trigger] has_path(final(self)@.entries, q) <==> (has_path(old(self)@.entries, q)
                    || exists|i: int|
                    0 <= i < children@.len() && q == parent@.push(
                        (#[trigger] children.deep_view()[i]).name,
                    )),
            // and nothing else changes
            forall|q: Seq<Seq<u8>>|
                q != parent@ && !(exists|i: int|
                    0 <= i < children@.len() && q == parent@.push(
                        (#[trigger] children.deep_view()[i]).name,
                    )) && has_path(old(self)@.entries, q) ==> entry_at(final(self)@.entries, q)
                    == entry_at(old(self)@.entries, q),
            // the gitignore child's rules are registered for the parent
            match gitignore_rules_of(children.deep_view()) {
                Some(rules) => {
                    &&& forall|q: Seq<Seq<u8>>|
                        #[trigger] has_dir(final(self)@.ignores, q) <==> (has_dir(
                            old(self)@.ignores,
                            q,
                        ) || q == parent@)
                    &&& ig_at(final(self)@.ignores, parent@) == (IgnoreData {
                        dir_path: parent@,
                        rules: rules,
                        scan_id: old(self)@.scan_id,
                    })
                    &&& forall|q: Seq<Seq<u8>>|
                        q != parent@ && #[trigger] has_dir(old(self)@.ignores, q) ==> ig_at(
                            final(self)@.ignores,
                            q,
                        ) == ig_at(old(self)@.ignores, q)
                },
                None => final(self)@.ignores == old(self)@.ignores,
            },
            // exactly the subdirectories come back as jobs, in listing order
            jobs.deep_view() == children.deep_view().filter(
                |c: RawChildData| c.info.is_dir,
            ).map_values(|c: RawChildData| parent@.push(c.name)),
    {
        let ghost cdv = children.deep_view();
        let ghost pv = parent@;
        let ghost bag0 = root_bag_of(self@);
        let ghost dirpred = |c: RawChildData| c.info.is_dir;
        let ghost jobfn = |c: RawChildData| pv.push(c.name);
        let mut jobs: Vec<TreePath> = Vec::new();
        let mut rules_out: Option<Vec<u8>> = None;
        let mut built: Vec<Entry> = Vec::new();
        let gi_name = crate::snapshot::gitignore_vec();
        let root_bag = self.root_bag();
        let n = children.len();
        let mut i: usize = 0;
        proof {
            assert(cdv.subrange(0, 0).filter(dirpred) =~= Seq::<RawChildData>::empty());
            assert(jobs.deep_view() =~= cdv.subrange(0, 0).filter(dirpred).map_values(jobfn));
        }
        while i < n
            invariant
                i <= n == children@.len(),
                children.deep_view() == cdv,
                pv == parent@,
                self@ == old(self)@,
                self.wf(),
                bag0 == root_bag_of(old(self)@),
                root_bag.0 == bag0,
                gi_name@ == gitignore_name(),
                dirpred == (|c: RawChildData| c.info.is_dir),
                jobfn == (|c: RawChildData| pv.push(c.name)),
                forall|k: int| 0 <= k < cdv.len() ==> wf_component((#[trigger] cdv[k]).name),
                forall|k1: int, k2: int|
                    0 <= k1 < k2 < cdv.len() ==> cdv[k1].name != cdv[k2].name,
                forall|k: int|
                    0 <= k < cdv.len() ==> ((#[trigger] cdv[k].ignore_rules) is Some <==> (
                    !cdv[k].info.is_dir && cdv[k].name == gitignore_name())),
                built.deep_view().len() == i,
                forall|k: int|
                    0 <= k < i ==> built.deep_view()[k] == child_entry_of(bag0, pv, cdv[k]),
                jobs.deep_view() == cdv.subrange(0, i as int).filter(dirpred).map_values(jobfn),
                match rules_out {
                    Some(ref r) => gitignore_rules_of(cdv.subrange(0, i as int)) == Some(r@),
                    None => gitignore_rules_of(cdv.subrange(0, i as int)) is None,
                },
            decreases n - i,
        {
            let child = &children[i];
            proof {
                assert(children.deep_view()[i as int] == children@[i as int].deep_view());
                assert(cdv.subrange(0, i as int + 1) =~= cdv.subrange(0, i as int).push(
                    cdv[i as int],
                ));
                cdv.subrange(0, i as int).lemma_filter_push(cdv[i as int], dirpred);
            }
            let child_path = parent.child(crate::paths::copy_bytes(&child.name));
            let is_dir = child.info.is_dir;
            let kind = if is_dir {
                EntryKind::PendingDir
            } else {
                EntryKind::File(root_bag.extend_path(&child_path))
            };
            let entry = Entry {
                path: child_path,
                kind,
                inode: child.info.inode,
                is_symlink: child.info.is_symlink,
                is_ignored: None,
            };
            let ghost builtpre = built;
            built.push(entry);
            proof {
                assert forall|k: int|
                    0 <= k < i + 1 implies built.deep_view()[k] == child_entry_of(
                    bag0,
                    pv,
                    cdv[k],
                ) by {
                    assert(built.deep_view()[k] == built@[k].deep_view());
                    if k < i {
                        assert(built@[k] == builtpre@[k]);
                        assert(builtpre.deep_view()[k] == builtpre@[k].deep_view());
                    }
                };
            }
            if is_dir {
                let ghost jobspre = jobs;
                jobs.push(parent.child(crate::paths::copy_bytes(&child.name)));
                proof {
                    assert forall|j: int|
                        0 <= j < jobs.deep_view().len() implies jobs.deep_view()[j]
                            == jobspre.deep_view().push(jobfn(cdv[i as int]))[j] by {
                        assert(jobs.deep_view()[j] == jobs@[j].deep_view());
                        if j < jobspre@.len() {
                            assert(jobs@[j] == jobspre@[j]);
                            assert(jobspre.deep_view()[j] == jobspre@[j].deep_view());
                        }
                    };
                    assert(jobs.deep_view() =~= jobspre.deep_view().push(jobfn(cdv[i as int])));
                    let f0 = cdv.subrange(0, i as int).filter(dirpred);
                    let f1 = cdv.subrange(0, i as int + 1).filter(dirpred);
                    assert(f1 == f0.push(cdv[i as int]));
                    assert(f1.map_values(jobfn) =~= f0.map_values(jobfn).push(
                        jobfn(cdv[i as int]),
                    ));
                }
            } else {
                proof {
                    assert(cdv.subrange(0, i as int + 1).filter(dirpred) == cdv.subrange(
                        0,
                        i as int,
                    ).filter(dirpred));
                }
            }
            let take_rules = !is_dir && matches!(
                crate::paths::bytes_cmp(&child.name, &gi_name),
                crate::paths::PathOrder::Equal,
            );
            if take_rules {
                proof {
                    assert(child@ == cdv[i as int]);
                    assert(!cdv[i as int].info.is_dir && cdv[i as int].name == gitignore_name());
                    assert(cdv[i as int].ignore_rules is Some);
                }
                match child.ignore_rules {
                    Some(ref r) => {
                        rules_out = Some(crate::paths::copy_bytes(r));
                    },
                    None => {
                        proof {
                            assert(child@.ignore_rules is None);
                            assert(false);
                        }
                    },
                }
            }
            proof {
                lemma_rules_extend(cdv, i as int);
            }
            i += 1;
        }
        proof {
            assert(cdv.subrange(0, n as int) =~= cdv);
            assert forall|k: int|
                0 <= k < built.deep_view().len() implies is_child_path(
                pv,
                (#[trigger] built.deep_view()[k]).path,
            ) && wf_path(built.deep_view()[k].path) by {
                assert(built.deep_view()[k] == child_entry_of(bag0, pv, cdv[k]));
                assert(pv.push(cdv[k].name).subrange(0, pv.len() as int) =~= pv);
                assert forall|m: int|
                    0 <= m < pv.push(cdv[k].name).len() implies wf_component(
                    #[trigger] pv.push(cdv[k].name)[m],
                ) by {
                    if m < pv.len() {
                        assert(pv.push(cdv[k].name)[m] == pv[m]);
                    } else {
                        assert(pv.push(cdv[k].name)[m] == cdv[k].name);
                    }
                };
            };
            assert forall|k1: int, k2: int|
                0 <= k1 < k2 < built.deep_view().len() implies built.deep_view()[k1].path
                    != built.deep_view()[k2].path by {
                assert(built.deep_view()[k1].path == pv.push(cdv[k1].name));
                assert(built.deep_view()[k2].path == pv.push(cdv[k2].name));
                if pv.push(cdv[k1].name) == pv.push(cdv[k2].name) {
                    assert(pv.push(cdv[k1].name).last() == pv.push(cdv[k2].name).last());
                }
            };
        }
        let ghost bdv = built.deep_view();
        self.populate_dir(parent, built, rules_out);
        proof {
            assert forall|i0: int|
                0 <= i0 < cdv.len() implies has_path(self@.entries, pv.push(cdv[i0].name))
                    && entry_at(self@.entries, pv.push((#[trigger] cdv[i0]).name))
                    == child_entry_of(bag0, pv, cdv[i0]) by {
                assert(bdv[i0].path == pv.push(cdv[i0].name));
            };
            assert forall|q: Seq<Seq<u8>>| #[trigger]
                has_path(self@.entries, q) implies (has_path(old(self)@.entries, q) || exists|
                i0: int,
            | 0 <= i0 < cdv.len() && q == pv.push((#[trigger] cdv[i0]).name)) by {
                if !has_path(old(self)@.entries, q) {
                    let k = choose|k: int| 0 <= k < bdv.len() && q == (#[trigger] bdv[k]).path;
                    assert(q == pv.push(cdv[k].name));
                }
            };
            assert forall|q: Seq<Seq<u8>>|
                (has_path(old(self)@.entries, q) || exists|i0: int|
                    0 <= i0 < cdv.len() && q == pv.push((#[trigger] cdv[i0]).name)) implies
                    #[trigger] has_path(self@.entries, q) by {
                if !has_path(old(self)@.entries, q) {
                    let i0 = choose|i0: int|
                        0 <= i0 < cdv.len() && q == pv.push((#[trigger] cdv[i0]).name);
                    assert(bdv[i0].path == q);
                }
            };
            assert forall|q: Seq<Seq<u8>>|
                q != pv && !(exists|i0: int|
                    0 <= i0 < cdv.len() && q == pv.push((#[trigger] cdv[i0]).name)) && has_path(
                old(self)@.entries,
                q,
            ) implies entry_at(self@.entries, q) == entry_at(old(self)@.entries, q) by {
                assert(!(exists|k: int| 0 <= k < bdv.len() && q == (#[trigger] bdv[k]).path)) by {
                    if exists|k: int| 0 <= k < bdv.len() && q == (#[trigger] bdv[k]).path {
                        let k = choose|k: int| 0 <= k < bdv.len() && q == (#[trigger] bdv[k]).path;
                        assert(q == pv.push(cdv[k].name));
                    }
                }
            };
        }
        jobs
    }
}


/// The rules carried by the listing's gitignore file, if there is one.
pub open spec fn gitignore_rules_of(cs: Seq<RawChildData>) -> Option<Seq<u8>> {
    if exists|i: int|
        0 <= i < cs.len() && !(#[trigger] cs[i]).info.is_dir && cs[i].name == gitignore_name() {
        let i = choose|i: int|
            0 <= i < cs.len() && !(#[trigger] cs[i]).info.is_dir && cs[i].name
                == gitignore_name();
        cs[i].ignore_rules
    } else {
        None
    }
}

/// Extending a listing by one child either introduces the gitignore rules
/// (when that child is the gitignore file) or leaves them as they were.
proof fn lemma_rules_extend(cs: Seq<RawChildData>, i: int)
    requires
        0 <= i < cs.len(),
        forall|k1: int, k2: int| 0 <= k1 < k2 < cs.len() ==> cs[k1].name != cs[k2].name,
    ensures
        gitignore_rules_of(cs.subrange(0, i + 1)) == if !cs[i].info.is_dir && cs[i].name
            == gitignore_name() {
            cs[i].ignore_rules
        } else {
            gitignore_rules_of(cs.subrange(0, i))
        },
{
    let pre = cs.subrange(0, i);
    let cur = cs.subrange(0, i + 1);
    if !cs[i].info.is_dir && cs[i].name == gitignore_name() {
        assert(cur[i] == cs[i]);
        assert(exists|k: int|
            0 <= k < cur.len() && !(#[trigger] cur[k]).info.is_dir && cur[k].name
                == gitignore_name());
        let k = choose|k: int|
            0 <= k < cur.len() && !(#[trigger] cur[k]).info.is_dir && cur[k].name
                == gitignore_name();
        if k != i {
            assert(cs[k].name == cs[i].name);
        }
    } else {
        if exists|k: int|
            0 <= k < cur.len() && !(#[trigger] cur[k]).info.is_dir && cur[k].name
                == gitignore_name() {
            let k = choose|k: int|
                0 <= k < cur.len() && !(#[trigger] cur[k]).info.is_dir && cur[k].name
                    == gitignore_name();
            assert(k != i);
            assert(pre[k] == cs[k]);
            assert(exists|k2: int|
                0 <= k2 < pre.len() && !(#[trigger] pre[k2]).info.is_dir && pre[k2].name
                    == gitignore_name());
            let k2 = choose|k2: int|
                0 <= k2 < pre.len() && !(#[trigger] pre[k2]).info.is_dir && pre[k2].name
                    == gitignore_name();
            if k2 != k {
                assert(cs[k2].name == cs[k].name);
            }
        } else {
            if exists|k2: int|
                0 <= k2 < pre.len() && !(#[trigger] pre[k2]).info.is_dir && pre[k2].name
                    == gitignore_name() {
                let k2 = choose|k2: int|
                    0 <= k2 < pre.len() && !(#[trigger] pre[k2]).info.is_dir && pre[k2].name
                        == gitignore_name();
                assert(cur[k2] == cs[k2]);
            }
        }
    }
}


/// Two entry sequences with the same paths, kinds, inodes and symlink flags
/// (classification may differ).
pub open spec fn same_shape(a: Seq<EntryData>, b: Seq<EntryData>) -> bool {
    a.len() == b.len() && forall|i: int|
        0 <= i < a.len() ==> ((#[trigger] a[i]).path == b[i].path && a[i].kind == b[i].kind
            && a[i].inode == b[i].inode && a[i].is_symlink == b[i].is_symlink)
}

/// Some registered ruleset changed at scan id `sid` and covers `p`.
pub open spec fn changed_covers(ig: Seq<IgnoreData>, sid: u64, p: Seq<Seq<u8>>) -> bool {
    exists|i: int|
        0 <= i < ig.len() && (#[trigger] ig[i]).scan_id == sid && is_under(ig[i].dir_path, p)
}

/// The ancestor walk never reads classifications, so it is stable under
/// shape-preserving changes to the entries.
proof fn lemma_walk_shape(
    a: Seq<EntryData>,
    b: Seq<EntryData>,
    ig: Seq<IgnoreData>,
    p: Seq<Seq<u8>>,
    d: bool,
    k: int,
)
    requires
        same_shape(a, b),
    ensures
        crate::snapshot::walk_ancestors(a, ig, p, d, k) == crate::snapshot::walk_ancestors(
            b,
            ig,
            p,
            d,
            k,
        ),
    decreases k + 1,
{
    if k >= 0 {
        let anc = p.subrange(0, k);
        assert(has_path(a, anc) <==> has_path(b, anc)) by {
            if has_path(a, anc) {
                let i = idx_of(a, anc);
                assert(b[i].path == anc);
            }
            if has_path(b, anc) {
                let i = idx_of(b, anc);
                assert(a[i].path == anc);
            }
        }
        lemma_walk_shape(a, b, ig, p, d, k - 1);
    }
}

/// Ignore classification is stable under shape-preserving changes.
proof fn lemma_ignored_shape(s1: SnapshotData, s2: SnapshotData, p: Seq<Seq<u8>>)
    requires
        same_shape(s1.entries, s2.entries),
        s1.ignores == s2.ignores,
        crate::index::entries_sorted(s1.entries),
        crate::index::entries_sorted(s2.entries),
        has_path(s1.entries, p),
    ensures
        crate::snapshot::spec_ignored(s1, p) == crate::snapshot::spec_ignored(s2, p),
{
    let i1 = idx_of(s1.entries, p);
    assert(s2.entries[i1].path == p);
    assert(has_path(s2.entries, p));
    lemma_at_index(s2.entries, i1);
    let i2 = idx_of(s2.entries, p);
    assert(i2 == i1);
    assert(crate::entry::is_dir_kind(entry_at(s1.entries, p)) == crate::entry::is_dir_kind(
        entry_at(s2.entries, p),
    ));
    lemma_walk_shape(
        s1.entries,
        s2.entries,
        s1.ignores,
        p,
        crate::entry::is_dir_kind(entry_at(s1.entries, p)),
        p.len() - 1,
    );
}

/// The collected list of changed directories covers `p` exactly when some
/// ruleset that changed at `sid` covers it.
proof fn lemma_changed_set(ig: Seq<IgnoreData>, sid: u64, ch: Seq<Seq<Seq<u8>>>, p: Seq<Seq<u8>>)
    requires
        ch == ig.filter(|d: IgnoreData| d.scan_id == sid).map_values(
            |d: IgnoreData| d.dir_path,
        ),
    ensures
        changed_covers(ig, sid, p) <==> exists|t: int|
            0 <= t < ch.len() && is_under(#[trigger] ch[t], p),
{
    let pred = |d: IgnoreData| d.scan_id == sid;
    let f = ig.filter(pred);
    if changed_covers(ig, sid, p) {
        let i = choose|i: int|
            0 <= i < ig.len() && (#[trigger] ig[i]).scan_id == sid && is_under(ig[i].dir_path, p);
        ig.lemma_filter_contains(pred, i);
        let t = choose|t: int| 0 <= t < f.len() && f[t] == ig[i];
        assert(ch[t] == ig[i].dir_path);
        assert(0 <= t < ch.len() && is_under(ch[t], p));
    }
    if exists|t: int| 0 <= t < ch.len() && is_under(#[trigger] ch[t], p) {
        let t = choose|t: int| 0 <= t < ch.len() && is_under(#[trigger] ch[t], p);
        assert(ch[t] == f[t].dir_path);
        ig.lemma_filter_pred(pred, t);
        assert(f.contains(f[t]));
        ig.lemma_filter_contains_rev(pred, f[t]);
        let i = choose|i: int| 0 <= i < ig.len() && ig[i] == f[t];
        assert(ig[i].scan_id == sid && is_under(ig[i].dir_path, p));
    }
}

/// Whether any collected directory covers `p`.
fn under_any(changed: &Vec<TreePath>, p: &TreePath) -> (r: bool)
    ensures
        r == exists|t: int|
            0 <= t < changed@.len() && is_under(#[trigger] changed.deep_view()[t], p@),
{
    let mut t: usize = 0;
    while t < changed.len()
        invariant
            t <= changed@.len(),
            forall|u: int|
                0 <= u < t ==> !is_under(#[trigger] changed.deep_view()[u], p@),
        decreases changed@.len() - t,
    {
        proof {
            assert(changed.deep_view()[t as int] == changed@[t as int].deep_view());
        }
        if path_starts_with(p, &changed[t]) {
            return true;
        }
        t += 1;
    }
    false
}

impl Snapshot {
    /// Recompute ignore classifications after a scan or an event batch.
    /// Registrations whose directory or gitignore file vanished are dropped;
    /// entries under a ruleset that changed this scan are reclassified; then
    /// every entry still awaiting classification is classified. Afterwards
    /// every entry is classified and every registration resolves in the
    /// index.
    pub fn recompute_ignore_statuses(&mut self)
        requires
            old(self).wf(),
        ensures
            final(self).wf(),
            final(self)@.id == old(self)@.id,
            final(self)@.scan_id == old(self)@.scan_id,
            final(self)@.abs_path == old(self)@.abs_path,
            final(self)@.root_name_chars == old(self)@.root_name_chars,
            same_shape(final(self)@.entries, old(self)@.entries),
            final(self)@.ignores == old(self)@.ignores.filter(
                |d: IgnoreData|
                    has_path(old(self)@.entries, d.dir_path) && has_path(
                        old(self)@.entries,
                        d.dir_path.push(gitignore_name()),
                    ),
            ),
            // every surviving registration resolves in the index
            forall|j: int|
                0 <= j < final(self)@.ignores.len() ==> has_path(
                    final(self)@.entries,
                    (#[trigger] final(self)@.ignores[j]).dir_path,
                ) && has_path(
                    final(self)@.entries,
                    final(self)@.ignores[j].dir_path.push(gitignore_name()),
                ),
            // every entry is classified
            forall|i: int|
                0 <= i < final(self)@.entries.len() ==> (#[trigger] final(self)@.entries[i]).is_ignored is Some,
            // and the classification is exactly the spec's
            forall|i: int|
                0 <= i < final(self)@.entries.len() ==> (#[trigger] final(self)@.entries[i]).is_ignored
                    == (if old(self)@.entries[i].is_ignored is None || changed_covers(
                    old(self)@.ignores,
                    old(self)@.scan_id,
                    old(self)@.entries[i].path,
                ) {
                    Some(crate::snapshot::spec_ignored(final(self)@, old(self)@.entries[i].path))
                } else {
                    old(self)@.entries[i].is_ignored
                }),
    {
        let ghost s0 = self@;
        let ghost chpred = |d: IgnoreData| d.scan_id == s0.scan_id;
        let ghost chfn = |d: IgnoreData| d.dir_path;
        // collect the directories whose rules changed this scan
        let mut changed: Vec<TreePath> = Vec::new();
        let m = self.ignores.len();
        let mut j: usize = 0;
        proof {
            assert(s0.ignores.subrange(0, 0).filter(chpred) =~= Seq::<IgnoreData>::empty());
            assert(changed.deep_view() =~= s0.ignores.subrange(0, 0).filter(chpred).map_values(
                chfn,
            ));
        }
        while j < m
            invariant
                j <= m,
                m == self@.ignores.len(),
                self@ == s0,
                chpred == (|d: IgnoreData| d.scan_id == s0.scan_id),
                chfn == (|d: IgnoreData| d.dir_path),
                changed.deep_view() == s0.ignores.subrange(0, j as int).filter(chpred).map_values(
                    chfn,
                ),
            decreases m - j,
        {
            let item = self.ignores.item_at(j);
            proof {
                assert(s0.ignores.subrange(0, j as int + 1) =~= s0.ignores.subrange(
                    0,
                    j as int,
                ).push(s0.ignores[j as int]));
                s0.ignores.subrange(0, j as int).lemma_filter_push(
                    s0.ignores[j as int],
                    chpred,
                );
            }
            if item.scan_id == self.scan_id {
                let ghost chpre = changed;
                changed.push(item.dir_path.clone());
                proof {
                    assert forall|t: int|
                        0 <= t < changed.deep_view().len() implies changed.deep_view()[t]
                            == chpre.deep_view().push(s0.ignores[j as int].dir_path)[t] by {
                        assert(changed.deep_view()[t] == changed@[t].deep_view());
                        if t < chpre@.len() {
                            assert(changed@[t] == chpre@[t]);
                            assert(chpre.deep_view()[t] == chpre@[t].deep_view());
                        }
                    };
                    assert(changed.deep_view() =~= chpre.deep_view().push(
                        s0.ignores[j as int].dir_path,
                    ));
                    let f0 = s0.ignores.subrange(0, j as int).filter(chpred);
                    let f1 = s0.ignores.subrange(0, j as int + 1).filter(chpred);
                    assert(f1.map_values(chfn) =~= f0.map_values(chfn).push(
                        s0.ignores[j as int].dir_path,
                    ));
                }
            }
            j += 1;
        }
        let ghost chdv = changed.deep_view();
        proof {
            assert(s0.ignores.subrange(0, s0.ignores.len() as int) =~= s0.ignores);
        }
        // drop dangling registrations
        self.ignores.gc(&self.entries);
        let ghost g1 = self@;
        // first pass: entries under a changed ruleset
        let n = self.entries.len();
        let mut i: usize = 0;
        while i < n
            invariant
                i <= n,
                n == self@.entries.len(),
                self.wf(),
                self@.id == g1.id,
                self@.scan_id == g1.scan_id,
                self@.abs_path == g1.abs_path,
                self@.root_name_chars == g1.root_name_chars,
                self@.ignores == g1.ignores,
                crate::index::index_wf(g1.entries),
                same_shape(self@.entries, g1.entries),
                changed.deep_view() == chdv,
                forall|k: int|
                    0 <= k < i ==> (#[trigger] self@.entries[k]).is_ignored == (if exists|t: int|
                        0 <= t < chdv.len() && is_under(#[trigger] chdv[t], g1.entries[k].path) {
                        Some(crate::snapshot::spec_ignored(g1, g1.entries[k].path))
                    } else {
                        g1.entries[k].is_ignored
                    }),
                forall|k: int| i <= k < n ==> (#[trigger] self@.entries[k]) == g1.entries[k],
            decreases n - i,
        {
            let p = self.entries.entry_at_index(i).path.clone();
            proof {
                assert(self@.entries[i as int].path == p@);
            }
            if under_any(&changed, &p) {
                proof {
                    assert(has_path(self@.entries, p@));
                }
                let v = match self.is_path_ignored(&p) {
                    Ok(b) => b,
                    Err(_) => {
                        proof {
                            assert(false);
                        }
                        false
                    },
                };
                proof {
                    lemma_ignored_shape(self@, g1, p@);
                    assert(v == crate::snapshot::spec_ignored(g1, p@));
                }
                let ghost pre = self@;
                self.entries.set_ignored_at(i, v);
                proof {
                    assert(same_shape(self@.entries, g1.entries)) by {
                        assert forall|k: int|
                            0 <= k < self@.entries.len() implies ((#[trigger] self@.entries[k]).path
                                == g1.entries[k].path && self@.entries[k].kind
                                == g1.entries[k].kind && self@.entries[k].inode
                                == g1.entries[k].inode && self@.entries[k].is_symlink
                                == g1.entries[k].is_symlink) by {
                            if k != i {
                                assert(self@.entries[k] == pre.entries[k]);
                            }
                        };
                    }
                    assert(g1.entries[i as int].path == p@);
                }
            }
            i += 1;
        }
        let ghost g2 = self@;
        // second pass: entries still awaiting their first classification
        let mut i2: usize = 0;
        while i2 < n
            invariant
                i2 <= n,
                n == self@.entries.len(),
                self.wf(),
                self@.id == g2.id,
                self@.scan_id == g2.scan_id,
                self@.abs_path == g2.abs_path,
                self@.root_name_chars == g2.root_name_chars,
                self@.ignores == g2.ignores,
                crate::index::index_wf(g2.entries),
                same_shape(self@.entries, g2.entries),
                forall|k: int|
                    0 <= k < i2 ==> (#[trigger] self@.entries[k]).is_ignored == (
                    if g2.entries[k].is_ignored is None {
                        Some(crate::snapshot::spec_ignored(g2, g2.entries[k].path))
                    } else {
                        g2.entries[k].is_ignored
                    }),
                forall|k: int| i2 <= k < n ==> (#[trigger] self@.entries[k]) == g2.entries[k],
            decreases n - i2,
        {
            let pending = self.entries.entry_at_index(i2).is_ignored().is_none();
            if pending {
                let p = self.entries.entry_at_index(i2).path.clone();
                proof {
                    assert(self@.entries[i2 as int].path == p@);
                    assert(has_path(self@.entries, p@));
                }
                let v = match self.is_path_ignored(&p) {
                    Ok(b) => b,
                    Err(_) => {
                        proof {
                            assert(false);
                        }
                        false
                    },
                };
                proof {
                    lemma_ignored_shape(self@, g2, p@);
                    assert(v == crate::snapshot::spec_ignored(g2, p@));
                }
                let ghost pre = self@;
                self.entries.set_ignored_at(i2, v);
                proof {
                    assert(same_shape(self@.entries, g2.entries)) by {
                        assert forall|k: int|
                            0 <= k < self@.entries.len() implies ((#[trigger] self@.entries[k]).path
                                == g2.entries[k].path && self@.entries[k].kind
                                == g2.entries[k].kind && self@.entries[k].inode
                                == g2.entries[k].inode && self@.entries[k].is_symlink
                                == g2.entries[k].is_symlink) by {
                            if k != i2 {
                                assert(self@.entries[k] == pre.entries[k]);
                            }
                        };
                    }
                    assert(g2.entries[i2 as int].path == p@);
                }
            }
            i2 += 1;
        }
        proof {
            assert(g1.entries == s0.entries);
            assert forall|k: int|
                0 <= k < self@.entries.len() implies (#[trigger] self@.entries[k]).is_ignored == (
                if s0.entries[k].is_ignored is None || changed_covers(
                    s0.ignores,
                    s0.scan_id,
                    s0.entries[k].path,
                ) {
                    Some(crate::snapshot::spec_ignored(self@, s0.entries[k].path))
                } else {
                    s0.entries[k].is_ignored
                }) by {
                lemma_changed_set(s0.ignores, s0.scan_id, chdv, s0.entries[k].path);
                assert(has_path(g1.entries, g1.entries[k].path)) by {
                    crate::index::lemma_at_index(g1.entries, k);
                }
                lemma_ignored_shape(g1, self@, g1.entries[k].path);
                lemma_ignored_shape(g2, self@, g2.entries[k].path);
                assert(has_path(g2.entries, g2.entries[k].path)) by {
                    crate::index::lemma_at_index(g2.entries, k);
                }
            };
            assert forall|k: int|
                0 <= k < self@.entries.len() implies (#[trigger] self@.entries[k].is_ignored)
                    is Some by {
            };
            assert forall|j2: int|
                0 <= j2 < self@.ignores.len() implies has_path(
                self@.entries,
                (#[trigger] self@.ignores[j2]).dir_path,
            ) && has_path(
                self@.entries,
                self@.ignores[j2].dir_path.push(gitignore_name()),
            ) by {
                let d = self@.ignores[j2];
                s0.ignores.lemma_filter_pred(
                    |dd: IgnoreData|
                        has_path(s0.entries, dd.dir_path) && has_path(
                            s0.entries,
                            dd.dir_path.push(gitignore_name()),
                        ),
                    j2,
                );
                assert(has_path(s0.entries, d.dir_path));
                let a = idx_of(s0.entries, d.dir_path);
                assert(self@.entries[a].path == d.dir_path);
                assert(has_path(s0.entries, d.dir_path.push(gitignore_name())));
                let b = idx_of(s0.entries, d.dir_path.push(gitignore_name()));
                assert(self@.entries[b].path == d.dir_path.push(gitignore_name()));
            };
        }
    }
}


fn clone_raw(c: &RawChild) -> (r: RawChild)
    ensures
        r@ == c@,
{
    RawChild {
        name: crate::paths::copy_bytes(&c.name),
        info: c.info,
        ignore_rules: match c.ignore_rules {
            Some(ref rules) => Some(crate::paths::copy_bytes(rules)),
            None => None,
        },
    }
}

fn push_raw(v: &mut Vec<RawChild>, c: RawChild)
    ensures
        final(v).deep_view() == old(v).deep_view().push(c@),
{
    let ghost pre = *v;
    let ghost cv = c@;
    v.push(c);
    proof {
        assert forall|k: int|
            0 <= k < v.deep_view().len() implies v.deep_view()[k] == pre.deep_view().push(
            cv,
        )[k] by {
            assert(v.deep_view()[k] == v@[k].deep_view());
            if k < pre@.len() {
                assert(v@[k] == pre@[k]);
                assert(pre.deep_view()[k] == pre@[k].deep_view());
            }
        };
        assert(v.deep_view() =~= pre.deep_view().push(cv));
    }
}

/// The absolute path of a child of `parent` is a mount point foreign to the
/// root's volume.
pub open spec fn mount_hit(
    mounts: Seq<Seq<Seq<u8>>>,
    abs_parent: Seq<Seq<u8>>,
    name: Seq<u8>,
) -> bool {
    exists|m: int| 0 <= m < mounts.len() && #[trigger] mounts[m] == abs_parent.push(name)
}

/// Refuse to descend into foreign mounts: keep exactly the children whose
/// absolute path is not one of `other_mounts`.
pub fn filter_children(
    children: Vec<RawChild>,
    other_mounts: &Vec<TreePath>,
    abs_parent: &TreePath,
) -> (r: Vec<RawChild>)
    ensures
        r.deep_view() == children.deep_view().filter(
            |c: RawChildData| !mount_hit(other_mounts.deep_view(), abs_parent@, c.name),
        ),
{
    let ghost cdv = children.deep_view();
    let ghost pred = |c: RawChildData| !mount_hit(other_mounts.deep_view(), abs_parent@, c.name);
    let n = children.len();
    let mut out: Vec<RawChild> = Vec::new();
    let mut i: usize = 0;
    proof {
        assert(cdv.subrange(0, 0).filter(pred) =~= Seq::<RawChildData>::empty());
    }
    while i < n
        invariant
            i <= n == children@.len(),
            children.deep_view() == cdv,
            pred == (|c: RawChildData|
                !mount_hit(other_mounts.deep_view(), abs_parent@, c.name)),
            out.deep_view() == cdv.subrange(0, i as int).filter(pred),
        decreases n - i,
    {
        let child = &children[i];
        proof {
            assert(child@ == cdv[i as int]);
            assert(cdv.subrange(0, i as int + 1) =~= cdv.subrange(0, i as int).push(
                cdv[i as int],
            ));
            cdv.subrange(0, i as int).lemma_filter_push(cdv[i as int], pred);
        }
        let abs_child = abs_parent.child(crate::paths::copy_bytes(&child.name));
        let mut hit = false;
        let mut m: usize = 0;
        while m < other_mounts.len()
            invariant
                m <= other_mounts@.len(),
                abs_child@ == abs_parent@.push(cdv[i as int].name),
                children.deep_view() == cdv,
                i < cdv.len(),
                hit ==> mount_hit(other_mounts.deep_view(), abs_parent@, cdv[i as int].name),
                !hit ==> forall|u: int|
                    0 <= u < m ==> #[trigger] other_mounts.deep_view()[u] != abs_child@,
            decreases other_mounts@.len() - m,
        {
            proof {
                assert(other_mounts.deep_view()[m as int] == other_mounts@[m as int].deep_view());
            }
            if crate::paths::path_eq(&other_mounts[m], &abs_child) {
                hit = true;
            }
            m += 1;
        }
        if !hit {
            let c = clone_raw(&children[i]);
            push_raw(&mut out, c);
        }
        i += 1;
    }
    proof {
        assert(cdv.subrange(0, n as int) =~= cdv);
    }
    out
}


impl Snapshot {
    /// Begin processing one event batch: bump the scan id — the change token
    /// that ignore reclassification keys on — and nothing else.
    pub fn begin_event_batch(&mut self)
        requires
            old(self).wf(),
            old(self)@.scan_id < u64::MAX,
        ensures
            final(self).wf(),
            final(self)@ == (SnapshotData {
                scan_id: (old(self)@.scan_id + 1) as u64,
                ..old(self)@
            }),
    {
        self.scan_id = self.scan_id + 1;
    }
}

fn push_path(v: &mut Vec<TreePath>, p: TreePath)
    ensures
        final(v).deep_view() == old(v).deep_view().push(p@),
{
    let ghost pre = *v;
    let ghost pv = p@;
    v.push(p);
    proof {
        assert forall|k: int|
            0 <= k < v.deep_view().len() implies v.deep_view()[k] == pre.deep_view().push(
            pv,
        )[k] by {
            assert(v.deep_view()[k] == v@[k].deep_view());
            if k < pre@.len() {
                assert(v@[k] == pre@[k]);
                assert(pre.deep_view()[k] == pre@[k].deep_view());
            }
        };
        assert(v.deep_view() =~= pre.deep_view().push(pv));
    }
}

/// The mount points the scanner refuses to descend into: exactly those that
/// do not contain the worktree root.
pub fn other_mount_paths(mounts: Vec<TreePath>, root_abs: &TreePath) -> (r: Vec<TreePath>)
    ensures
        r.deep_view() == mounts.deep_view().filter(
            |m: Seq<Seq<u8>>| !crate::paths::is_prefix_of(m, root_abs@),
        ),
{
    let ghost mdv = mounts.deep_view();
    let ghost pred = |m: Seq<Seq<u8>>| !crate::paths::is_prefix_of(m, root_abs@);
    let n = mounts.len();
    let mut out: Vec<TreePath> = Vec::new();
    let mut i: usize = 0;
    proof {
        assert(mdv.subrange(0, 0).filter(pred) =~= Seq::<Seq<Seq<u8>>>::empty());
    }
    while i < n
        invariant
            i <= n == mounts@.len(),
            mounts.deep_view() == mdv,
            pred == (|m: Seq<Seq<u8>>| !crate::paths::is_prefix_of(m, root_abs@)),
            out.deep_view() == mdv.subrange(0, i as int).filter(pred),
        decreases n - i,
    {
        let m = &mounts[i];
        proof {
            assert(m@ == mdv[i as int]);
            assert(mdv.subrange(0, i as int + 1) =~= mdv.subrange(0, i as int).push(
                mdv[i as int],
            ));
            mdv.subrange(0, i as int).lemma_filter_push(mdv[i as int], pred);
        }
        if !path_starts_with(root_abs, m) {
            let c = m.clone();
            push_path(&mut out, c);
        }
        i += 1;
    }
    proof {
        assert(mdv.subrange(0, n as int) =~= mdv);
    }
    out
}


/// `v` occurs among the paths of `s`.
pub open spec fn seq_has(s: Seq<Seq<Seq<u8>>>, v: Seq<Seq<u8>>) -> bool {
    exists|j: int| 0 <= j < s.len() && #[trigger] s[j] == v
}

/// Some path of `s` covers `v`: `v` lies in its subtree.
pub open spec fn covered_by(s: Seq<Seq<Seq<u8>>>, v: Seq<Seq<u8>>) -> bool {
    exists|j: int| 0 <= j < s.len() && is_under(#[trigger] s[j], v)
}

/// `v` is the root-relative part of some event that lies under the root.
pub open spec fn rel_event_of(es: Seq<Seq<Seq<u8>>>, root: Seq<Seq<u8>>, v: Seq<Seq<u8>>) -> bool {
    exists|i: int|
        0 <= i < es.len() && crate::paths::is_prefix_of(root, #[trigger] es[i]) && v == es[
            i].skip(root.len() as int)
}

/// A batch position survives coalescing: no event's path strictly encloses
/// it, and it is the first occurrence of its path in the batch.
#[verifier::opaque]
pub open spec fn kept_event(ps: Seq<Seq<Seq<u8>>>, i: int) -> bool {
    (forall|k: int|
        0 <= k < ps.len() ==> !(is_under(#[trigger] ps[k], ps[i]) && ps[k] != ps[i])) && (forall|
        k: int,
    | 0 <= k < i ==> (#[trigger] ps[k]) != ps[i])
}

/// `v` is the path of a kept event among the first `i`.
pub open spec fn kept_path(ps: Seq<Seq<Seq<u8>>>, i: int, v: Seq<Seq<u8>>) -> bool {
    exists|i0: int| 0 <= i0 < i && kept_event(ps, i0) && (#[trigger] ps[i0]) == v
}

/// The surviving positions of the first `i` events, in batch order.
pub open spec fn kept_prefix(ps: Seq<Seq<Seq<u8>>>, i: int) -> Seq<Seq<Seq<u8>>>
    decreases i,
{
    if i <= 0 {
        Seq::empty()
    } else if kept_event(ps, i - 1) {
        kept_prefix(ps, i - 1).push(ps[i - 1])
    } else {
        kept_prefix(ps, i - 1)
    }
}

/// Every surviving path is some kept event's path.
proof fn lemma_kp_member(ps: Seq<Seq<Seq<u8>>>, i: int)
    requires
        0 <= i <= ps.len(),
    ensures
        forall|j: int|
            0 <= j < kept_prefix(ps, i).len() ==> kept_path(
                ps,
                i,
                #[trigger] kept_prefix(ps, i)[j],
            ),
    decreases i,
{
    if i > 0 {
        lemma_kp_member(ps, i - 1);
        assert forall|j: int|
            0 <= j < kept_prefix(ps, i).len() implies kept_path(
            ps,
            i,
            #[trigger] kept_prefix(ps, i)[j],
        ) by {
            if kept_event(ps, i - 1) && j == kept_prefix(ps, i).len() - 1 {
                assert(kept_prefix(ps, i)[j] == ps[i - 1]);
            } else {
                assert(kept_prefix(ps, i)[j] == kept_prefix(ps, i - 1)[j]);
                assert(kept_path(ps, i - 1, kept_prefix(ps, i - 1)[j]));
                let i0 = choose|i0: int|
                    0 <= i0 < i - 1 && kept_event(ps, i0) && (#[trigger] ps[i0]) == kept_prefix(
                        ps,
                        i - 1,
                    )[j];
                assert(0 <= i0 < i && kept_event(ps, i0) && ps[i0] == kept_prefix(ps, i)[j]);
            }
        };
    }
}

/// Every kept event's path survives.
proof fn lemma_kp_complete(ps: Seq<Seq<Seq<u8>>>, i: int)
    requires
        0 <= i <= ps.len(),
    ensures
        forall|i0: int|
            0 <= i0 < i && kept_event(ps, i0) ==> seq_has(kept_prefix(ps, i), #[trigger] ps[i0]),
    decreases i,
{
    if i > 0 {
        lemma_kp_complete(ps, i - 1);
        assert forall|i0: int|
            0 <= i0 < i && kept_event(ps, i0) implies seq_has(
            kept_prefix(ps, i),
            #[trigger] ps[i0],
        ) by {
            if i0 == i - 1 {
                let n = kept_prefix(ps, i).len();
                assert(kept_prefix(ps, i)[n - 1] == ps[i0]);
            } else {
                assert(seq_has(kept_prefix(ps, i - 1), ps[i0]));
                let j = choose|j: int|
                    0 <= j < kept_prefix(ps, i - 1).len() && #[trigger] kept_prefix(ps, i - 1)[j]
                        == ps[i0];
                assert(kept_prefix(ps, i)[j] == ps[i0]);
            }
        };
    }
}

/// The surviving list never repeats a path.
proof fn lemma_kp_distinct(ps: Seq<Seq<Seq<u8>>>, i: int)
    requires
        0 <= i <= ps.len(),
    ensures
        forall|j1: int, j2: int|
            0 <= j1 < j2 < kept_prefix(ps, i).len() ==> #[trigger] kept_prefix(ps, i)[j1]
                != #[trigger] kept_prefix(ps, i)[j2],
    decreases i,
{
    if i > 0 {
        lemma_kp_distinct(ps, i - 1);
        lemma_kp_member(ps, i - 1);
        assert forall|j1: int, j2: int|
            0 <= j1 < j2 < kept_prefix(ps, i).len() implies #[trigger] kept_prefix(ps, i)[j1]
                != #[trigger] kept_prefix(ps, i)[j2] by {
            if kept_event(ps, i - 1) && j2 == kept_prefix(ps, i).len() - 1 {
                assert(kept_prefix(ps, i)[j2] == ps[i - 1]);
                assert(kept_prefix(ps, i)[j1] == kept_prefix(ps, i - 1)[j1]);
                assert(kept_path(ps, i - 1, kept_prefix(ps, i - 1)[j1]));
                let i0 = choose|i0: int|
                    0 <= i0 < i - 1 && kept_event(ps, i0) && (#[trigger] ps[i0]) == kept_prefix(
                        ps,
                        i - 1,
                    )[j1];
                if ps[i0] == ps[i - 1] {
                    reveal(kept_event);
                }
            } else {
                assert(kept_prefix(ps, i)[j1] == kept_prefix(ps, i - 1)[j1]);
                assert(kept_prefix(ps, i)[j2] == kept_prefix(ps, i - 1)[j2]);
            }
        };
    }
}

/// The first position carrying the same path as position `i`.
proof fn lemma_first_occurrence(ps: Seq<Seq<Seq<u8>>>, i: int)
    requires
        0 <= i < ps.len(),
    ensures
        exists|i0: int|
            0 <= i0 <= i && #[trigger] ps[i0] == ps[i] && (forall|k: int|
                0 <= k < i0 ==> (#[trigger] ps[k]) != ps[i]),
    decreases i,
{
    if exists|k: int| 0 <= k < i && (#[trigger] ps[k]) == ps[i] {
        let k0 = choose|k: int| 0 <= k < i && (#[trigger] ps[k]) == ps[i];
        lemma_first_occurrence(ps, k0);
        let i0 = choose|i0: int|
            0 <= i0 <= k0 && #[trigger] ps[i0] == ps[k0] && (forall|k: int|
                0 <= k < i0 ==> (#[trigger] ps[k]) != ps[k0]);
        assert(0 <= i0 <= i && ps[i0] == ps[i] && (forall|k: int|
            0 <= k < i0 ==> (#[trigger] ps[k]) != ps[i]));
    } else {
        assert(0 <= i <= i && ps[i] == ps[i] && (forall|k: int|
            0 <= k < i ==> (#[trigger] ps[k]) != ps[i]));
    }
}

/// Every event of a batch lies in the subtree of some surviving event.
proof fn lemma_coalesce_cover(ps: Seq<Seq<Seq<u8>>>, i: int)
    requires
        0 <= i < ps.len(),
    ensures
        exists|i2: int|
            0 <= i2 < ps.len() && kept_event(ps, i2) && is_under(#[trigger] ps[i2], ps[i]),
    decreases ps[i].len(),
{
    reveal(kept_event);
    if exists|k: int| 0 <= k < ps.len() && is_under(#[trigger] ps[k], ps[i]) && ps[k] != ps[i] {
        let k0 = choose|k: int|
            0 <= k < ps.len() && is_under(#[trigger] ps[k], ps[i]) && ps[k] != ps[i];
        crate::paths::lemma_prefix_lt(ps[k0], ps[i]);
        assert(ps[k0].len() < ps[i].len()) by {
            if ps[k0].len() == ps[i].len() {
                assert(ps[i].subrange(0, ps[k0].len() as int) =~= ps[i]);
            }
        }
        lemma_coalesce_cover(ps, k0);
        let i2 = choose|i2: int|
            0 <= i2 < ps.len() && kept_event(ps, i2) && is_under(#[trigger] ps[i2], ps[k0]);
        crate::paths::lemma_prefix_trans(ps[i2], ps[k0], ps[i]);
        assert(0 <= i2 < ps.len() && kept_event(ps, i2) && is_under(ps[i2], ps[i]));
    } else {
        lemma_first_occurrence(ps, i);
        let i0 = choose|i0: int|
            0 <= i0 <= i && #[trigger] ps[i0] == ps[i] && (forall|k: int|
                0 <= k < i0 ==> (#[trigger] ps[k]) != ps[i]);
        assert(kept_event(ps, i0));
        assert(is_under(ps[i0], ps[i])) by {
            assert(ps[i].subrange(0, ps[i0].len() as int) =~= ps[i]);
        }
        assert(0 <= i0 < ps.len() && kept_event(ps, i0) && is_under(ps[i0], ps[i]));
    }
}

/// Whether position `i` of the batch survives coalescing.
fn event_kept(paths: &Vec<TreePath>, i: usize) -> (r: bool)
    requires
        i < paths@.len(),
    ensures
        r == kept_event(paths.deep_view(), i as int),
{
    let ghost pdv = paths.deep_view();
    proof {
        reveal(kept_event);
    }
    let p = &paths[i];
    proof {
        assert(p@ == pdv[i as int]);
    }
    let n = paths.len();
    let mut k: usize = 0;
    while k < n
        invariant
            k <= n == paths@.len(),
            pdv == paths.deep_view(),
            i < n,
            p@ == pdv[i as int],
            forall|u: int|
                0 <= u < k ==> !(is_under(#[trigger] pdv[u], pdv[i as int]) && pdv[u]
                    != pdv[i as int]) && !(u < i && pdv[u] == pdv[i as int]),
        decreases n - k,
    {
        let q = &paths[k];
        proof {
            assert(q@ == pdv[k as int]);
        }
        let encloses = path_starts_with(p, q) && !crate::paths::path_eq(q, p);
        let dup_before = k < i && crate::paths::path_eq(q, p);
        if encloses || dup_before {
            proof {
                reveal(kept_event);
            }
            return false;
        }
        k += 1;
    }
    proof {
        reveal(kept_event);
    }
    true
}

/// Keep the surviving events of a batch, in batch order.
fn coalesce_kept(paths: &Vec<TreePath>) -> (r: Vec<TreePath>)
    ensures
        r.deep_view() == kept_prefix(paths.deep_view(), paths@.len() as int),
{
    let ghost pdv = paths.deep_view();
    let n = paths.len();
    let mut out: Vec<TreePath> = Vec::new();
    let mut i: usize = 0;
    proof {
        assert(out.deep_view() =~= kept_prefix(pdv, 0));
    }
    while i < n
        invariant
            i <= n == paths@.len(),
            pdv == paths.deep_view(),
            out.deep_view() == kept_prefix(pdv, i as int),
        decreases n - i,
    {
        let keep = event_kept(paths, i);
        if keep {
            let c = paths[i].clone();
            proof {
                assert(c@ == pdv[i as int]);
            }
            push_path(&mut out, c);
        }
        i += 1;
    }
    out
}

/// The sorted sequence that an insertion at `pos` produces.
proof fn lemma_sorted_insert(s: Seq<Seq<Seq<u8>>>, pos: int, x: Seq<Seq<u8>>)
    requires
        forall|a: int, b: int|
            0 <= a < b < s.len() ==> crate::paths::path_lt(#[trigger] s[a], #[trigger] s[b]),
        0 <= pos <= s.len(),
        forall|j: int| 0 <= j < pos ==> crate::paths::path_lt(#[trigger] s[j], x),
        pos < s.len() ==> crate::paths::path_lt(x, s[pos]),
    ensures
        ({
            let t = s.insert(pos, x);
            &&& t.len() == s.len() + 1
            &&& forall|a: int, b: int|
                0 <= a < b < t.len() ==> crate::paths::path_lt(#[trigger] t[a], #[trigger] t[b])
            &&& forall|j: int|
                0 <= j < t.len() ==> ((#[trigger] t[j]) == x || seq_has(s, t[j]))
            &&& forall|k: int| 0 <= k < s.len() ==> seq_has(t, #[trigger] s[k])
            &&& seq_has(t, x)
        }),
{
    let t = s.insert(pos, x);
    assert forall|j: int| pos < j < s.len() implies crate::paths::path_lt(x, #[trigger] s[j]) by {
        lemma_path_lt_trans(x, s[pos], s[j]);
    };
    assert forall|a: int, b: int|
        0 <= a < b < t.len() implies crate::paths::path_lt(#[trigger] t[a], #[trigger] t[b]) by {
        if a < pos {
            assert(t[a] == s[a]);
        } else if a == pos {
            assert(t[a] == x);
        } else {
            assert(t[a] == s[a - 1]);
        }
        if b < pos {
            assert(t[b] == s[b]);
        } else if b == pos {
            assert(t[b] == x);
        } else {
            assert(t[b] == s[b - 1]);
        }
    };
    assert forall|j: int|
        0 <= j < t.len() implies ((#[trigger] t[j]) == x || seq_has(s, t[j])) by {
        if j < pos {
            assert(t[j] == s[j]);
        } else if j > pos {
            assert(t[j] == s[j - 1]);
        }
    };
    assert forall|k: int| 0 <= k < s.len() implies seq_has(t, #[trigger] s[k]) by {
        if k < pos {
            assert(t[k] == s[k]);
        } else {
            assert(t[k + 1] == s[k]);
        }
    };
    assert(t[pos] == x);
}

fn insert_path(v: &mut Vec<TreePath>, pos: usize, p: TreePath)
    requires
        pos <= old(v)@.len(),
    ensures
        final(v).deep_view() == old(v).deep_view().insert(pos as int, p@),
{
    let ghost pre = *v;
    let ghost pv = p@;
    v.insert(pos, p);
    proof {
        assert forall|k: int|
            0 <= k < v.deep_view().len() implies v.deep_view()[k] == pre.deep_view().insert(
            pos as int,
            pv,
        )[k] by {
            assert(v.deep_view()[k] == v@[k].deep_view());
            if k < pos {
                assert(v@[k] == pre@[k]);
                assert(pre.deep_view()[k] == pre@[k].deep_view());
            } else if k > pos {
                assert(v@[k] == pre@[k - 1]);
                assert(pre.deep_view()[k - 1] == pre@[k - 1].deep_view());
            }
        };
        assert(v.deep_view() =~= pre.deep_view().insert(pos as int, pv));
    }
}

/// Sort a duplicate-free list of paths into strictly ascending index order.
#[verifier::rlimit(60)]
fn sort_paths(v: &Vec<TreePath>) -> (r: Vec<TreePath>)
    requires
        forall|a: int, b: int|
            0 <= a < b < v@.len() ==> #[trigger] v.deep_view()[a] != #[trigger] v.deep_view()[b],
    ensures
        r@.len() == v@.len(),
        forall|a: int, b: int|
            0 <= a < b < r@.len() ==> crate::paths::path_lt(
                #[trigger] r.deep_view()[a],
                #[trigger] r.deep_view()[b],
            ),
        forall|j: int|
            0 <= j < r@.len() ==> seq_has(v.deep_view(), #[trigger] r.deep_view()[j]),
        forall|k: int|
            0 <= k < v@.len() ==> seq_has(r.deep_view(), #[trigger] v.deep_view()[k]),
{
    let ghost vdv = v.deep_view();
    let n = v.len();
    let mut out: Vec<TreePath> = Vec::new();
    let mut i: usize = 0;
    while i < n
        invariant
            i <= n == v@.len(),
            vdv == v.deep_view(),
            out@.len() == i,
            forall|a: int, b: int|
                0 <= a < b < vdv.len() ==> #[trigger] vdv[a] != #[trigger] vdv[b],
            forall|a: int, b: int|
                0 <= a < b < out@.len() ==> crate::paths::path_lt(
                    #[trigger] out.deep_view()[a],
                    #[trigger] out.deep_view()[b],
                ),
            forall|j: int|
                0 <= j < out@.len() ==> seq_has(
                    vdv.subrange(0, i as int),
                    #[trigger] out.deep_view()[j],
                ),
            forall|k: int|
                0 <= k < i ==> seq_has(out.deep_view(), #[trigger] vdv[k]),
        decreases n - i,
    {
        let x = v[i].clone();
        let ghost xv = x@;
        proof {
            assert(xv == vdv[i as int]);
        }
        let mut pos: usize = 0;
        while pos < out.len() && matches!(
            crate::paths::path_cmp(&out[pos], &x),
            crate::paths::PathOrder::Less,
        )
            invariant
                pos <= out@.len(),
                xv == x@,
                forall|j: int|
                    0 <= j < pos ==> crate::paths::path_lt(#[trigger] out.deep_view()[j], xv),
            decreases out@.len() - pos,
        {
            proof {
                assert(out.deep_view()[pos as int] == out@[pos as int].deep_view());
            }
            pos += 1;
        }
        proof {
            if pos < out@.len() {
                assert(out.deep_view()[pos as int] == out@[pos as int].deep_view());
                // the new path differs from everything already placed
                assert(seq_has(vdv.subrange(0, i as int), out.deep_view()[pos as int]));
                let k0 = choose|k: int|
                    0 <= k < i && #[trigger] vdv.subrange(0, i as int)[k] == out.deep_view()[
                        pos as int];
                assert(vdv[k0] != vdv[i as int]);
                lemma_path_order(out.deep_view()[pos as int], xv);
            }
        }
        let ghost outpre = out.deep_view();
        proof {
            lemma_sorted_insert(outpre, pos as int, xv);
        }
        insert_path(&mut out, pos, x);
        proof {
            let t = outpre.insert(pos as int, xv);
            assert forall|j: int|
                0 <= j < out@.len() implies seq_has(
                vdv.subrange(0, i as int + 1),
                #[trigger] out.deep_view()[j],
            ) by {
                if out.deep_view()[j] == xv {
                    assert(vdv.subrange(0, i as int + 1)[i as int] == out.deep_view()[j]);
                } else {
                    assert(seq_has(outpre, t[j]));
                    let k0 = choose|k0: int| 0 <= k0 < outpre.len() && #[trigger] outpre[k0] == t[j];
                    assert(seq_has(vdv.subrange(0, i as int), outpre[k0]));
                    let k1 = choose|k: int|
                        0 <= k < i && #[trigger] vdv.subrange(0, i as int)[k] == outpre[k0];
                    assert(vdv.subrange(0, i as int + 1)[k1] == out.deep_view()[j]);
                }
            };
            assert forall|k: int|
                0 <= k < i + 1 implies seq_has(out.deep_view(), #[trigger] vdv[k]) by {
                if k < i {
                    assert(seq_has(outpre, vdv[k]));
                    let j0 = choose|j: int| 0 <= j < outpre.len() && #[trigger] outpre[j] == vdv[k];
                    assert(seq_has(t, outpre[j0]));
                    let j1 = choose|j: int| 0 <= j < t.len() && #[trigger] t[j] == outpre[j0];
                    assert(out.deep_view()[j1] == vdv[k]);
                } else {
                    assert(seq_has(t, xv));
                    let j1 = choose|j: int| 0 <= j < t.len() && #[trigger] t[j] == xv;
                    assert(out.deep_view()[j1] == vdv[k]);
                }
            };
        }
        i += 1;
    }
    proof {
        assert(vdv.subrange(0, n as int) =~= vdv);
        assert forall|j: int|
            0 <= j < out@.len() implies seq_has(vdv, #[trigger] out.deep_view()[j]) by {
            assert(seq_has(vdv.subrange(0, n as int), out.deep_view()[j]));
            let k = choose|k: int|
                0 <= k < n && #[trigger] vdv.subrange(0, n as int)[k] == out.deep_view()[j];
            assert(vdv[k] == out.deep_view()[j]);
        };
    }
    out
}

/// The root-relative parts of the first `i` events that lie under the root,
/// in batch order.
pub open spec fn stripped_prefix(es: Seq<Seq<Seq<u8>>>, root: Seq<Seq<u8>>, i: int) -> Seq<
    Seq<Seq<u8>>,
>
    decreases i,
{
    if i <= 0 {
        Seq::empty()
    } else if crate::paths::is_prefix_of(root, es[i - 1]) {
        stripped_prefix(es, root, i - 1).push(es[i - 1].skip(root.len() as int))
    } else {
        stripped_prefix(es, root, i - 1)
    }
}

/// Every stripped path is the relative part of some event under the root.
proof fn lemma_sp_member(es: Seq<Seq<Seq<u8>>>, root: Seq<Seq<u8>>, i: int)
    requires
        0 <= i <= es.len(),
    ensures
        forall|j: int|
            0 <= j < stripped_prefix(es, root, i).len() ==> rel_event_of(
                es,
                root,
                #[trigger] stripped_prefix(es, root, i)[j],
            ),
    decreases i,
{
    if i > 0 {
        lemma_sp_member(es, root, i - 1);
        assert forall|j: int|
            0 <= j < stripped_prefix(es, root, i).len() implies rel_event_of(
            es,
            root,
            #[trigger] stripped_prefix(es, root, i)[j],
        ) by {
            if crate::paths::is_prefix_of(root, es[i - 1]) && j == stripped_prefix(
                es,
                root,
                i,
            ).len() - 1 {
                assert(stripped_prefix(es, root, i)[j] == es[i - 1].skip(root.len() as int));
            } else {
                assert(stripped_prefix(es, root, i)[j] == stripped_prefix(es, root, i - 1)[j]);
            }
        };
    }
}

/// Every event under the root contributes its relative part.
proof fn lemma_sp_complete(es: Seq<Seq<Seq<u8>>>, root: Seq<Seq<u8>>, i: int)
    requires
        0 <= i <= es.len(),
    ensures
        forall|i0: int|
            0 <= i0 < i && crate::paths::is_prefix_of(root, #[trigger] es[i0]) ==> seq_has(
                stripped_prefix(es, root, i),
                es[i0].skip(root.len() as int),
            ),
    decreases i,
{
    if i > 0 {
        lemma_sp_complete(es, root, i - 1);
        assert forall|i0: int|
            0 <= i0 < i && crate::paths::is_prefix_of(root, #[trigger] es[i0]) implies seq_has(
            stripped_prefix(es, root, i),
            es[i0].skip(root.len() as int),
        ) by {
            if i0 == i - 1 {
                let m = stripped_prefix(es, root, i).len();
                assert(stripped_prefix(es, root, i)[m - 1] == es[i0].skip(root.len() as int));
            } else {
                assert(seq_has(
                    stripped_prefix(es, root, i - 1),
                    es[i0].skip(root.len() as int),
                ));
                let j = choose|j: int|
                    0 <= j < stripped_prefix(es, root, i - 1).len() && #[trigger] stripped_prefix(
                        es,
                        root,
                        i - 1,
                    )[j] == es[i0].skip(root.len() as int);
                assert(stripped_prefix(es, root, i)[j] == es[i0].skip(root.len() as int));
            }
        };
    }
}

/// The root-relative parts of the events that lie under the root, in batch
/// order; events outside the root are dropped.
fn strip_events(events: &Vec<TreePath>, root_abs: &TreePath) -> (r: Vec<TreePath>)
    ensures
        r.deep_view() == stripped_prefix(events.deep_view(), root_abs@, events@.len() as int),
{
    let ghost edv = events.deep_view();
    let n = events.len();
    let mut out: Vec<TreePath> = Vec::new();
    let mut i: usize = 0;
    proof {
        assert(out.deep_view() =~= stripped_prefix(edv, root_abs@, 0));
    }
    while i < n
        invariant
            i <= n == events@.len(),
            edv == events.deep_view(),
            out.deep_view() == stripped_prefix(edv, root_abs@, i as int),
        decreases n - i,
    {
        proof {
            assert(events.deep_view()[i as int] == events@[i as int].deep_view());
        }
        match events[i].strip_prefix(root_abs) {
            Some(rel) => {
                push_path(&mut out, rel);
            },
            None => {},
        }
        i += 1;
    }
    out
}

/// Normalize one event batch against the worktree root: keep the events
/// whose absolute path lies under the root, take their root-relative parts,
/// drop duplicates and every path lying inside another event's subtree, and
/// return the survivors in strictly ascending path order. The survivors'
/// subtrees are pairwise disjoint and together cover every event under the
/// root, so `apply_event` may process them in any order.
pub fn normalize_events(events: &Vec<TreePath>, root_abs: &TreePath) -> (r: Vec<TreePath>)
    ensures
        forall|a: int, b: int|
            0 <= a < b < r@.len() ==> crate::paths::path_lt(
                #[trigger] r.deep_view()[a],
                #[trigger] r.deep_view()[b],
            ),
        forall|j: int|
            0 <= j < r@.len() ==> rel_event_of(
                events.deep_view(),
                root_abs@,
                #[trigger] r.deep_view()[j],
            ),
        forall|a: int, b: int|
            0 <= a < r@.len() && 0 <= b < r@.len() && a != b ==> !is_under(
                #[trigger] r.deep_view()[a],
                #[trigger] r.deep_view()[b],
            ),
        forall|i: int|
            0 <= i < events@.len() && crate::paths::is_prefix_of(
                root_abs@,
                #[trigger] events.deep_view()[i],
            ) ==> covered_by(
                r.deep_view(),
                events.deep_view()[i].skip(root_abs@.len() as int),
            ),
{
    let ghost edv = events.deep_view();
    let rel = strip_events(events, root_abs);
    let ghost rdv = rel.deep_view();
    let co = coalesce_kept(&rel);
    let ghost cdv = co.deep_view();
    proof {
        lemma_sp_member(edv, root_abs@, edv.len() as int);
        lemma_sp_complete(edv, root_abs@, edv.len() as int);
        lemma_kp_member(rdv, rdv.len() as int);
        lemma_kp_complete(rdv, rdv.len() as int);
        lemma_kp_distinct(rdv, rdv.len() as int);
    }
    let out = sort_paths(&co);
    proof {
        let odv = out.deep_view();
        assert forall|j: int|
            0 <= j < odv.len() implies rel_event_of(edv, root_abs@, #[trigger] odv[j]) by {
            assert(seq_has(cdv, odv[j]));
            let k = choose|k: int| 0 <= k < cdv.len() && #[trigger] cdv[k] == odv[j];
            assert(kept_path(rdv, rdv.len() as int, cdv[k]));
            let i0 = choose|i0: int|
                0 <= i0 < rdv.len() && kept_event(rdv, i0) && (#[trigger] rdv[i0]) == cdv[k];
            assert(rel_event_of(edv, root_abs@, rdv[i0]));
        };
        assert forall|a: int, b: int|
            0 <= a < odv.len() && 0 <= b < odv.len() && a != b implies !is_under(
            #[trigger] odv[a],
            #[trigger] odv[b],
        ) by {
            if is_under(odv[a], odv[b]) {
                if a < b {
                    lemma_path_order(odv[a], odv[b]);
                } else {
                    lemma_path_order(odv[b], odv[a]);
                }
                assert(odv[a] != odv[b]);
                assert(seq_has(cdv, odv[a]));
                assert(seq_has(cdv, odv[b]));
                let ka = choose|k: int| 0 <= k < cdv.len() && #[trigger] cdv[k] == odv[a];
                let kb = choose|k: int| 0 <= k < cdv.len() && #[trigger] cdv[k] == odv[b];
                assert(kept_path(rdv, rdv.len() as int, cdv[ka]));
                assert(kept_path(rdv, rdv.len() as int, cdv[kb]));
                let ia = choose|i0: int|
                    0 <= i0 < rdv.len() && kept_event(rdv, i0) && (#[trigger] rdv[i0]) == cdv[ka];
                let ib = choose|i0: int|
                    0 <= i0 < rdv.len() && kept_event(rdv, i0) && (#[trigger] rdv[i0]) == cdv[kb];
                reveal(kept_event);
                assert(is_under(rdv[ia], rdv[ib]) && rdv[ia] != rdv[ib]);
            }
        };
        assert forall|i: int|
            0 <= i < edv.len() && crate::paths::is_prefix_of(
                root_abs@,
                #[trigger] edv[i],
            ) implies covered_by(odv, edv[i].skip(root_abs@.len() as int)) by {
            assert(seq_has(rdv, edv[i].skip(root_abs@.len() as int)));
            let j1 = choose|j: int|
                0 <= j < rdv.len() && #[trigger] rdv[j] == edv[i].skip(root_abs@.len() as int);
            lemma_coalesce_cover(rdv, j1);
            let i2 = choose|i2: int|
                0 <= i2 < rdv.len() && kept_event(rdv, i2) && is_under(
                    #[trigger] rdv[i2],
                    rdv[j1],
                );
            assert(seq_has(cdv, rdv[i2]));
            let k2 = choose|k: int| 0 <= k < cdv.len() && #[trigger] cdv[k] == rdv[i2];
            assert(seq_has(odv, cdv[k2]));
            let j3 = choose|j: int| 0 <= j < odv.len() && #[trigger] odv[j] == cdv[k2];
            assert(is_under(odv[j3], edv[i].skip(root_abs@.len() as int)));
        };
    }
    out
}

} // verus!
