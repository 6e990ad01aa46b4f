use worktree::entry::{Entry, EntryKind, EntrySummary};
use worktree::file_iter::FileIter;
use worktree::paths::{path_cmp, path_eq, path_search_cmp, path_starts_with, PathOrder, PathSearch, TreePath};
use worktree::scanner::{EventUpdate, FsEntryInfo, RawChild};
use worktree::snapshot::{Snapshot, WorktreeError};

fn p(s: &str) -> TreePath {
    if s.is_empty() {
        return TreePath { components: Vec::new() };
    }
    TreePath { components: s.split('/').map(|c| c.as_bytes().to_vec()).collect() }
}

fn info(inode: u64, is_dir: bool) -> FsEntryInfo {
    FsEntryInfo { inode, is_dir, is_symlink: false }
}

fn child(name: &str, inode: u64, is_dir: bool, rules: Option<&str>) -> RawChild {
    RawChild {
        name: name.as_bytes().to_vec(),
        info: info(inode, is_dir),
        ignore_rules: rules.map(|r| r.as_bytes().to_vec()),
    }
}

/// Scan an in-memory tree: `files` lists (path, is_dir, gitignore contents).
fn scan(snap: &mut Snapshot, entries: &[(&str, bool, Option<&str>)]) {
    let is_dir_root = snap.start_scan(info(1, true));
    assert!(is_dir_root);
    let mut jobs = vec![p("")];
    let mut next_inode = 2u64;
    let mut inodes: Vec<(String, u64)> = Vec::new();
    for (path, _, _) in entries {
        inodes.push((path.to_string(), next_inode));
        next_inode += 1;
    }
    while let Some(job) = jobs.pop() {
        let job_str = job
            .components
            .iter()
            .map(|c| String::from_utf8_lossy(c).into_owned())
            .collect::<Vec<_>>()
            .join("/");
        let mut children = Vec::new();
        for (idx, (path, is_dir, rules)) in entries.iter().enumerate() {
            let parent = match path.rfind('/') {
                Some(k) => &path[..k],
                None => "",
            };
            if parent == job_str {
                let name = match path.rfind('/') {
                    Some(k) => &path[k + 1..],
                    None => path,
                };
                children.push(child(name, 2 + idx as u64, *is_dir, *rules));
            }
        }
        let new_jobs = snap.scan_directory(&job, children);
        jobs.extend(new_jobs);
    }
    snap.recompute_ignore_statuses();
}

fn paths_of(snap: &Snapshot) -> Vec<String> {
    snap.paths()
        .iter()
        .map(|tp| {
            tp.components
                .iter()
                .map(|c| String::from_utf8_lossy(c).into_owned())
                .collect::<Vec<_>>()
                .join("/")
        })
        .collect()
}

fn triples(snap: &Snapshot) -> Vec<(String, u64, Option<bool>)> {
    let mut out = Vec::new();
    let ps = snap.paths();
    for tp in &ps {
        let e = snap.entry_for_path(tp).unwrap();
        let s = tp
            .components
            .iter()
            .map(|c| String::from_utf8_lossy(c).into_owned())
            .collect::<Vec<_>>()
            .join("/");
        out.push((s, e.inode(), e.is_ignored()));
    }
    out
}

#[test]
fn test_path_order() {
    assert_eq!(path_cmp(&p("a"), &p("b")), PathOrder::Less);
    assert_eq!(path_cmp(&p("a/b"), &p("a/b")), PathOrder::Equal);
    assert_eq!(path_cmp(&p("b"), &p("a/x")), PathOrder::Greater);
    // a proper prefix orders before its extensions
    assert_eq!(path_cmp(&p("a"), &p("a/b")), PathOrder::Less);
    // component-wise, not byte-wise with a separator: "a-b" vs "a/b"
    assert_eq!(path_cmp(&p("a/b"), &TreePath { components: vec![b"a-b".to_vec()] }), PathOrder::Less);
    assert!(path_starts_with(&p("a/b/c"), &p("a/b")));
    assert!(!path_starts_with(&p("a/bc"), &p("a/b")));
    assert!(path_starts_with(&p("a"), &p("")));
}

#[test]
fn test_path_search_order() {
    let e = |s: &str| PathSearch::Exact(p(s));
    let s = |s: &str| PathSearch::Successor(p(s));
    assert_eq!(path_search_cmp(&e("a"), &e("b")), PathOrder::Less);
    // Successor(a) sorts after everything in a's subtree
    assert_eq!(path_search_cmp(&s("a"), &e("a/z")), PathOrder::Greater);
    assert_eq!(path_search_cmp(&s("a"), &e("a")), PathOrder::Greater);
    assert_eq!(path_search_cmp(&s("a"), &e("b")), PathOrder::Less);
    // the symmetric combination
    assert_eq!(path_search_cmp(&e("a/z"), &s("a")), PathOrder::Less);
    assert_eq!(path_search_cmp(&e("b"), &s("a")), PathOrder::Greater);
    assert_eq!(path_search_cmp(&s("a"), &s("a")), PathOrder::Equal);
    assert_eq!(path_search_cmp(&s("a"), &s("a/b")), PathOrder::Greater);
}

#[test]
fn test_summary_monoid() {
    let file = Entry {
        path: p("a/f"),
        kind: EntryKind::File(worktree::char_bag::CharBag(0)),
        inode: 7,
        is_symlink: false,
        is_ignored: Some(false),
    };
    let dir = Entry { path: p("a"), kind: EntryKind::Dir, inode: 3, is_symlink: false, is_ignored: Some(false) };
    let pending = Entry { path: p("b"), kind: EntryKind::PendingDir, inode: 4, is_symlink: false, is_ignored: None };
    let mut acc = EntrySummary::default();
    acc.add_assign(&dir.summary());
    acc.add_assign(&file.summary());
    acc.add_assign(&pending.summary());
    assert_eq!(acc.file_count, 1);
    assert_eq!(acc.visible_file_count, 1);
    assert!(acc.recompute_ignore_status);
    let ignored_file = Entry {
        path: p("c"),
        kind: EntryKind::File(worktree::char_bag::CharBag(0)),
        inode: 9,
        is_symlink: false,
        is_ignored: Some(true),
    };
    let s = ignored_file.summary();
    assert_eq!(s.file_count, 1);
    assert_eq!(s.visible_file_count, 0);
    assert!(!s.recompute_ignore_status);
}

#[test]
fn test_populate_and_search() {
    let mut snap = Snapshot::new(0, p("tmp/root"), b"root/".to_vec());
    scan(
        &mut snap,
        &[
            ("apple", false, None),
            ("banana", true, None),
            ("banana/carrot", true, None),
            ("banana/carrot/date", false, None),
            ("banana/carrot/endive", false, None),
            ("fennel", true, None),
            ("fennel/grape", false, None),
        ],
    );
    assert_eq!(snap.file_count(), 4);
    assert_eq!(
        paths_of(&snap),
        vec!["apple", "banana", "banana/carrot", "banana/carrot/date", "banana/carrot/endive", "fennel", "fennel/grape"]
    );
}

#[test]
fn test_rescan_simple() {
    let mut snap = Snapshot::new(0, p("tmp/root"), b"root/".to_vec());
    scan(
        &mut snap,
        &[
            ("a", true, None),
            ("a/file1", false, None),
            ("b", true, None),
            ("b/c", true, None),
            ("b/c/file2", false, None),
        ],
    );
    assert_eq!(snap.file_count(), 2);
    // rename b/c -> d: one event for the vanished source, one for the target
    let dir_job = snap.apply_event(&p("b/c"), None);
    assert!(!dir_job);
    let dir_job = snap.apply_event(&p("d"), Some(EventUpdate { info: info(50, true), ignore_rules: None }));
    assert!(dir_job);
    let jobs = snap.scan_directory(&p("d"), vec![child("file2", 6, false, None)]);
    assert!(jobs.is_empty());
    snap.recompute_ignore_statuses();
    assert_eq!(paths_of(&snap), vec!["a", "a/file1", "b", "d", "d/file2"]);
}

#[test]
fn test_rescan_with_gitignore() {
    let mut snap = Snapshot::new(0, p("tmp/root"), b"root/".to_vec());
    scan(
        &mut snap,
        &[
            (".git", true, None),
            (".gitignore", false, Some("ignored-dir\n")),
            ("tracked-dir", true, None),
            ("tracked-dir/tracked-file1", false, None),
            ("ignored-dir", true, None),
            ("ignored-dir/ignored-file1", false, None),
        ],
    );
    let kept = snap.entry_for_path(&p("tracked-dir/tracked-file1")).unwrap();
    assert_eq!(kept.is_ignored(), Some(false));
    let ignored = snap.entry_for_path(&p("ignored-dir/ignored-file1")).unwrap();
    assert_eq!(ignored.is_ignored(), Some(true));
    // entries under .git are always ignored
    let git = snap.entry_for_path(&p(".git")).unwrap();
    assert_eq!(git.is_ignored(), Some(true));
    // new files picked up by a later event keep the classification rules
    snap.apply_event(&p("tracked-dir/tracked-file2"), Some(EventUpdate { info: info(60, false), ignore_rules: None }));
    snap.apply_event(&p("ignored-dir/ignored-file2"), Some(EventUpdate { info: info(61, false), ignore_rules: None }));
    snap.recompute_ignore_statuses();
    assert_eq!(snap.entry_for_path(&p("tracked-dir/tracked-file2")).unwrap().is_ignored(), Some(false));
    assert_eq!(snap.entry_for_path(&p("ignored-dir/ignored-file2")).unwrap().is_ignored(), Some(true));
    // the rules actually decide: visible files exclude the ignored ones
    assert_eq!(snap.file_count(), 5);
    // visible: .gitignore itself, tracked-file1, tracked-file2
    assert_eq!(snap.visible_file_count(), 3);
}

#[test]
fn test_gitignore_removal_reclassifies() {
    let mut snap = Snapshot::new(0, p("tmp/root"), b"root/".to_vec());
    scan(
        &mut snap,
        &[
            (".gitignore", false, Some("hidden\n")),
            ("hidden", false, None),
        ],
    );
    assert_eq!(snap.entry_for_path(&p("hidden")).unwrap().is_ignored(), Some(true));
    // deleting the gitignore marks its rules changed; recomputation frees the file
    snap.apply_event(&p(".gitignore"), None);
    snap.recompute_ignore_statuses();
    assert_eq!(snap.entry_for_path(&p("hidden")).unwrap().is_ignored(), Some(false));
}

#[test]
fn test_is_path_ignored_errors() {
    let mut snap = Snapshot::new(0, p("tmp/root"), b"root/".to_vec());
    scan(&mut snap, &[("a", false, None)]);
    assert_eq!(snap.is_path_ignored(&p("missing")), Err(WorktreeError::NotFound));
    assert_eq!(snap.is_path_ignored(&p("a")), Ok(false));
}

#[test]
fn test_file_iter() {
    let mut snap = Snapshot::new(0, p("tmp/root"), b"root/".to_vec());
    scan(
        &mut snap,
        &[
            (".gitignore", false, Some("skipped\n")),
            ("a", false, None),
            ("dir", true, None),
            ("dir/b", false, None),
            ("skipped", false, None),
        ],
    );
    // files(0) yields every file in path order
    let mut it = snap.files(0);
    let mut seen = Vec::new();
    while let Some(e) = it.next(&snap) {
        seen.push(e.inode());
    }
    assert_eq!(seen.len(), 4);
    // visible_files(0) yields the sub-sequence that is not ignored
    let mut vis = snap.visible_files(0);
    let mut seen_vis = Vec::new();
    while let Some(e) = vis.next(&snap) {
        assert_eq!(e.is_ignored(), Some(false));
        seen_vis.push(e.inode());
    }
    assert_eq!(seen_vis.len(), 3);
    // and the visible ones appear in the same order within all files
    let mut i = 0;
    for ino in &seen {
        if i < seen_vis.len() && *ino == seen_vis[i] {
            i += 1;
        }
    }
    assert_eq!(i, seen_vis.len());
    // seeking by index skips ahead
    let it2 = snap.files(2);
    assert!(matches!(it2, FileIter::All(_)));
    assert!(it2.item(&snap).is_some());
    let it3 = snap.files(4);
    assert!(it3.item(&snap).is_none());
}

#[test]
fn test_event_convergence() {
    // apply events to a populated snapshot, then compare with a fresh scan
    let disk_after: &[(&str, bool, Option<&str>)] = &[
        ("a", true, None),
        ("a/f1", false, None),
        ("new", true, None),
        ("new/f3", false, None),
    ];
    let mut live = Snapshot::new(0, p("tmp/root"), b"root/".to_vec());
    scan(
        &mut live,
        &[("a", true, None), ("a/f1", false, None), ("old", true, None), ("old/f2", false, None)],
    );
    // the disk mutates: "old" subtree removed, "new" created
    live.apply_event(&p("old"), None);
    live.apply_event(&p("new"), Some(EventUpdate { info: info(4, true), ignore_rules: None }));
    live.scan_directory(&p("new"), vec![child("f3", 5, false, None)]);
    live.recompute_ignore_statuses();

    let mut fresh = Snapshot::new(1, p("tmp/root"), b"root/".to_vec());
    scan(&mut fresh, disk_after);
    let live_t = triples(&live);
    let fresh_t = triples(&fresh);
    assert_eq!(
        live_t.iter().map(|(s, _, i)| (s.clone(), *i)).collect::<Vec<_>>(),
        fresh_t.iter().map(|(s, _, i)| (s.clone(), *i)).collect::<Vec<_>>()
    );
}

#[test]
fn test_mount_filter() {
    // a child whose absolute path is a foreign mount point is refused
    let children = vec![child("kept", 2, true, None), child("vol", 3, true, None)];
    let mounts = vec![p("tmp/root/vol")];
    let filtered = worktree::scanner::filter_children(children, &mounts, &p("tmp/root"));
    assert_eq!(filtered.len(), 1);
    assert_eq!(filtered[0].name, b"kept".to_vec());
}

#[test]
fn test_char_bag() {
    let bag = worktree::char_bag::CharBag::empty().extend_path(&p("Ab1/c"));
    // 'a' (bit 0), 'b' (bit 1), '1' (bit 26+1), 'c' (bit 2); '/' contributes nothing
    assert_eq!(bag.0, (1 << 0) | (1 << 1) | (1 << 27) | (1 << 2));
}

#[test]
fn test_remove_path_subtree() {
    let mut snap = Snapshot::new(0, p("tmp/root"), b"root/".to_vec());
    scan(
        &mut snap,
        &[("a", true, None), ("a/b", true, None), ("a/b/c", false, None), ("ax", false, None)],
    );
    snap.remove_path(&p("a"));
    // exactly the subtree of "a" is gone; "ax" is not under "a"
    assert_eq!(paths_of(&snap), vec!["ax"]);
}

#[test]
fn test_inode_and_root() {
    let mut snap = Snapshot::new(0, p("tmp/root"), b"root/".to_vec());
    scan(&mut snap, &[("a", false, None)]);
    assert!(snap.inode_for_path(&p("a")).is_some());
    assert!(snap.inode_for_path(&p("zz")).is_none());
    let root = snap.root_entry().unwrap();
    assert!(root.is_dir());
    assert_eq!(snap.root_name().map(|n| n.clone()), Some(b"root".to_vec()));
    assert_eq!(path_eq(&p("x/y"), &p("x/y")), true);
}

#[test]
fn test_normalize_events() {
    let root = p("tmp/root");
    let events = vec![
        p("tmp/root/b/c/file2"),
        p("tmp/root/b/c"),
        p("elsewhere/x"),
        p("tmp/root/d"),
        p("tmp/root/b/c"),
    ];
    let r = worktree::scanner::normalize_events(&events, &root);
    let rs: Vec<String> = r
        .iter()
        .map(|tp| {
            tp.components
                .iter()
                .map(|c| String::from_utf8_lossy(c).into_owned())
                .collect::<Vec<_>>()
                .join("/")
        })
        .collect();
    // the descendant b/c/file2 is absorbed into b/c, the duplicate and the
    // event outside the root are dropped, and the result is sorted
    assert_eq!(rs, vec!["b/c", "d"]);
}

#[test]
fn test_other_mount_paths() {
    // "/" (no components) contains the root and is kept out of the refusal set
    let mounts = vec![p(""), p("proc"), p("tmp/root/vol")];
    let foreign = worktree::scanner::other_mount_paths(mounts, &p("tmp/root"));
    assert_eq!(foreign.len(), 2);
    assert!(path_eq(&foreign[0], &p("proc")));
    assert!(path_eq(&foreign[1], &p("tmp/root/vol")));
}

#[test]
fn test_begin_event_batch() {
    let mut snap = Snapshot::new(0, p("tmp/root"), b"root/".to_vec());
    scan(&mut snap, &[("a", false, None)]);
    let before = snap.scan_id;
    let paths_before = paths_of(&snap);
    snap.begin_event_batch();
    assert_eq!(snap.scan_id, before + 1);
    assert_eq!(paths_of(&snap), paths_before);
}
