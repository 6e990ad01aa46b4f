//! The ignore map: for each directory that carries a gitignore file, the raw
//! rule bytes and the scan id at which they were last observed to change.
//! Consulting a ruleset goes through the `ignore` crate.

use crate::paths::{wf_path, path_eq, TreePath};
use vstd::pervasive::VecAdditionalExecFns;
use vstd::prelude::*;

verus! {

/// The outcome of consulting a gitignore ruleset for one path.
#[derive(Clone, Copy, Debug, PartialEq, Eq, Structural)]
pub enum RuleMatch {
    Whitelist,
    Ignore,
    NoRule,
}

/// What a gitignore ruleset decides for a relative path: a fixed function of
/// the raw rule bytes, the path's components, and whether it is a directory.
pub uninterp spec fn match_of(rules: Seq<u8>, rel: Seq<Seq<u8>>, is_dir: bool) -> RuleMatch;

/// Relies on `ignore::gitignore`: `GitignoreBuilder::add_line` parses each
/// line of the rule bytes (lines that fail to parse are dropped, exactly as
/// `Gitignore::new` keeps only the lines that parse), and
/// `Gitignore::matched_path_or_any_parents` decides the path against the
/// compiled set. The decision depends only on the rule bytes, the relative
/// path and the is-dir flag, so it is named by `match_of`.
#[verifier::external_body]
pub(crate) fn consult_rules(rules: &Vec<u8>, rel: &TreePath, is_dir: bool) -> (r: RuleMatch)
    requires
        rel@.len() > 0,
        wf_path(rel@),
    ensures
        r == match_of(rules@, rel@, is_dir),
{
    let mut builder = ignore::gitignore::GitignoreBuilder::new("");
    for line in String::from_utf8_lossy(rules).lines() {
        let _ = builder.add_line(None, line);
    }
    let compiled = match builder.build() {
        Ok(g) => g,
        Err(_) => ignore::gitignore::Gitignore::empty(),
    };
    let parts: Vec<String> =
        rel.components.iter().map(|c| String::from_utf8_lossy(c).into_owned()).collect();
    match compiled.matched_path_or_any_parents(std::path::Path::new(&parts.join("/")), is_dir) {
        ignore::Match::None => RuleMatch::NoRule,
        ignore::Match::Whitelist(_) => RuleMatch::Whitelist,
        ignore::Match::Ignore(_) => RuleMatch::Ignore,
    }
}

/// One registered gitignore: the directory that holds it, the raw bytes of
/// its rules, and the scan id at which the rules last changed.
pub struct IgnoreEntry {
    pub dir_path: TreePath,
    pub rules: Vec<u8>,
    pub scan_id: u64,
}

/// The mathematical value of an `IgnoreEntry`.
pub ghost struct IgnoreData {
    pub dir_path: Seq<Seq<u8>>,
    pub rules: Seq<u8>,
    pub scan_id: u64,
}

impl View for IgnoreEntry {
    type V = IgnoreData;

    open spec fn view(&self) -> IgnoreData {
        IgnoreData { dir_path: self.dir_path@, rules: self.rules@, scan_id: self.scan_id }
    }
}

impl DeepView for IgnoreEntry {
    type V = IgnoreData;

    open spec fn deep_view(&self) -> IgnoreData {
        self.view()
    }
}

impl Clone for IgnoreEntry {
    fn clone(&self) -> (r: Self)
        ensures
            r@ == self@,
    {
        IgnoreEntry {
            dir_path: self.dir_path.clone(),
            rules: crate::paths::copy_bytes(&self.rules),
            scan_id: self.scan_id,
        }
    }
}

/// No two items are keyed by the same directory.
pub open spec fn ig_unique(s: Seq<IgnoreData>) -> bool {
    forall|i: int, j: int|
        0 <= i < j < s.len() ==> (#[trigger] s[i].dir_path) != (#[trigger] s[j].dir_path)
}

pub open spec fn has_dir(s: Seq<IgnoreData>, p: Seq<Seq<u8>>) -> bool {
    exists|i: int| 0 <= i < s.len() && #[trigger] s[i].dir_path == p
}

pub open spec fn ig_idx_of(s: Seq<IgnoreData>, p: Seq<Seq<u8>>) -> int {
    choose|i: int| 0 <= i < s.len() && #[trigger] s[i].dir_path == p
}

/// The item keyed by `p`; meaningful when `has_dir(s, p)` and keys are unique.
pub open spec fn ig_at(s: Seq<IgnoreData>, p: Seq<Seq<u8>>) -> IgnoreData {
    s[ig_idx_of(s, p)]
}

/// With unique keys, an item is the unique carrier of its directory.
pub proof fn lemma_ig_at_index(s: Seq<IgnoreData>, i: int)
    requires
        ig_unique(s),
        0 <= i < s.len(),
    ensures
        has_dir(s, s[i].dir_path),
        ig_idx_of(s, s[i].dir_path) == i,
        ig_at(s, s[i].dir_path) == s[i],
{
    assert(has_dir(s, s[i].dir_path));
}

/// The ignore map of a snapshot.
pub struct IgnoreStore {
    pub items: Vec<IgnoreEntry>,
}

impl View for IgnoreStore {
    type V = Seq<IgnoreData>;

    open spec fn view(&self) -> Seq<IgnoreData> {
        self.items.deep_view()
    }
}

fn push_ig(v: &mut Vec<IgnoreEntry>, e: IgnoreEntry)
    ensures
        final(v).deep_view() == old(v).deep_view().push(e@),
{
    let ghost pre = *v;
    let ghost ev = e@;
    v.push(e);
    proof {
        assert forall|k: int|
            0 <= k < v.deep_view().len() implies v.deep_view()[k] == pre.deep_view().push(
            ev,
        )[k] by {
            assert(v.deep_view()[k] == v@[k].deep_view());
            if k < pre@.len() {
                assert(v@[k] == pre@[k]);
                assert(pre.deep_view()[k] == pre@[k].deep_view());
            }
        };
        assert(v.deep_view() =~= pre.deep_view().push(ev));
    }
}

impl Clone for IgnoreStore {
    fn clone(&self) -> (r: Self)
        ensures
            r@ == self@,
    {
        let mut items: Vec<IgnoreEntry> = Vec::new();
        let mut i: usize = 0;
        while i < self.items.len()
            invariant
                i <= self.items@.len(),
                items.deep_view() == self@.subrange(0, i as int),
            decreases self.items@.len() - i,
        {
            let c = self.items[i].clone();
            proof {
                assert(c@ == self.items@[i as int].deep_view());
                assert(self@.subrange(0, i as int + 1) =~= self@.subrange(0, i as int).push(
                    self@[i as int],
                ));
            }
            push_ig(&mut items, c);
            i += 1;
        }
        proof {
            assert(self@.subrange(0, self@.len() as int) =~= self@);
        }
        IgnoreStore { items }
    }
}

impl IgnoreStore {
    pub open spec fn wf(&self) -> bool {
        ig_unique(self@)
    }

    pub fn new() -> (r: IgnoreStore)
        ensures
            r@ =~= Seq::<IgnoreData>::empty(),
            r.wf(),
    {
        IgnoreStore { items: Vec::new() }
    }

    pub fn len(&self) -> (r: usize)
        ensures
            r == self@.len(),
    {
        self.items.len()
    }

    pub fn item_at(&self, i: usize) -> (r: &IgnoreEntry)
        requires
            i < self@.len(),
        ensures
            r@ == self@[i as int],
    {
        &self.items[i]
    }

    fn find_index(&self, dir: &TreePath) -> (r: Option<usize>)
        ensures
            match r {
                Some(i) => i < self@.len() && self@[i as int].dir_path == dir@,
                None => !has_dir(self@, dir@),
            },
    {
        let mut j: usize = 0;
        while j < self.items.len()
            invariant
                j <= self@.len(),
                forall|k: int| 0 <= k < j ==> (#[trigger] self@[k].dir_path) != dir@,
            decreases self@.len() - j,
        {
            if path_eq(&self.items[j].dir_path, dir) {
                return Some(j);
            }
            j += 1;
        }
        None
    }

    /// The registered rules for `dir`, if any.
    pub fn find(&self, dir: &TreePath) -> (r: Option<&IgnoreEntry>)
        requires
            self.wf(),
        ensures
            r is Some <==> has_dir(self@, dir@),
            match r {
                Some(e) => e@ == ig_at(self@, dir@),
                None => true,
            },
    {
        match self.find_index(dir) {
            Some(i) => {
                proof {
                    lemma_ig_at_index(self@, i as int);
                }
                Some(&self.items[i])
            },
            None => None,
        }
    }

    /// Register (or re-register) the rules held by `dir`.
    pub fn insert(&mut self, dir: TreePath, rules: Vec<u8>, scan_id: u64)
        requires
            old(self).wf(),
        ensures
            final(self).wf(),
            forall|q: Seq<Seq<u8>>|
                #[trigger] has_dir(final(self)@, q) <==> (has_dir(old(self)@, q) || q == dir@),
            ig_at(final(self)@, dir@) == (IgnoreData {
                dir_path: dir@,
                rules: rules@,
                scan_id: scan_id,
            }),
            forall|q: Seq<Seq<u8>>|
                q != dir@ && #[trigger] has_dir(old(self)@, q) ==> ig_at(final(self)@, q) == ig_at(
                    old(self)@,
                    q,
                ),
    {
        let ghost s0 = self@;
        let ghost nd = IgnoreData { dir_path: dir@, rules: rules@, scan_id: scan_id };
        let e = IgnoreEntry { dir_path: dir, rules, scan_id };
        match self.find_index(&e.dir_path) {
            Some(i) => {
                self.items.set(i, e);
                proof {
                    assert forall|k: int|
                        0 <= k < self@.len() implies self@[k] == s0.update(i as int, nd)[k] by {
                        assert(self@[k] == self.items@[k].deep_view());
                        if k != i {
                            assert(self.items@[k].deep_view() == s0[k]);
                        }
                    };
                    assert(self@ =~= s0.update(i as int, nd));
                    lemma_store_update(s0, i as int, nd);
                }
            },
            None => {
                push_ig(&mut self.items, e);
                proof {
                    lemma_store_push(s0, nd);
                }
            },
        }
    }

    /// Record that the rules of `dir` changed at `scan_id` (the gitignore file
    /// itself was removed or replaced), if `dir` is registered.
    pub fn set_scan_id(&mut self, dir: &TreePath, scan_id: u64)
        requires
            old(self).wf(),
        ensures
            final(self).wf(),
            forall|q: Seq<Seq<u8>>|
                #[trigger] has_dir(final(self)@, q) <==> has_dir(old(self)@, q),
            has_dir(old(self)@, dir@) ==> ig_at(final(self)@, dir@) == (IgnoreData {
                scan_id: scan_id,
                ..ig_at(old(self)@, dir@)
            }),
            forall|q: Seq<Seq<u8>>|
                q != dir@ && #[trigger] has_dir(old(self)@, q) ==> ig_at(final(self)@, q) == ig_at(
                    old(self)@,
                    q,
                ),
            !has_dir(old(self)@, dir@) ==> final(self)@ == old(self)@,
    {
        let ghost s0 = self@;
        match self.find_index(dir) {
            Some(i) => {
                proof {
                    lemma_ig_at_index(s0, i as int);
                }
                let old_entry = self.items[i].clone();
                let ghost nd = IgnoreData { scan_id: scan_id, ..s0[i as int] };
                let e = IgnoreEntry {
                    dir_path: old_entry.dir_path,
                    rules: old_entry.rules,
                    scan_id,
                };
                self.items.set(i, e);
                proof {
                    assert forall|k: int|
                        0 <= k < self@.len() implies self@[k] == s0.update(i as int, nd)[k] by {
                        assert(self@[k] == self.items@[k].deep_view());
                        if k != i {
                            assert(self.items@[k].deep_view() == s0[k]);
                        }
                    };
                    assert(self@ =~= s0.update(i as int, nd));
                    lemma_store_update(s0, i as int, nd);
                }
            },
            None => {},
        }
    }

    /// Drop the registration of `dir`, if present.
    pub fn remove(&mut self, dir: &TreePath)
        requires
            old(self).wf(),
        ensures
            final(self).wf(),
            forall|q: Seq<Seq<u8>>|
                #[trigger] has_dir(final(self)@, q) <==> (has_dir(old(self)@, q) && q != dir@),
            forall|q: Seq<Seq<u8>>|
                q != dir@ && #[trigger] has_dir(old(self)@, q) ==> ig_at(final(self)@, q) == ig_at(
                    old(self)@,
                    q,
                ),
    {
        let ghost s0 = self@;
        let ghost pred = |d: IgnoreData| d.dir_path != dir@;
        let n = self.items.len();
        let mut out: Vec<IgnoreEntry> = Vec::new();
        let mut i: usize = 0;
        proof {
            assert(s0.subrange(0, 0).filter(pred) =~= Seq::<IgnoreData>::empty());
        }
        while i < n
            invariant
                i <= n,
                n == self@.len(),
                self@ == s0,
                pred == (|d: IgnoreData| d.dir_path != dir@),
                dir@ == dir@,
                out.deep_view() == s0.subrange(0, i as int).filter(pred),
            decreases n - i,
        {
            let keep = !path_eq(&self.items[i].dir_path, dir);
            proof {
                assert(self.items@[i as int].deep_view() == s0[i as int]);
                assert(s0.subrange(0, i as int + 1) =~= s0.subrange(0, i as int).push(
                    s0[i as int],
                ));
                s0.subrange(0, i as int).lemma_filter_push(s0[i as int], pred);
            }
            if keep {
                let c = self.items[i].clone();
                push_ig(&mut out, c);
            }
            i += 1;
        }
        proof {
            assert(s0.subrange(0, s0.len() as int) =~= s0);
            let t = s0.filter(pred);
            lemma_remove_filter(s0, pred);
            assert forall|q: Seq<Seq<u8>>|
                q != dir@ && #[trigger] has_dir(s0, q) implies ig_at(t, q) == ig_at(s0, q) by {
                let k = ig_idx_of(s0, q);
                lemma_ig_at_index(s0, k);
                assert(pred(ig_at(s0, q)));
                assert(has_dir(t, q));
            };
        }
        self.items = out;
    }
}

/// Replacing the item at a key's index keeps keys unique and rewrites only
/// that key's item.
proof fn lemma_store_update(s0: Seq<IgnoreData>, i: int, nd: IgnoreData)
    requires
        ig_unique(s0),
        0 <= i < s0.len(),
        nd.dir_path == s0[i].dir_path,
    ensures
        ({
            let s2 = s0.update(i, nd);
            &&& ig_unique(s2)
            &&& forall|q: Seq<Seq<u8>>| #[trigger] has_dir(s2, q) <==> has_dir(s0, q)
            &&& ig_at(s2, nd.dir_path) == nd
            &&& forall|q: Seq<Seq<u8>>|
                q != nd.dir_path && #[trigger] has_dir(s0, q) ==> ig_at(s2, q) == ig_at(s0, q)
        }),
{
    let s2 = s0.update(i, nd);
    assert forall|q: Seq<Seq<u8>>| #[trigger] has_dir(s2, q) implies has_dir(s0, q) by {
        let k = ig_idx_of(s2, q);
        assert(s0[k].dir_path == q);
    };
    assert forall|q: Seq<Seq<u8>>| #[trigger] has_dir(s0, q) implies has_dir(s2, q) by {
        let k = ig_idx_of(s0, q);
        assert(s2[k].dir_path == q);
    };
    lemma_ig_at_index(s2, i);
    assert forall|q: Seq<Seq<u8>>|
        q != nd.dir_path && #[trigger] has_dir(s0, q) implies ig_at(s2, q) == ig_at(s0, q) by {
        let k = ig_idx_of(s0, q);
        lemma_ig_at_index(s0, k);
        assert(s2[k] == s0[k]);
        lemma_ig_at_index(s2, k);
    };
}

/// Appending a fresh key keeps keys unique and adds exactly that item.
proof fn lemma_store_push(s0: Seq<IgnoreData>, nd: IgnoreData)
    requires
        ig_unique(s0),
        !has_dir(s0, nd.dir_path),
    ensures
        ({
            let s2 = s0.push(nd);
            &&& ig_unique(s2)
            &&& forall|q: Seq<Seq<u8>>|
                #[trigger] has_dir(s2, q) <==> (has_dir(s0, q) || q == nd.dir_path)
            &&& ig_at(s2, nd.dir_path) == nd
            &&& forall|q: Seq<Seq<u8>>|
                q != nd.dir_path && #[trigger] has_dir(s0, q) ==> ig_at(s2, q) == ig_at(s0, q)
        }),
{
    let s2 = s0.push(nd);
    assert forall|i: int, j: int|
        0 <= i < j < s2.len() implies (#[trigger] s2[i].dir_path) != (
    #[trigger] s2[j].dir_path) by {
        if j == s2.len() - 1 {
            assert(s2[i] == s0[i]);
            if s0[i].dir_path == nd.dir_path {
                assert(has_dir(s0, nd.dir_path));
            }
        }
    };
    assert forall|q: Seq<Seq<u8>>| #[trigger]
        has_dir(s2, q) implies (has_dir(s0, q) || q == nd.dir_path) by {
        let k = ig_idx_of(s2, q);
        if k < s0.len() {
            assert(s0[k].dir_path == q);
        }
    };
    assert forall|q: Seq<Seq<u8>>| has_dir(s0, q) implies #[trigger] has_dir(s2, q) by {
        let k = ig_idx_of(s0, q);
        assert(s2[k].dir_path == q);
    };
    lemma_ig_at_index(s2, s2.len() - 1);
    assert forall|q: Seq<Seq<u8>>|
        q != nd.dir_path && #[trigger] has_dir(s0, q) implies ig_at(s2, q) == ig_at(s0, q) by {
        let k = ig_idx_of(s0, q);
        lemma_ig_at_index(s0, k);
        assert(s2[k] == s0[k]);
        lemma_ig_at_index(s2, k);
    };
}

/// What filtering one key out does to lookups.
proof fn lemma_remove_filter(s0: Seq<IgnoreData>, pred: spec_fn(IgnoreData) -> bool)
    requires
        ig_unique(s0),
    ensures
        ({
            let t = s0.filter(pred);
            &&& ig_unique(t)
            &&& forall|q: Seq<Seq<u8>>|
                #[trigger] has_dir(t, q) <==> (has_dir(s0, q) && pred(ig_at(s0, q)))
            &&& forall|q: Seq<Seq<u8>>|
                #[trigger] has_dir(t, q) ==> ig_at(t, q) == ig_at(s0, q)
        }),
{
    let t = s0.filter(pred);
    assert forall|i: int, j: int|
        0 <= i < j < t.len() implies (#[trigger] t[i].dir_path) != (#[trigger] t[j].dir_path) by {
        assert(t.contains(t[i]));
        assert(t.contains(t[j]));
        s0.lemma_filter_contains_rev(pred, t[i]);
        s0.lemma_filter_contains_rev(pred, t[j]);
        let ki = choose|k: int| 0 <= k < s0.len() && s0[k] == t[i];
        let kj = choose|k: int| 0 <= k < s0.len() && s0[k] == t[j];
        lemma_filter_distinct(s0, pred, i, j);
    };
    assert forall|q: Seq<Seq<u8>>| #[trigger]
        has_dir(t, q) implies (has_dir(s0, q) && pred(ig_at(s0, q)) && ig_at(t, q) == ig_at(
        s0,
        q,
    )) by {
        let i = ig_idx_of(t, q);
        s0.lemma_filter_pred(pred, i);
        assert(t.contains(t[i]));
        s0.lemma_filter_contains_rev(pred, t[i]);
        let k = choose|k: int| 0 <= k < s0.len() && s0[k] == t[i];
        assert(s0[k].dir_path == q);
        lemma_ig_at_index(s0, k);
        lemma_ig_at_index(t, i);
    };
    assert forall|q: Seq<Seq<u8>>|
        has_dir(s0, q) && pred(ig_at(s0, q)) implies #[trigger] has_dir(t, q) by {
        let k = ig_idx_of(s0, q);
        lemma_ig_at_index(s0, k);
        s0.lemma_filter_contains(pred, k);
        let i = choose|i: int| 0 <= i < t.len() && t[i] == s0[k];
        assert(t[i].dir_path == q);
    };
}

/// Distinct positions of the filtered sequence carry distinct keys.
proof fn lemma_filter_distinct(
    s0: Seq<IgnoreData>,
    pred: spec_fn(IgnoreData) -> bool,
    i: int,
    j: int,
)
    requires
        ig_unique(s0),
        0 <= i < j < s0.filter(pred).len(),
    ensures
        s0.filter(pred)[i].dir_path != s0.filter(pred)[j].dir_path,
    decreases s0.len(),
{
    reveal(Seq::filter);
    broadcast use vstd::seq_lib::group_seq_properties;

    if s0.len() > 0 {
        let t = s0.drop_last();
        let f = s0.filter(pred);
        assert(ig_unique(t)) by {
            assert forall|a: int, b: int|
                0 <= a < b < t.len() implies (#[trigger] t[a].dir_path) != (
            #[trigger] t[b].dir_path) by {
                assert(t[a] == s0[a] && t[b] == s0[b]);
            };
        }
        if pred(s0.last()) {
            if j < f.len() - 1 {
                lemma_filter_distinct(t, pred, i, j);
            } else {
                assert(f[i] == t.filter(pred)[i]);
                assert(t.filter(pred).contains(f[i]));
                t.lemma_filter_contains_rev(pred, f[i]);
                let k = choose|k: int| 0 <= k < t.len() && t[k] == f[i];
                assert(s0[k] == f[i]);
                assert(s0[s0.len() - 1] == f[j]);
            }
        } else {
            lemma_filter_distinct(t, pred, i, j);
        }
    }
}


impl IgnoreStore {
    /// Drop every registration whose directory, or the gitignore file inside
    /// it, is no longer indexed.
    pub fn gc(&mut self, entries: &crate::index::EntryIndex)
        requires
            old(self).wf(),
        ensures
            final(self).wf(),
            final(self)@ == old(self)@.filter(
                |d: IgnoreData|
                    crate::index::has_path(entries@, d.dir_path) && crate::index::has_path(
                        entries@,
                        d.dir_path.push(crate::snapshot::gitignore_name()),
                    ),
            ),
            forall|q: Seq<Seq<u8>>|
                #[trigger] has_dir(final(self)@, q) <==> (has_dir(old(self)@, q)
                    && crate::index::has_path(entries@, q) && crate::index::has_path(
                    entries@,
                    q.push(crate::snapshot::gitignore_name()),
                )),
            forall|q: Seq<Seq<u8>>|
                #[trigger] has_dir(final(self)@, q) ==> ig_at(final(self)@, q) == ig_at(
                    old(self)@,
                    q,
                ),
    {
        let ghost s0 = self@;
        let ghost pred = |d: IgnoreData|
            crate::index::has_path(entries@, d.dir_path) && crate::index::has_path(
                entries@,
                d.dir_path.push(crate::snapshot::gitignore_name()),
            );
        let gi = crate::snapshot::gitignore_vec();
        let n = self.items.len();
        let mut out: Vec<IgnoreEntry> = Vec::new();
        let mut i: usize = 0;
        proof {
            assert(s0.subrange(0, 0).filter(pred) =~= Seq::<IgnoreData>::empty());
        }
        while i < n
            invariant
                i <= n,
                n == self@.len(),
                self@ == s0,
                gi@ == crate::snapshot::gitignore_name(),
                pred == (|d: IgnoreData|
                    crate::index::has_path(entries@, d.dir_path) && crate::index::has_path(
                        entries@,
                        d.dir_path.push(crate::snapshot::gitignore_name()),
                    )),
                out.deep_view() == s0.subrange(0, i as int).filter(pred),
            decreases n - i,
        {
            let item = &self.items[i];
            let gi_path = item.dir_path.child(crate::paths::copy_bytes(&gi));
            let dir_present = match entries.find_index(&item.dir_path) {
                Some(j) => {
                    proof {
                        assert(crate::index::has_path(entries@, item.dir_path@));
                    }
                    true
                },
                None => false,
            };
            let gi_present = match entries.find_index(&gi_path) {
                Some(j) => {
                    proof {
                        assert(crate::index::has_path(entries@, gi_path@));
                    }
                    true
                },
                None => false,
            };
            proof {
                assert(self.items@[i as int].deep_view() == s0[i as int]);
                assert(item@ == s0[i as int]);
                assert(gi_path@ == s0[i as int].dir_path.push(crate::snapshot::gitignore_name()));
                assert(s0.subrange(0, i as int + 1) =~= s0.subrange(0, i as int).push(
                    s0[i as int],
                ));
                s0.subrange(0, i as int).lemma_filter_push(s0[i as int], pred);
            }
            if dir_present && gi_present {
                let c = self.items[i].clone();
                push_ig(&mut out, c);
            }
            i += 1;
        }
        proof {
            assert(s0.subrange(0, s0.len() as int) =~= s0);
            lemma_remove_filter(s0, pred);
            assert forall|q: Seq<Seq<u8>>|
                has_dir(s0, q) && crate::index::has_path(entries@, q) && crate::index::has_path(
                    entries@,
                    q.push(crate::snapshot::gitignore_name()),
                ) implies #[trigger] has_dir(s0.filter(pred), q) by {
                let k = ig_idx_of(s0, q);
                lemma_ig_at_index(s0, k);
                assert(pred(ig_at(s0, q)));
            };
            assert forall|q: Seq<Seq<u8>>| #[trigger]
                has_dir(s0.filter(pred), q) implies (has_dir(s0, q) && crate::index::has_path(
                entries@,
                q,
            ) && crate::index::has_path(
                entries@,
                q.push(crate::snapshot::gitignore_name()),
            )) by {
                let k = ig_idx_of(s0, q);
                lemma_ig_at_index(s0, k);
                assert(pred(ig_at(s0, q)));
            };
        }
        self.items = out;
    }
}

} // verus!
