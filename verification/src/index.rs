//! The ordered entry index: entries kept strictly sorted by path, with point
//! lookup, replacing insertion, whole-subtree removal, summary aggregation,
//! and indexed access along the file-count dimensions.

use crate::entry::{
    is_file, is_visible_file, Entry, EntryData, EntrySummary, SummaryData, summary_of,
    summary_combine,
};
use crate::paths::{
    is_under, lemma_path_lt_trans, lemma_path_order, path_cmp, path_lt, path_starts_with, wf_path,
    PathOrder, TreePath,
};
use vstd::prelude::*;
use vstd::seq_lib::group_seq_properties;

verus! {

broadcast use group_seq_properties;

/// Position along the "number of files seen" dimension of the index.
#[derive(Clone, Copy, Debug, PartialEq, Eq, Structural)]
pub struct FileCount(pub usize);

/// Position along the "number of visible files seen" dimension of the index.
#[derive(Clone, Copy, Debug, PartialEq, Eq, Structural)]
pub struct VisibleFileCount(pub usize);

/// Entries strictly increasing in path order.
pub open spec fn entries_sorted(s: Seq<EntryData>) -> bool {
    forall|i: int, j: int|
        0 <= i < j < s.len() ==> path_lt(#[trigger] s[i].path, #[trigger] s[j].path)
}

/// Every entry's path is well formed.
pub open spec fn entries_wf_paths(s: Seq<EntryData>) -> bool {
    forall|i: int| 0 <= i < s.len() ==> wf_path(#[trigger] s[i].path)
}

pub open spec fn index_wf(s: Seq<EntryData>) -> bool {
    entries_sorted(s) && entries_wf_paths(s)
}

/// Some entry carries the path `p`.
pub open spec fn has_path(s: Seq<EntryData>, p: Seq<Seq<u8>>) -> bool {
    exists|i: int| 0 <= i < s.len() && #[trigger] s[i].path == p
}

pub open spec fn idx_of(s: Seq<EntryData>, p: Seq<Seq<u8>>) -> int {
    choose|i: int| 0 <= i < s.len() && #[trigger] s[i].path == p
}

/// The entry carrying path `p`; meaningful when `has_path(s, p)` and the
/// index is sorted (paths are then unique).
pub open spec fn entry_at(s: Seq<EntryData>, p: Seq<Seq<u8>>) -> EntryData {
    s[idx_of(s, p)]
}

/// The subsequence of file entries, in path order.
pub open spec fn files_of(s: Seq<EntryData>) -> Seq<EntryData> {
    s.filter(|e: EntryData| is_file(e))
}

/// The subsequence of visible file entries, in path order.
pub open spec fn visible_files_of(s: Seq<EntryData>) -> Seq<EntryData> {
    s.filter(|e: EntryData| is_visible_file(e))
}

/// Whether any entry still awaits ignore classification.
pub open spec fn needs_recompute(s: Seq<EntryData>) -> bool {
    exists|i: int| 0 <= i < s.len() && (#[trigger] s[i].is_ignored) is None
}

pub open spec fn max_path_of(s: Seq<EntryData>) -> Seq<Seq<u8>> {
    if s.len() == 0 {
        Seq::empty()
    } else {
        s.last().path
    }
}

/// In a sorted index an entry is the unique carrier of its path, so
/// `idx_of`/`entry_at` land exactly on it.
pub proof fn lemma_at_index(s: Seq<EntryData>, i: int)
    requires
        entries_sorted(s),
        0 <= i < s.len(),
    ensures
        has_path(s, s[i].path),
        idx_of(s, s[i].path) == i,
        entry_at(s, s[i].path) == s[i],
{
    assert(has_path(s, s[i].path));
    let j = idx_of(s, s[i].path);
    if i != j {
        lemma_path_order(s[i].path, s[j].path);
        assert(false);
    }
}


/// Push with the pushed element's mathematical value exposed on the deep view.
fn push_entry(v: &mut Vec<Entry>, e: Entry)
    ensures
        final(v).deep_view() == old(v).deep_view().push(e@),
{
    let ghost pre = *v;
    let ghost ev = e@;
    v.push(e);
    proof {
        assert forall|k: int|
            0 <= k < v.deep_view().len() implies v.deep_view()[k] == pre.deep_view().push(
            ev,
        )[k] by {
            assert(v.deep_view()[k] == v@[k].deep_view());
            if k < pre@.len() {
                assert(v@[k] == pre@[k]);
                assert(pre.deep_view()[k] == pre@[k].deep_view());
            }
        };
        assert(v.deep_view() =~= pre.deep_view().push(ev));
    }
}

/// The entry index.
pub struct EntryIndex {
    pub entries: Vec<Entry>,
}

impl View for EntryIndex {
    type V = Seq<EntryData>;

    open spec fn view(&self) -> Seq<EntryData> {
        self.entries.deep_view()
    }
}

impl Clone for EntryIndex {
    fn clone(&self) -> (r: Self)
        ensures
            r@ == self@,
    {
        let mut entries: Vec<Entry> = Vec::new();
        let mut i: usize = 0;
        while i < self.entries.len()
            invariant
                i <= self.entries@.len(),
                entries.deep_view() == self@.subrange(0, i as int),
            decreases self.entries@.len() - i,
        {
            let c = self.entries[i].clone();
            proof {
                assert(c@ == self.entries@[i as int].deep_view());
                assert(self@.subrange(0, i as int + 1) =~= self@.subrange(0, i as int).push(
                    self@[i as int],
                ));
            }
            push_entry(&mut entries, c);
            i += 1;
        }
        proof {
            assert(self@.subrange(0, self@.len() as int) =~= self@);
        }
        EntryIndex { entries }
    }
}

impl EntryIndex {
    pub open spec fn wf(&self) -> bool {
        index_wf(self@)
    }

    pub fn new() -> (r: EntryIndex)
        ensures
            r@ =~= Seq::<EntryData>::empty(),
            r.wf(),
    {
        EntryIndex { entries: Vec::new() }
    }

    pub fn len(&self) -> (r: usize)
        ensures
            r == self@.len(),
    {
        self.entries.len()
    }

    /// The entry at position `i` of the path order.
    pub fn entry_at_index(&self, i: usize) -> (r: &Entry)
        requires
            i < self@.len(),
        ensures
            r@ == self@[i as int],
    {
        &self.entries[i]
    }

    /// The position of the entry carrying exactly the path `p`, if any.
    pub fn find_index(&self, p: &TreePath) -> (r: Option<usize>)
        ensures
            match r {
                Some(i) => i < self@.len() && self@[i as int].path == p@,
                None => !has_path(self@, p@),
            },
    {
        let mut j: usize = 0;
        while j < self.entries.len()
            invariant
                j <= self@.len(),
                forall|k: int| 0 <= k < j ==> (#[trigger] self@[k].path) != p@,
            decreases self@.len() - j,
        {
            if matches!(path_cmp(&self.entries[j].path, p), PathOrder::Equal) {
                return Some(j);
            }
            j += 1;
        }
        None
    }

    /// Point lookup by path.
    pub fn lookup(&self, p: &TreePath) -> (r: Option<&Entry>)
        requires
            self.wf(),
        ensures
            r is Some <==> has_path(self@, p@),
            match r {
                Some(e) => e@ == entry_at(self@, p@),
                None => true,
            },
    {
        match self.find_index(p) {
            Some(i) => {
                proof {
                    lemma_at_index(self@, i as int);
                }
                Some(&self.entries[i])
            },
            None => None,
        }
    }

    /// Insert `e`, replacing any entry already carrying its path.
    pub fn insert(&mut self, e: Entry)
        requires
            old(self).wf(),
            wf_path(e@.path),
        ensures
            final(self).wf(),
            final(self)@.len() <= old(self)@.len() + 1,
            forall|q: Seq<Seq<u8>>|
                #[trigger] has_path(final(self)@, q) <==> (has_path(old(self)@, q) || q
                    == e@.path),
            entry_at(final(self)@, e@.path) == e@,
            forall|q: Seq<Seq<u8>>|
                q != e@.path && #[trigger] has_path(old(self)@, q) ==> entry_at(final(self)@, q)
                    == entry_at(old(self)@, q),
    {
        let ghost s0 = self@;
        let ghost ev = e@;
        let n = self.entries.len();
        let mut out: Vec<Entry> = Vec::new();
        let mut i: usize = 0;
        while i < n && matches!(path_cmp(&self.entries[i].path, &e.path), PathOrder::Less)
            invariant
                i <= n == self@.len(),
                self@ == s0,
                e@ == ev,
                out.deep_view() == s0.subrange(0, i as int),
                forall|k: int| 0 <= k < i ==> path_lt((#[trigger] s0[k]).path, ev.path),
            decreases n - i,
        {
            let c = self.entries[i].clone();
            push_entry(&mut out, c);
            proof {
                assert(out.deep_view() =~= s0.subrange(0, i + 1 as int));
            }
            i += 1;
        }
        let ghost i0 = i as int;
        // skip an exact match, if present
        let mut i1 = i;
        if i < n && matches!(path_cmp(&self.entries[i].path, &e.path), PathOrder::Equal) {
            i1 = i + 1;
        }
        let ghost gi1 = i1 as int;
        push_entry(&mut out, e);
        proof {
            assert(s0.subrange(gi1, gi1) =~= Seq::<EntryData>::empty());
            assert(out.deep_view() =~= s0.subrange(0, i0).push(ev) + s0.subrange(gi1, gi1));
        }
        let mut j = i1;
        while j < n
            invariant
                0 <= gi1 <= j as int,
                j <= n,
                n == self@.len(),
                self@ == s0,
                out.deep_view() == s0.subrange(0, i0).push(ev) + s0.subrange(gi1, j as int),
            decreases n - j,
        {
            let c = self.entries[j].clone();
            proof {
                assert(c@ == self.entries@[j as int].deep_view());
                assert(c@ == s0[j as int]);
                assert(0 <= gi1 <= (j as int) < s0.len());
                assert(s0.subrange(gi1, j as int + 1) =~= s0.subrange(gi1, j as int).push(
                    s0[j as int],
                ));
            }
            push_entry(&mut out, c);
            proof {
                assert(out.deep_view() =~= s0.subrange(0, i0).push(ev) + s0.subrange(
                    gi1,
                    j as int + 1,
                ));
            }
            j += 1;
        }
        proof {
            // everything from gi1 on is strictly greater than the new path
            assert forall|k: int| gi1 <= k < s0.len() implies path_lt(
                ev.path,
                (#[trigger] s0[k]).path,
            ) by {
                lemma_path_order(s0[i0].path, ev.path);
                if gi1 == i0 {
                    if k > i0 {
                        lemma_path_lt_trans(ev.path, s0[i0].path, s0[k].path);
                    }
                } else {
                    if k > i0 {
                        assert(path_lt(s0[i0].path, s0[k].path));
                    }
                }
            };
            lemma_insert_shape(s0, ev, i0, gi1);
        }
        self.entries = out;
    }

    /// Remove the entry at `p` and every entry below it: exactly the subtree
    /// rooted at `p` disappears from the index.
    pub fn remove_subtree(&mut self, p: &TreePath)
        requires
            old(self).wf(),
        ensures
            final(self).wf(),
            final(self)@ == old(self)@.filter(|e: EntryData| !is_under(p@, e.path)),
            forall|q: Seq<Seq<u8>>|
                #[trigger] has_path(final(self)@, q) <==> (has_path(old(self)@, q) && !is_under(
                    p@,
                    q,
                )),
            forall|q: Seq<Seq<u8>>|
                #[trigger] has_path(final(self)@, q) ==> entry_at(final(self)@, q) == entry_at(
                    old(self)@,
                    q,
                ),
    {
        let ghost s0 = self@;
        let ghost pv = p@;
        let ghost pred = |e: EntryData| !is_under(pv, e.path);
        let n = self.entries.len();
        let mut out: Vec<Entry> = Vec::new();
        let mut i: usize = 0;
        while i < n
            invariant
                i <= n == self@.len(),
                self@ == s0,
                pv == p@,
                pred == (|e: EntryData| !is_under(pv, e.path)),
                out.deep_view() == s0.subrange(0, i as int).filter(pred),
            decreases n - i,
        {
            if !path_starts_with(&self.entries[i].path, p) {
                let c = self.entries[i].clone();
                push_entry(&mut out, c);
            }
            proof {
                assert(s0.subrange(0, i + 1 as int) =~= s0.subrange(0, i as int).push(
                    s0[i as int],
                ));
                s0.subrange(0, i as int).lemma_filter_push(s0[i as int], pred);
            }
            i += 1;
        }
        proof {
            assert(s0.subrange(0, s0.len() as int) =~= s0);
            lemma_filter_keeps_wf(s0, pred);
            let t = s0.filter(pred);
            assert forall|q: Seq<Seq<u8>>| #[trigger]
                has_path(t, q) implies (has_path(s0, q) && !is_under(pv, q) && entry_at(t, q)
                == entry_at(s0, q)) by {
                let i = idx_of(t, q);
                s0.lemma_filter_pred(pred, i);
                assert(t.contains(t[i]));
                s0.lemma_filter_contains_rev(pred, t[i]);
                let k = choose|k: int| 0 <= k < s0.len() && s0[k] == t[i];
                assert(s0[k].path == q);
                lemma_at_index(t, i);
                lemma_at_index(s0, k);
            };
            assert forall|q: Seq<Seq<u8>>|
                has_path(s0, q) && !is_under(pv, q) implies #[trigger] has_path(t, q) by {
                let k = idx_of(s0, q);
                s0.lemma_filter_contains(pred, k);
                let i = choose|i: int| 0 <= i < t.len() && t[i] == s0[k];
                assert(t[i].path == q);
            };
        }
        self.entries = out;
    }

    /// The aggregate summary of the whole index, folded left to right.
    pub fn summary(&self) -> (r: EntrySummary)
        ensures
            r@.file_count == files_of(self@).len(),
            r@.visible_file_count == visible_files_of(self@).len(),
            r@.recompute_ignore_status == needs_recompute(self@),
            r@.max_path == max_path_of(self@),
    {
        let ghost s = self@;
        let mut acc = EntrySummary::default();
        let mut i: usize = 0;
        proof {
            assert(s.subrange(0, 0).filter(|e: EntryData| is_file(e)) =~= Seq::<
                EntryData,
            >::empty());
            assert(s.subrange(0, 0).filter(|e: EntryData| is_visible_file(e)) =~= Seq::<
                EntryData,
            >::empty());
        }
        while i < self.entries.len()
            invariant
                i <= s.len() == self@.len(),
                self@ == s,
                acc@.file_count == files_of(s.subrange(0, i as int)).len(),
                acc@.visible_file_count == visible_files_of(s.subrange(0, i as int)).len(),
                acc@.recompute_ignore_status == needs_recompute(s.subrange(0, i as int)),
                acc@.max_path == max_path_of(s.subrange(0, i as int)),
                acc@.max_path.len() == 0 || i > 0,
                acc@.file_count <= i,
                acc@.visible_file_count <= i,
            decreases s.len() - i,
        {
            let es = self.entries[i].summary();
            proof {
                let pre = s.subrange(0, i as int);
                assert(s.subrange(0, i + 1 as int) =~= pre.push(s[i as int]));
                pre.lemma_filter_push(s[i as int], |e: EntryData| is_file(e));
                pre.lemma_filter_push(s[i as int], |e: EntryData| is_visible_file(e));
                pre.lemma_filter_len(|e: EntryData| is_file(e));
                pre.lemma_filter_len(|e: EntryData| is_visible_file(e));
                if needs_recompute(pre) {
                    let w = choose|k: int| 0 <= k < pre.len() && pre[k].is_ignored is None;
                    assert(s.subrange(0, i + 1 as int)[w].is_ignored is None);
                }
                if s[i as int].is_ignored is None {
                    assert(s.subrange(0, i + 1 as int)[i as int].is_ignored is None);
                }
                if needs_recompute(s.subrange(0, i + 1 as int)) {
                    let w = choose|k: int|
                        0 <= k < s.subrange(0, i + 1 as int).len() && (#[trigger] s.subrange(
                            0,
                            i + 1 as int,
                        )[k].is_ignored) is None;
                    if w < i {
                        assert(pre[w].is_ignored is None);
                    } else {
                        assert(s[i as int].is_ignored is None);
                    }
                }
            }
            acc.add_assign(&es);
            i += 1;
        }
        proof {
            assert(s.subrange(0, s.len() as int) =~= s);
        }
        acc
    }

    /// The `k`-th file entry of the index in path order, if there is one.
    pub fn file_at(&self, k: usize) -> (r: Option<&Entry>)
        ensures
            match r {
                Some(e) => k < files_of(self@).len() && e@ == files_of(self@)[k as int],
                None => k >= files_of(self@).len(),
            },
    {
        let ghost s = self@;
        let ghost pred = |e: EntryData| is_file(e);
        let mut c: usize = 0;
        let mut j: usize = 0;
        proof {
            assert(s.subrange(0, 0).filter(pred) =~= Seq::<EntryData>::empty());
        }
        while j < self.entries.len()
            invariant
                j <= s.len() == self@.len(),
                self@ == s,
                pred == (|e: EntryData| is_file(e)),
                c == s.subrange(0, j as int).filter(pred).len(),
                c <= k,
            decreases s.len() - j,
        {
            let ghost pre = s.subrange(0, j as int);
            proof {
                assert(s.subrange(0, j + 1 as int) =~= pre.push(s[j as int]));
                pre.lemma_filter_push(s[j as int], pred);
            }
            if self.entries[j].is_file_entry() {
                if c == k {
                    proof {
                        lemma_filter_split(s, j + 1 as int, pred);
                        assert(pre.push(s[j as int]).filter(pred)[k as int] == s[j as int]);
                    }
                    return Some(&self.entries[j]);
                }
                c += 1;
            }
            j += 1;
        }
        proof {
            assert(s.subrange(0, s.len() as int) =~= s);
        }
        None
    }

    /// The `k`-th visible file entry of the index in path order, if any.
    pub fn visible_file_at(&self, k: usize) -> (r: Option<&Entry>)
        ensures
            match r {
                Some(e) => k < visible_files_of(self@).len() && e@ == visible_files_of(
                    self@,
                )[k as int],
                None => k >= visible_files_of(self@).len(),
            },
    {
        let ghost s = self@;
        let ghost pred = |e: EntryData| is_visible_file(e);
        let mut c: usize = 0;
        let mut j: usize = 0;
        proof {
            assert(s.subrange(0, 0).filter(pred) =~= Seq::<EntryData>::empty());
        }
        while j < self.entries.len()
            invariant
                j <= s.len() == self@.len(),
                self@ == s,
                pred == (|e: EntryData| is_visible_file(e)),
                c == s.subrange(0, j as int).filter(pred).len(),
                c <= k,
            decreases s.len() - j,
        {
            let ghost pre = s.subrange(0, j as int);
            proof {
                assert(s.subrange(0, j + 1 as int) =~= pre.push(s[j as int]));
                pre.lemma_filter_push(s[j as int], pred);
            }
            let e = &self.entries[j];
            if e.is_file_entry() && matches!(e.is_ignored, Some(false)) {
                if c == k {
                    proof {
                        lemma_filter_split(s, j + 1 as int, pred);
                        assert(pre.push(s[j as int]).filter(pred)[k as int] == s[j as int]);
                    }
                    return Some(&self.entries[j]);
                }
                c += 1;
            }
            j += 1;
        }
        proof {
            assert(s.subrange(0, s.len() as int) =~= s);
        }
        None
    }
}

impl Entry {
    pub fn is_file_entry(&self) -> (r: bool)
        ensures
            r == is_file(self@),
    {
        matches!(self.kind, crate::entry::EntryKind::File(_))
    }
}

/// Splitting a sequence at `m` splits its filtered subsequence: the filter of
/// the prefix is a prefix of the whole filter.
pub proof fn lemma_filter_split(s: Seq<EntryData>, m: int, pred: spec_fn(EntryData) -> bool)
    requires
        0 <= m <= s.len(),
    ensures
        s.filter(pred) == s.subrange(0, m).filter(pred) + s.subrange(m, s.len() as int).filter(
            pred,
        ),
        forall|k: int|
            0 <= k < s.subrange(0, m).filter(pred).len() ==> #[trigger] s.filter(pred)[k]
                == s.subrange(0, m).filter(pred)[k],
{
    assert(s =~= s.subrange(0, m) + s.subrange(m, s.len() as int));
    Seq::filter_distributes_over_add(s.subrange(0, m), s.subrange(m, s.len() as int), pred);
}

/// Filtering keeps a sorted, well-formed index sorted and well formed.
pub proof fn lemma_filter_keeps_wf(s: Seq<EntryData>, pred: spec_fn(EntryData) -> bool)
    requires
        index_wf(s),
    ensures
        index_wf(s.filter(pred)),
    decreases s.len(),
{
    reveal(Seq::filter);
    if s.len() != 0 {
        let t = s.drop_last();
        assert(index_wf(t));
        lemma_filter_keeps_wf(t, pred);
        if pred(s.last()) {
            let f = t.filter(pred).push(s.last());
            assert forall|i: int, j: int| 0 <= i < j < f.len() implies path_lt(
                (#[trigger] f[i]).path,
                (#[trigger] f[j]).path,
            ) by {
                if j < f.len() - 1 {
                    assert(path_lt(t.filter(pred)[i].path, t.filter(pred)[j].path));
                } else {
                    assert(f[i] == t.filter(pred)[i]);
                    assert(t.filter(pred).contains(t.filter(pred)[i]));
                    t.lemma_filter_contains_rev(pred, t.filter(pred)[i]);
                    let k = choose|k: int| 0 <= k < t.len() && t[k] == f[i];
                    assert(t[k] == s[k]);
                    assert(path_lt(s[k].path, s.last().path));
                }
            };
            assert forall|i: int| 0 <= i < f.len() implies wf_path((#[trigger] f[i]).path) by {
                if i < f.len() - 1 {
                    assert(f[i] == t.filter(pred)[i]);
                    assert(t.filter(pred).contains(t.filter(pred)[i]));
                    t.lemma_filter_contains_rev(pred, t.filter(pred)[i]);
                    let k = choose|k: int| 0 <= k < t.len() && t[k] == f[i];
                    assert(t[k] == s[k]);
                    assert(wf_path(s[k].path));
                }
            };
        }
    }
}

/// The shape produced by a replacing insertion: a strictly smaller prefix,
/// the new entry, then a strictly greater suffix.
pub proof fn lemma_insert_shape(s0: Seq<EntryData>, e: EntryData, i0: int, i1: int)
    requires
        index_wf(s0),
        wf_path(e.path),
        0 <= i0 <= i1 <= s0.len(),
        i1 <= i0 + 1,
        forall|k: int| 0 <= k < i0 ==> path_lt((#[trigger] s0[k]).path, e.path),
        forall|k: int| i1 <= k < s0.len() ==> path_lt(e.path, (#[trigger] s0[k]).path),
        i1 == i0 + 1 ==> s0[i0].path == e.path,
    ensures
        ({
            let s2 = s0.subrange(0, i0).push(e) + s0.subrange(i1, s0.len() as int);
            &&& index_wf(s2)
            &&& s2.len() <= s0.len() + 1
            &&& forall|q: Seq<Seq<u8>>|
                #[trigger] has_path(s2, q) <==> (has_path(s0, q) || q == e.path)
            &&& entry_at(s2, e.path) == e
            &&& forall|q: Seq<Seq<u8>>|
                q != e.path && #[trigger] has_path(s0, q) ==> entry_at(s2, q) == entry_at(s0, q)
        }),
{
    let s2 = s0.subrange(0, i0).push(e) + s0.subrange(i1, s0.len() as int);
    assert forall|i: int, j: int| 0 <= i < j < s2.len() implies path_lt(
        (#[trigger] s2[i]).path,
        (#[trigger] s2[j]).path,
    ) by {
        if i < i0 && j < i0 {
            assert(s2[i] == s0[i] && s2[j] == s0[j]);
        } else if i < i0 && j == i0 {
            assert(s2[i] == s0[i] && s2[j] == e);
        } else if i < i0 && j > i0 {
            assert(s2[i] == s0[i] && s2[j] == s0[j - i0 - 1 + i1]);
            lemma_path_lt_trans(s0[i].path, e.path, s2[j].path);
        } else if i == i0 {
            assert(s2[i] == e && s2[j] == s0[j - i0 - 1 + i1]);
        } else {
            assert(s2[i] == s0[i - i0 - 1 + i1] && s2[j] == s0[j - i0 - 1 + i1]);
        }
    };
    assert forall|i: int| 0 <= i < s2.len() implies wf_path((#[trigger] s2[i]).path) by {
        if i < i0 {
            assert(s2[i] == s0[i]);
        } else if i > i0 {
            assert(s2[i] == s0[i - i0 - 1 + i1]);
        }
    };
    assert(s2[i0] == e);
    lemma_at_index(s2, i0);
    assert forall|q: Seq<Seq<u8>>| #[trigger]
        has_path(s2, q) implies (has_path(s0, q) || q == e.path) by {
        let i = idx_of(s2, q);
        if i < i0 {
            assert(s0[i].path == q);
        } else if i > i0 {
            assert(s0[i - i0 - 1 + i1].path == q);
        }
    };
    assert forall|q: Seq<Seq<u8>>| has_path(s0, q) implies #[trigger] has_path(s2, q) by {
        let k = idx_of(s0, q);
        if k < i0 {
            assert(s2[k].path == q);
        } else if k >= i1 {
            assert(s2[k + i0 + 1 - i1].path == q);
        } else {
            assert(s2[i0].path == q);
        }
    };
    assert forall|q: Seq<Seq<u8>>|
        q != e.path && #[trigger] has_path(s0, q) implies entry_at(s2, q) == entry_at(s0, q) by {
        let k = idx_of(s0, q);
        lemma_at_index(s0, k);
        if k < i0 {
            assert(s2[k] == s0[k]);
            lemma_at_index(s2, k);
        } else if k >= i1 {
            assert(s2[k + i0 + 1 - i1] == s0[k]);
            lemma_at_index(s2, k + i0 + 1 - i1);
        } else {
            assert(s0[i0].path == e.path);
        }
    };
}


impl EntryIndex {
    /// Settle the classification of the entry at position `i`; nothing else
    /// about the entry or the index changes.
    pub fn set_ignored_at(&mut self, i: usize, ignored: bool)
        requires
            old(self).wf(),
            i < old(self)@.len(),
        ensures
            final(self).wf(),
            final(self)@ == old(self)@.update(
                i as int,
                (EntryData { is_ignored: Some(ignored), ..old(self)@[i as int] }),
            ),
    {
        let ghost s0 = self@;
        let ghost nd = EntryData { is_ignored: Some(ignored), ..s0[i as int] };
        let mut e = self.entries[i].clone();
        e.set_ignored(ignored);
        self.entries.set(i, e);
        proof {
            assert forall|k: int|
                0 <= k < self@.len() implies self@[k] == s0.update(i as int, nd)[k] by {
                assert(self@[k] == self.entries@[k].deep_view());
                if k != i {
                    assert(self.entries@[k].deep_view() == s0[k]);
                }
            };
            assert(self@ =~= s0.update(i as int, nd));
            let s2 = s0.update(i as int, nd);
            assert forall|a: int, b: int| 0 <= a < b < s2.len() implies path_lt(
                (#[trigger] s2[a]).path,
                (#[trigger] s2[b]).path,
            ) by {
                assert(s2[a].path == s0[a].path);
                assert(s2[b].path == s0[b].path);
            };
            assert forall|a: int| 0 <= a < s2.len() implies wf_path((#[trigger] s2[a]).path) by {
                assert(s2[a].path == s0[a].path);
            };
        }
    }
}

} // verus!
