//! Laws that tie the index's aggregates together, stated over any entry
//! sequence.

use crate::entry::{is_file, is_visible_file, EntryData};
use crate::index::{entry_at, files_of, has_path, visible_files_of};
use crate::paths::is_under;
use vstd::prelude::*;

verus! {

/// Extending an index by one entry raises the file count by one exactly for
/// a file entry, and the visible count by one exactly for a file classified
/// as not ignored.
pub proof fn lemma_summary_contribution(s: Seq<EntryData>, e: EntryData)
    ensures
        files_of(s.push(e)).len() == files_of(s).len() + (if is_file(e) {
            1int
        } else {
            0int
        }),
        visible_files_of(s.push(e)).len() == visible_files_of(s).len() + (if is_visible_file(e) {
            1int
        } else {
            0int
        }),
{
    s.lemma_filter_push(e, |x: EntryData| is_file(x));
    s.lemma_filter_push(e, |x: EntryData| is_visible_file(x));
}

/// The visible files are exactly the files classified as not ignored: the
/// same sub-sequence, in the same (path) order.
pub proof fn lemma_visible_subsequence(s: Seq<EntryData>)
    ensures
        visible_files_of(s) == files_of(s).filter(|e: EntryData| e.is_ignored == Some(false)),
    decreases s.len(),
{
    let fpred = |x: EntryData| is_file(x);
    let vpred = |x: EntryData| is_visible_file(x);
    let npred = |e: EntryData| e.is_ignored == Some(false);
    if s.len() == 0 {
        assert(s =~= Seq::<EntryData>::empty());
        assert(s.filter(vpred) =~= Seq::<EntryData>::empty()) by {
            s.lemma_filter_len(vpred);
        }
        assert(s.filter(fpred) =~= Seq::<EntryData>::empty()) by {
            s.lemma_filter_len(fpred);
        }
        assert(s.filter(fpred).filter(npred) =~= Seq::<EntryData>::empty()) by {
            s.filter(fpred).lemma_filter_len(npred);
        }
    } else {
        let t = s.drop_last();
        let e = s.last();
        lemma_visible_subsequence(t);
        assert(s =~= t.push(e));
        t.lemma_filter_push(e, fpred);
        t.lemma_filter_push(e, vpred);
        t.filter(fpred).lemma_filter_push(e, npred);
    }
}

/// The convergence kernel of event replay: applying one event rewrites the
/// whole subtree of its path as a function of the event alone — the removal
/// wipes everything below the path and the re-stat reinstates at most the
/// fresh entry. So two snapshots that processed the same event agree on that
/// subtree afterwards, however much they differed before; a batch of events
/// with pairwise disjoint subtrees converges each of those subtrees to the
/// same state a fresh scan of the changed paths produces.
pub proof fn lemma_event_agreement(
    old_a: Seq<EntryData>,
    new_a: Seq<EntryData>,
    old_b: Seq<EntryData>,
    new_b: Seq<EntryData>,
    p: Seq<Seq<u8>>,
    fresh: Option<EntryData>,
)
    requires
        forall|q: Seq<Seq<u8>>|
            #[trigger] has_path(new_a, q) <==> ((has_path(old_a, q) && !is_under(p, q)) || (
            fresh is Some && q == p)),
        fresh matches Some(e) ==> entry_at(new_a, p) == e,
        forall|q: Seq<Seq<u8>>|
            #[trigger] has_path(new_b, q) <==> ((has_path(old_b, q) && !is_under(p, q)) || (
            fresh is Some && q == p)),
        fresh matches Some(e) ==> entry_at(new_b, p) == e,
    ensures
        forall|q: Seq<Seq<u8>>|
            is_under(p, q) ==> (#[trigger] has_path(new_a, q) <==> has_path(new_b, q)),
        forall|q: Seq<Seq<u8>>|
            is_under(p, q) && #[trigger] has_path(new_a, q) ==> entry_at(new_a, q) == entry_at(
                new_b,
                q,
            ),
{
    assert forall|q: Seq<Seq<u8>>|
        is_under(p, q) implies (#[trigger] has_path(new_a, q) <==> has_path(new_b, q)) by {
        assert(has_path(new_a, q) <==> (fresh is Some && q == p));
        assert(has_path(new_b, q) <==> (fresh is Some && q == p));
    };
    assert forall|q: Seq<Seq<u8>>|
        is_under(p, q) && #[trigger] has_path(new_a, q) implies entry_at(new_a, q) == entry_at(
        new_b,
        q,
    ) by {
        assert(q == p);
    };
}

} // verus!
