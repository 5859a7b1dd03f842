//! The traversal worklist and the bundle sizer.
//!
//! The walker owns the pending-directory worklist of one scan. The caller
//! lists one directory at a time (the one operation the library cannot do
//! itself) and hands the listing back; consuming it classifies every entry,
//! feeds the aggregation engine, and extends the worklist with the
//! subdirectories, so each entry of the tree is visited exactly once.

use vstd::prelude::*;
use crate::engine::{AggregationEngine, ScanEvent};
use crate::report::{DirBasicInfo, DirView, EntryInfo, EntryView, FileView, dir_views,
    entry_views};

verus! {

/// Views of a worklist of paths.
pub open spec fn pending_views(s: Seq<String>) -> Seq<Seq<char>> {
    s.map_values(|p: String| p@)
}

/// The visit event of one entry: a directory visit, or a file visit with
/// the entry's snapshot.
pub open spec fn entry_event(e: EntryView) -> ScanEvent {
    if e.is_dir {
        ScanEvent::Directory
    } else {
        ScanEvent::File { info: FileView { name: e.name, size: e.size, path: e.rel_path } }
    }
}

/// The visit events of a whole listing, in listing order.
pub open spec fn listing_events(es: Seq<EntryView>) -> Seq<ScanEvent>
    decreases es.len(),
{
    if es.len() == 0 {
        Seq::empty()
    } else {
        listing_events(es.drop_last()).push(entry_event(es.last()))
    }
}

/// The traversal paths of the directories of a listing, in listing order.
pub open spec fn dir_paths(es: Seq<EntryView>) -> Seq<Seq<char>>
    decreases es.len(),
{
    if es.len() == 0 {
        Seq::empty()
    } else if es.last().is_dir {
        dir_paths(es.drop_last()).push(es.last().full_path)
    } else {
        dir_paths(es.drop_last())
    }
}

/// Number of directories in a listing.
pub open spec fn count_dir_entries(es: Seq<EntryView>) -> int
    decreases es.len(),
{
    if es.len() == 0 {
        0
    } else {
        count_dir_entries(es.drop_last()) + if es.last().is_dir {
            1int
        } else {
            0int
        }
    }
}

/// Number of files in a listing.
pub open spec fn count_file_entries(es: Seq<EntryView>) -> int
    decreases es.len(),
{
    if es.len() == 0 {
        0
    } else {
        count_file_entries(es.drop_last()) + if es.last().is_dir {
            0int
        } else {
            1int
        }
    }
}

/// Total size of the files in a listing.
pub open spec fn sum_entry_sizes(es: Seq<EntryView>) -> int
    decreases es.len(),
{
    if es.len() == 0 {
        0
    } else {
        sum_entry_sizes(es.drop_last()) + if es.last().is_dir {
            0int
        } else {
            es.last().size as int
        }
    }
}

/// A prefix of a listing never counts more than the whole of it.
pub proof fn lemma_entry_counts_monotone(es: Seq<EntryView>, i: int)
    requires
        0 <= i <= es.len(),
    ensures
        count_dir_entries(es.take(i)) <= count_dir_entries(es),
        count_file_entries(es.take(i)) <= count_file_entries(es),
        sum_entry_sizes(es.take(i)) <= sum_entry_sizes(es),
        count_dir_entries(es.take(i)) >= 0,
        count_file_entries(es.take(i)) >= 0,
        sum_entry_sizes(es.take(i)) >= 0,
    decreases es.len(),
{
    if i == es.len() {
        assert(es.take(i) =~= es);
        lemma_entry_counts_nonneg(es);
    } else {
        assert(es.drop_last().take(i) =~= es.take(i));
        lemma_entry_counts_monotone(es.drop_last(), i);
    }
}

pub proof fn lemma_entry_counts_nonneg(es: Seq<EntryView>)
    ensures
        count_dir_entries(es) >= 0,
        count_file_entries(es) >= 0,
        sum_entry_sizes(es) >= 0,
    decreases es.len(),
{
    if es.len() > 0 {
        lemma_entry_counts_nonneg(es.drop_last());
    }
}

/// The pending-directory worklist of one scan.
pub struct TreeWalker {
    pub pending: Vec<String>,
}

impl TreeWalker {
    /// A worklist seeded with the root, or empty when the root is not a
    /// directory.
    pub fn new(root: Option<String>) -> (w: TreeWalker)
        ensures
            root matches Some(p) ==> w.pending@ == seq![p],
            root is None ==> w.pending@ == Seq::<String>::empty(),
    {
        match root {
            Some(p) => {
                let mut pending: Vec<String> = Vec::new();
                pending.push(p);
                TreeWalker { pending }
            },
            None => TreeWalker { pending: Vec::new() },
        }
    }

    /// Takes the most recently added pending directory, if any is left.
    pub fn next_dir(&mut self) -> (r: Option<String>)
        ensures
            old(self).pending@.len() == 0 ==> r is None && final(self).pending@ == old(self).pending@,
            old(self).pending@.len() > 0 ==> r == Some(old(self).pending@.last()) && final(self).pending@ == old(self).pending@.drop_last(),
    {
        self.pending.pop()
    }
}

/// Consumes the listing of one directory: every subdirectory is counted
/// and queued for its own listing, every file is aggregated.
pub fn consume_listing(
    engine: &mut AggregationEngine,
    walker: &mut TreeWalker,
    entries: &Vec<EntryInfo>,
)
    requires
        old(engine).well_formed(),
        old(engine).directory_count + count_dir_entries(entry_views(entries@)) <= u32::MAX,
        old(engine).file_count + count_file_entries(entry_views(entries@)) <= u32::MAX,
        old(engine).total_file_size + sum_entry_sizes(entry_views(entries@)) <= u64::MAX,
    ensures
        final(engine).well_formed(),
        final(engine).history@ == old(engine).history@ + listing_events(entry_views(entries@)),
        pending_views(final(walker).pending@) == pending_views(old(walker).pending@) + dir_paths(
            entry_views(entries@),
        ),
{
    let ghost es = entry_views(entries@);
    let ghost h0 = old(engine).history@;
    let ghost p0 = pending_views(old(walker).pending@);
    proof {
        assert(es.take(0) =~= Seq::<EntryView>::empty());
        assert(h0 + listing_events(es.take(0)) =~= h0);
        assert(p0 + dir_paths(es.take(0)) =~= p0);
        lemma_entry_counts_nonneg(es);
    }
    let mut i: usize = 0;
    while i < entries.len()
        invariant
            0 <= i <= entries@.len(),
            es == entry_views(entries@),
            es.len() == entries@.len(),
            engine.well_formed(),
            engine.history@ == h0 + listing_events(es.take(i as int)),
            pending_views(walker.pending@) == p0 + dir_paths(es.take(i as int)),
            engine.directory_count == old(engine).directory_count + count_dir_entries(
                es.take(i as int),
            ),
            engine.file_count == old(engine).file_count + count_file_entries(es.take(i as int)),
            engine.total_file_size == old(engine).total_file_size + sum_entry_sizes(
                es.take(i as int),
            ),
            old(engine).directory_count + count_dir_entries(es) <= u32::MAX,
            old(engine).file_count + count_file_entries(es) <= u32::MAX,
            old(engine).total_file_size + sum_entry_sizes(es) <= u64::MAX,
        decreases entries@.len() - i,
    {
        proof {
            assert(es.take(i + 1).drop_last() =~= es.take(i as int));
            assert(es.take(i + 1).last() == es[i as int]);
            lemma_entry_counts_monotone(es, i + 1);
        }
        let e = &entries[i];
        let ghost pv0 = pending_views(walker.pending@);
        if e.is_dir {
            walker.pending.push(e.full_path.clone());
            engine.on_dir();
            proof {
                assert(es[i as int].is_dir);
                assert(dir_paths(es.take(i + 1)) =~= dir_paths(es.take(i as int)).push(
                    es[i as int].full_path,
                ));
                assert(pending_views(walker.pending@) =~= pv0.push(es[i as int].full_path));
                assert(pending_views(walker.pending@) =~= p0 + dir_paths(es.take(i + 1)));
                assert(engine.history@ =~= h0 + listing_events(es.take(i + 1)));
            }
        } else {
            engine.on_file(e.name.clone(), e.rel_path.clone(), e.size);
            proof {
                assert(pending_views(walker.pending@) =~= p0 + dir_paths(es.take(i + 1)));
                assert(engine.history@ =~= h0 + listing_events(es.take(i + 1)));
            }
        }
        i = i + 1;
    }
    proof {
        assert(es.take(es.len() as int) =~= es);
    }
}

/// A size-only reuse of the traversal: sums the on-disk sizes of every
/// file under one bundle subdirectory.
pub struct BundleSizer {
    pub pending: Vec<String>,
    pub total: u64,
}

impl BundleSizer {
    /// A sizer seeded with the bundle directory, or empty when the path is
    /// not a directory.
    pub fn new(root: Option<String>) -> (b: BundleSizer)
        ensures
            b.total == 0,
            root matches Some(p) ==> b.pending@ == seq![p],
            root is None ==> b.pending@ == Seq::<String>::empty(),
    {
        match root {
            Some(p) => {
                let mut pending: Vec<String> = Vec::new();
                pending.push(p);
                BundleSizer { pending, total: 0 }
            },
            None => BundleSizer { pending: Vec::new(), total: 0 },
        }
    }

    /// Takes the most recently added pending directory, if any is left.
    pub fn next_dir(&mut self) -> (r: Option<String>)
        ensures
            final(self).total == old(self).total,
            old(self).pending@.len() == 0 ==> r is None && final(self).pending@ == old(self).pending@,
            old(self).pending@.len() > 0 ==> r == Some(old(self).pending@.last()) && final(self).pending@ == old(self).pending@.drop_last(),
    {
        self.pending.pop()
    }

    /// Consumes the listing of one directory under the bundle: file sizes
    /// are added to the running total, subdirectories are queued.
    pub fn consume_listing(&mut self, entries: &Vec<EntryInfo>)
        requires
            old(self).total + sum_entry_sizes(entry_views(entries@)) <= u64::MAX,
        ensures
            final(self).total == old(self).total + sum_entry_sizes(entry_views(entries@)),
            pending_views(final(self).pending@) == pending_views(old(self).pending@) + dir_paths(
                entry_views(entries@),
            ),
    {
        let ghost es = entry_views(entries@);
        let ghost p0 = pending_views(old(self).pending@);
        proof {
            assert(es.take(0) =~= Seq::<EntryView>::empty());
            assert(p0 + dir_paths(es.take(0)) =~= p0);
            lemma_entry_counts_nonneg(es);
        }
        let mut i: usize = 0;
        while i < entries.len()
            invariant
                0 <= i <= entries@.len(),
                es == entry_views(entries@),
                es.len() == entries@.len(),
                self.total == old(self).total + sum_entry_sizes(es.take(i as int)),
                pending_views(self.pending@) == p0 + dir_paths(es.take(i as int)),
                old(self).total + sum_entry_sizes(es) <= u64::MAX,
            decreases entries@.len() - i,
        {
            proof {
                assert(es.take(i + 1).drop_last() =~= es.take(i as int));
                assert(es.take(i + 1).last() == es[i as int]);
                lemma_entry_counts_monotone(es, i + 1);
            }
            let e = &entries[i];
            let ghost pv0 = pending_views(self.pending@);
            if e.is_dir {
                self.pending.push(e.full_path.clone());
                proof {
                    assert(es[i as int].is_dir);
                    assert(dir_paths(es.take(i + 1)) =~= dir_paths(es.take(i as int)).push(
                        es[i as int].full_path,
                    ));
                    assert(pending_views(self.pending@) =~= pv0.push(es[i as int].full_path));
                    assert(pending_views(self.pending@) =~= p0 + dir_paths(es.take(i + 1)));
                }
            } else {
                self.total = self.total + e.size;
                proof {
                    assert(pending_views(self.pending@) =~= p0 + dir_paths(es.take(i + 1)));
                }
            }
            i = i + 1;
        }
        proof {
            assert(es.take(es.len() as int) =~= es);
        }
    }
}

/// The bundle items of a listing of a bundle subdirectory: one per
/// subdirectory, with its separately computed recursive size; entries that
/// are not directories are skipped.
pub open spec fn spec_bundle_items(cs: Seq<EntryView>, ss: Seq<u64>) -> Seq<DirView>
    decreases cs.len(),
{
    if cs.len() == 0 || ss.len() != cs.len() {
        Seq::empty()
    } else if cs.last().is_dir {
        spec_bundle_items(cs.drop_last(), ss.drop_last()).push(
            DirView { name: cs.last().name, size: ss.last(), path: cs.last().rel_path },
        )
    } else {
        spec_bundle_items(cs.drop_last(), ss.drop_last())
    }
}

/// Builds the bundle items of the direct children of one bundle
/// subdirectory; `sizes[i]` is the recursive size computed for
/// `children[i]`.
pub fn bundle_items(children: &Vec<EntryInfo>, sizes: &Vec<u64>) -> (items: Vec<DirBasicInfo>)
    requires
        children@.len() == sizes@.len(),
    ensures
        dir_views(items@) == spec_bundle_items(entry_views(children@), sizes@),
{
    let ghost cs = entry_views(children@);
    let ghost ss = sizes@;
    let mut items: Vec<DirBasicInfo> = Vec::new();
    proof {
        assert(cs.take(0) =~= Seq::<EntryView>::empty());
        assert(dir_views(items@) =~= spec_bundle_items(cs.take(0), ss.take(0)));
    }
    let mut i: usize = 0;
    while i < children.len()
        invariant
            0 <= i <= children@.len(),
            cs == entry_views(children@),
            ss == sizes@,
            cs.len() == children@.len(),
            ss.len() == cs.len(),
            dir_views(items@) == spec_bundle_items(cs.take(i as int), ss.take(i as int)),
        decreases children@.len() - i,
    {
        proof {
            assert(cs.take(i + 1).drop_last() =~= cs.take(i as int));
            assert(ss.take(i + 1).drop_last() =~= ss.take(i as int));
            assert(cs.take(i + 1).last() == cs[i as int]);
            assert(ss.take(i + 1).last() == ss[i as int]);
        }
        let c = &children[i];
        if c.is_dir {
            items.push(
                DirBasicInfo { name: c.name.clone(), size: sizes[i], path: c.rel_path.clone() },
            );
        }
        proof {
            assert(dir_views(items@) =~= spec_bundle_items(cs.take(i + 1), ss.take(i + 1)));
        }
        i = i + 1;
    }
    proof {
        assert(cs.take(cs.len() as int) =~= cs);
        assert(ss.take(ss.len() as int) =~= ss);
    }
    items
}

} // verus!
