//! The aggregation engine: consumes one visit event per filesystem entry
//! and finalizes the running aggregates into a `SummaryReport`.
//!
//! The engine's whole behaviour is pinned to the ghost history of events it
//! has consumed: every aggregate is stated as a recursive function of that
//! history, so a finished report is determined by the visited entries alone.

use vstd::prelude::*;
use vstd::math::min;
use vstd::seq_lib::group_to_multiset_ensures;
use crate::extension::{extension_of, spec_extension_of};
use crate::report::{DirBasicInfo, FileBasicInfo, FileExtensionSummary, FileView, SummaryReport,
    SummaryView, dir_views, file_views, summary_views};
use crate::sorting::{files_sorted, sort_files, sort_summaries, summaries_sorted};

verus! {

/// One traversal visit: a directory, or a file with its snapshot.
pub ghost enum ScanEvent {
    Directory,
    File { info: FileView },
}

/// Number of directory visits in a history.
pub open spec fn count_dirs(h: Seq<ScanEvent>) -> int
    decreases h.len(),
{
    if h.len() == 0 {
        0
    } else {
        count_dirs(h.drop_last()) + if h.last() is Directory {
            1int
        } else {
            0int
        }
    }
}

/// The file snapshots of a history, in visit order.
pub open spec fn events_files(h: Seq<ScanEvent>) -> Seq<FileView>
    decreases h.len(),
{
    if h.len() == 0 {
        Seq::empty()
    } else {
        match h.last() {
            ScanEvent::Directory => events_files(h.drop_last()),
            ScanEvent::File { info } => events_files(h.drop_last()).push(info),
        }
    }
}

/// Total size of a sequence of file snapshots.
pub open spec fn sum_sizes(fs: Seq<FileView>) -> int
    decreases fs.len(),
{
    if fs.len() == 0 {
        0
    } else {
        sum_sizes(fs.drop_last()) + fs.last().size
    }
}

/// How many of the files carry extension `e`.
pub open spec fn count_ext(fs: Seq<FileView>, e: Seq<char>) -> int
    decreases fs.len(),
{
    if fs.len() == 0 {
        0
    } else {
        count_ext(fs.drop_last(), e) + if spec_extension_of(fs.last().name) == e {
            1int
        } else {
            0int
        }
    }
}

/// Total size of the files carrying extension `e`.
pub open spec fn size_ext(fs: Seq<FileView>, e: Seq<char>) -> int
    decreases fs.len(),
{
    if fs.len() == 0 {
        0
    } else {
        size_ext(fs.drop_last(), e) + if spec_extension_of(fs.last().name) == e {
            fs.last().size as int
        } else {
            0int
        }
    }
}

/// The files without an extension, in visit order.
pub open spec fn extless(fs: Seq<FileView>) -> Seq<FileView>
    decreases fs.len(),
{
    if fs.len() == 0 {
        Seq::empty()
    } else if spec_extension_of(fs.last().name).len() == 0 {
        extless(fs.drop_last()).push(fs.last())
    } else {
        extless(fs.drop_last())
    }
}

/// Some summary in `sv` is keyed by extension `e`.
pub open spec fn has_summary_for(sv: Seq<SummaryView>, e: Seq<char>) -> bool {
    exists|j: int| 0 <= j < sv.len() && (#[trigger] sv[j]).extension == e
}

/// The summaries in `sv` describe the files `fs` exactly: counts and sizes
/// per extension, one summary per extension, one extension per file.
pub open spec fn summaries_describe(sv: Seq<SummaryView>, fs: Seq<FileView>) -> bool {
    &&& forall|j: int|
        0 <= j < sv.len() ==> {
            &&& (#[trigger] sv[j]).count == count_ext(fs, sv[j].extension)
            &&& sv[j].total_size == size_ext(fs, sv[j].extension)
            &&& sv[j].count > 0
        }
    &&& forall|j: int, k: int|
        0 <= j < k < sv.len() ==> (#[trigger] sv[j]).extension != (#[trigger] sv[k]).extension
    &&& forall|i: int|
        0 <= i < fs.len() ==> has_summary_for(sv, spec_extension_of((#[trigger] fs[i]).name))
}

/// An extension that no file carries aggregates no size.
pub proof fn lemma_size_ext_zero(fs: Seq<FileView>, e: Seq<char>)
    requires
        count_ext(fs, e) == 0,
    ensures
        size_ext(fs, e) == 0,
    decreases fs.len(),
{
    if fs.len() > 0 {
        lemma_ext_bounds(fs.drop_last(), e);
        lemma_size_ext_zero(fs.drop_last(), e);
    }
}

/// A positive per-extension count names a file carrying that extension.
pub proof fn lemma_count_ext_witness(fs: Seq<FileView>, e: Seq<char>)
    requires
        count_ext(fs, e) > 0,
    ensures
        exists|i: int| 0 <= i < fs.len() && spec_extension_of((#[trigger] fs[i]).name) == e,
    decreases fs.len(),
{
    if fs.len() > 0 {
        if spec_extension_of(fs.last().name) == e {
            assert(spec_extension_of(fs[fs.len() - 1].name) == e);
        } else {
            lemma_count_ext_witness(fs.drop_last(), e);
            let i = choose|i: int|
                0 <= i < fs.drop_last().len() && spec_extension_of(
                    (#[trigger] fs.drop_last()[i]).name,
                ) == e;
            assert(spec_extension_of(fs[i].name) == e);
        }
    }
}

/// Every visit is a file or a directory, so the two counts split the
/// history.
pub proof fn lemma_events_partition(h: Seq<ScanEvent>)
    ensures
        events_files(h).len() + count_dirs(h) == h.len(),
        count_dirs(h) >= 0,
    decreases h.len(),
{
    if h.len() > 0 {
        lemma_events_partition(h.drop_last());
    }
}

/// Per-extension aggregates never exceed the whole-scan aggregates.
pub proof fn lemma_ext_bounds(fs: Seq<FileView>, e: Seq<char>)
    ensures
        0 <= count_ext(fs, e) <= fs.len(),
        0 <= size_ext(fs, e) <= sum_sizes(fs),
        sum_sizes(fs) >= 0,
    decreases fs.len(),
{
    if fs.len() > 0 {
        lemma_ext_bounds(fs.drop_last(), e);
    }
}

/// What the report of one scan must hold, as a function of the event
/// history and the two bundle listings alone.
pub open spec fn report_matches(
    r: SummaryReport,
    h: Seq<ScanEvent>,
    fw: Seq<crate::report::DirView>,
    pl: Seq<crate::report::DirView>,
) -> bool {
    let fs = events_files(h);
    let sv = summary_views(r.file_extensions_summary@);
    let tv = file_views(r.files_top_large@);
    &&& r.directory_count == count_dirs(h)
    &&& r.file_count == fs.len()
    &&& r.total_file_size == sum_sizes(fs)
    &&& summaries_describe(sv, fs)
    &&& summaries_sorted(sv)
    &&& file_views(r.files_without_extensions@) == extless(fs)
    &&& tv.len() == min(10, fs.len() as int)
    &&& files_sorted(tv)
    &&& exists|full: Seq<FileView>|
        {
            &&& (#[trigger] full.to_multiset()) == fs.to_multiset()
            &&& files_sorted(full)
            &&& tv == full.take(min(10, fs.len() as int))
        }
    &&& dir_views(r.frameworks_items@) == fw
    &&& dir_views(r.plugins_items@) == pl
}

/// Running aggregates of one scan in progress.
pub struct AggregationEngine {
    pub directory_count: u32,
    pub file_count: u32,
    pub total_file_size: u64,
    pub ext_summaries: Vec<FileExtensionSummary>,
    pub extensionless_files: Vec<FileBasicInfo>,
    pub candidates: Vec<FileBasicInfo>,
    pub history: Ghost<Seq<ScanEvent>>,
}

/// Index of the summary keyed by `ext`, if one exists.
fn find_summary(v: &Vec<FileExtensionSummary>, ext: &String) -> (r: Option<usize>)
    ensures
        match r {
            Some(i) => i < v@.len() && summary_views(v@)[i as int].extension == ext@,
            None => forall|k: int|
                0 <= k < v@.len() ==> (#[trigger] summary_views(v@)[k]).extension != ext@,
        },
{
    let mut i: usize = 0;
    while i < v.len()
        invariant
            0 <= i <= v@.len(),
            forall|k: int| 0 <= k < i ==> (#[trigger] summary_views(v@)[k]).extension != ext@,
        decreases v@.len() - i,
    {
        if v[i].extension == *ext {
            return Some(i);
        }
        i = i + 1;
    }
    None
}

impl AggregationEngine {
    /// The engine is exactly the aggregation of its history.
    pub open spec fn well_formed(self) -> bool {
        let fs = events_files(self.history@);
        &&& self.file_count == fs.len()
        &&& self.directory_count == count_dirs(self.history@)
        &&& self.total_file_size == sum_sizes(fs)
        &&& file_views(self.candidates@) == fs
        &&& file_views(self.extensionless_files@) == extless(fs)
        &&& summaries_describe(summary_views(self.ext_summaries@), fs)
    }

    /// A fresh engine with nothing aggregated.
    pub fn new() -> (e: AggregationEngine)
        ensures
            e.well_formed(),
            e.history@ == Seq::<ScanEvent>::empty(),
    {
        let e = AggregationEngine {
            directory_count: 0,
            file_count: 0,
            total_file_size: 0,
            ext_summaries: Vec::new(),
            extensionless_files: Vec::new(),
            candidates: Vec::new(),
            history: Ghost(Seq::empty()),
        };
        proof {
            assert(file_views(e.candidates@) =~= events_files(e.history@));
            assert(file_views(e.extensionless_files@) =~= extless(events_files(e.history@)));
            assert(summary_views(e.ext_summaries@).len() == 0);
        }
        e
    }

    /// Records one directory visit.
    pub fn on_dir(&mut self)
        requires
            old(self).well_formed(),
            old(self).directory_count < u32::MAX,
        ensures
            final(self).well_formed(),
            final(self).history@ == old(self).history@.push(ScanEvent::Directory),
            final(self).directory_count == old(self).directory_count + 1,
            final(self).file_count == old(self).file_count,
            final(self).total_file_size == old(self).total_file_size,
    {
        let ghost h1 = self.history@.push(ScanEvent::Directory);
        self.directory_count = self.directory_count + 1;
        self.history = Ghost(h1);
        proof {
            assert(h1.drop_last() =~= old(self).history@);
        }
    }

    /// Records one file visit: its name, its path relative to the scan
    /// root, and its on-disk size.
    pub fn on_file(&mut self, name: String, rel_path: String, size: u64)
        requires
            old(self).well_formed(),
            old(self).file_count < u32::MAX,
            old(self).total_file_size + size <= u64::MAX,
        ensures
            final(self).well_formed(),
            final(self).history@ == old(self).history@.push(
                ScanEvent::File { info: FileView { name: name@, size: size, path: rel_path@ } },
            ),
            final(self).directory_count == old(self).directory_count,
            final(self).file_count == old(self).file_count + 1,
            final(self).total_file_size == old(self).total_file_size + size,
    {
        let ghost fv = FileView { name: name@, size: size, path: rel_path@ };
        let ghost h0 = self.history@;
        let ghost h1 = h0.push(ScanEvent::File { info: fv });
        let ghost fs0 = events_files(h0);
        let ghost fs1 = fs0.push(fv);
        let ghost sv0 = summary_views(self.ext_summaries@);

        let ext = extension_of(name.as_str());
        let ghost eview = ext@;
        proof {
            assert(h1.drop_last() =~= h0);
            assert(events_files(h1) == fs1);
            assert(fs1.drop_last() =~= fs0);
            lemma_ext_bounds(fs0, ext@);
        }

        self.file_count = self.file_count + 1;
        self.total_file_size = self.total_file_size + size;

        let no_ext = ext.as_str().is_empty();
        match find_summary(&self.ext_summaries, &ext) {
            Some(i) => {
                let c = self.ext_summaries[i].count;
                let t = self.ext_summaries[i].total_size;
                proof {
                    assert(sv0[i as int].count == count_ext(fs0, sv0[i as int].extension));
                    lemma_ext_bounds(fs0, sv0[i as int].extension);
                }
                let updated = FileExtensionSummary {
                    extension: ext,
                    count: c + 1,
                    total_size: t + size,
                };
                self.ext_summaries[i] = updated;
                proof {
                    let sv1 = summary_views(self.ext_summaries@);
                    let uv = SummaryView {
                        extension: eview,
                        count: (c + 1) as u32,
                        total_size: (t + size) as u64,
                    };
                    assert(sv1 =~= sv0.update(i as int, uv));
                    assert forall|j: int| 0 <= j < sv1.len() implies {
                        &&& (#[trigger] sv1[j]).count == count_ext(fs1, sv1[j].extension)
                        &&& sv1[j].total_size == size_ext(fs1, sv1[j].extension)
                        &&& sv1[j].count > 0
                    } by {
                        if j == i as int {
                            assert(sv1[j].extension == eview);
                            assert(count_ext(fs1, eview) == count_ext(fs0, eview) + 1);
                            assert(size_ext(fs1, eview) == size_ext(fs0, eview) + size);
                        } else {
                            assert(sv1[j] == sv0[j]);
                            assert(sv0[j].count == count_ext(fs0, sv0[j].extension));
                            if j < i as int {
                                assert(sv0[j].extension != sv0[i as int].extension);
                            } else {
                                assert(sv0[i as int].extension != sv0[j].extension);
                            }
                            assert(count_ext(fs1, sv0[j].extension) == count_ext(
                                fs0,
                                sv0[j].extension,
                            ));
                        }
                    }
                    assert forall|j: int, k: int| 0 <= j < k < sv1.len() implies (
                    #[trigger] sv1[j]).extension != (#[trigger] sv1[k]).extension by {
                        assert(sv0[j].extension != sv0[k].extension);
                        assert(sv1[j].extension == sv0[j].extension);
                        assert(sv1[k].extension == sv0[k].extension);
                    }
                    assert(has_summary_for(sv1, eview)) by {
                        assert(sv1[i as int].extension == eview);
                    }
                    assert forall|j: int| 0 <= j < sv1.len() implies (#[trigger] sv1[j]).extension
                        == sv0[j].extension by {}
                }
            },
            None => {
                proof {
                    if count_ext(fs0, eview) > 0 {
                        lemma_count_ext_witness(fs0, eview);
                        let w = choose|w: int|
                            0 <= w < fs0.len() && spec_extension_of((#[trigger] fs0[w]).name)
                                == eview;
                        assert(has_summary_for(sv0, eview));
                        let j = choose|j: int|
                            0 <= j < sv0.len() && (#[trigger] sv0[j]).extension == eview;
                    }
                    assert(count_ext(fs0, eview) == 0);
                    if size_ext(fs0, eview) != 0 {
                        lemma_size_ext_zero(fs0, eview);
                    }
                }
                self.ext_summaries.push(
                    FileExtensionSummary { extension: ext, count: 1, total_size: size },
                );
                proof {
                    let sv1 = summary_views(self.ext_summaries@);
                    let uv = SummaryView { extension: eview, count: 1u32, total_size: size };
                    assert(sv1 =~= sv0.push(uv));
                    assert forall|j: int| 0 <= j < sv1.len() implies {
                        &&& (#[trigger] sv1[j]).count == count_ext(fs1, sv1[j].extension)
                        &&& sv1[j].total_size == size_ext(fs1, sv1[j].extension)
                        &&& sv1[j].count > 0
                    } by {
                        if j == sv0.len() as int {
                            assert(sv1[j].extension == eview);
                            assert(count_ext(fs1, eview) == count_ext(fs0, eview) + 1);
                            assert(size_ext(fs1, eview) == size_ext(fs0, eview) + size);
                        } else {
                            assert(sv1[j] == sv0[j]);
                            assert(sv0[j].count == count_ext(fs0, sv0[j].extension));
                            assert(sv0[j].extension != eview);
                            assert(count_ext(fs1, sv0[j].extension) == count_ext(
                                fs0,
                                sv0[j].extension,
                            ));
                        }
                    }
                    assert forall|j: int, k: int| 0 <= j < k < sv1.len() implies (
                    #[trigger] sv1[j]).extension != (#[trigger] sv1[k]).extension by {
                        if k < sv0.len() as int {
                            assert(sv0[j].extension != sv0[k].extension);
                        } else {
                            assert(sv0[j].extension != eview);
                        }
                    }
                    assert(has_summary_for(sv1, eview)) by {
                        assert(sv1[sv0.len() as int].extension == eview);
                    }
                    assert forall|j: int| 0 <= j < sv0.len() implies (#[trigger] sv1[j]).extension
                        == sv0[j].extension by {}
                }
            },
        }
        let ghost sv1 = summary_views(self.ext_summaries@);

        if no_ext {
            self.extensionless_files.push(
                FileBasicInfo { name: name.clone(), size: size, path: rel_path.clone() },
            );
        }
        self.candidates.push(FileBasicInfo { name: name, size: size, path: rel_path });
        self.history = Ghost(h1);

        proof {
            assert(file_views(self.candidates@) =~= fs1);
            assert(file_views(self.extensionless_files@) =~= extless(fs1));
            assert forall|i: int| 0 <= i < fs1.len() implies has_summary_for(
                sv1,
                spec_extension_of((#[trigger] fs1[i]).name),
            ) by {
                if i < fs0.len() {
                    assert(fs1[i] == fs0[i]);
                    assert(has_summary_for(sv0, spec_extension_of(fs0[i].name)));
                    let j = choose|j: int|
                        0 <= j < sv0.len() && (#[trigger] sv0[j]).extension == spec_extension_of(
                            fs0[i].name,
                        );
                    assert(sv1[j].extension == spec_extension_of(fs1[i].name));
                } else {
                    assert(fs1[i] == fv);
                    assert(spec_extension_of(fs1[i].name) == eview);
                }
            }
        }
    }

    /// Sorts and truncates the aggregates and seals them, with the two
    /// bundle listings, into the final report.
    pub fn finalize(
        self,
        frameworks_items: Vec<DirBasicInfo>,
        plugins_items: Vec<DirBasicInfo>,
    ) -> (r: SummaryReport)
        requires
            self.well_formed(),
        ensures
            report_matches(
                r,
                self.history@,
                dir_views(frameworks_items@),
                dir_views(plugins_items@),
            ),
    {
        let ghost h = self.history@;
        let ghost fs = events_files(h);
        let ghost sv0 = summary_views(self.ext_summaries@);
        let mut s = self;

        sort_summaries(&mut s.ext_summaries);
        sort_files(&mut s.candidates);

        let ghost full = file_views(s.candidates@);
        proof {
            broadcast use group_to_multiset_ensures;
            assert(full.to_multiset() == fs.to_multiset());
            assert(full.len() == fs.len()) by {
                assert(full.to_multiset().len() == full.len());
                assert(fs.to_multiset().len() == fs.len());
            }
        }
        if s.candidates.len() > 10 {
            s.candidates.truncate(10);
            proof {
                assert(file_views(s.candidates@) =~= full.take(10));
            }
        } else {
            proof {
                assert(file_views(s.candidates@) =~= full.take(fs.len() as int));
            }
        }

        let r = SummaryReport {
            directory_count: s.directory_count,
            file_count: s.file_count,
            total_file_size: s.total_file_size,
            file_extensions_summary: s.ext_summaries,
            files_without_extensions: s.extensionless_files,
            files_top_large: s.candidates,
            frameworks_items: frameworks_items,
            plugins_items: plugins_items,
        };

        proof {
            broadcast use group_to_multiset_ensures;
            let sv = summary_views(r.file_extensions_summary@);
            assert forall|j: int| 0 <= j < sv.len() implies {
                &&& (#[trigger] sv[j]).count == count_ext(fs, sv[j].extension)
                &&& sv[j].total_size == size_ext(fs, sv[j].extension)
                &&& sv[j].count > 0
            } by {
                assert(sv.to_multiset().contains(sv[j]));
                assert(sv0.contains(sv[j]));
                let k = choose|k: int| 0 <= k < sv0.len() && sv0[k] == sv[j];
                assert(sv0[k].count == count_ext(fs, sv0[k].extension));
            }
            lemma_distinct_ext_no_duplicates(sv0);
            sv0.lemma_multiset_has_no_duplicates();
            sv.lemma_multiset_has_no_duplicates_conv();
            assert forall|j: int, k: int| 0 <= j < k < sv.len() implies (
            #[trigger] sv[j]).extension != (#[trigger] sv[k]).extension by {
                if sv[j].extension == sv[k].extension {
                    assert(sv.to_multiset().contains(sv[j]));
                    assert(sv.to_multiset().contains(sv[k]));
                    assert(sv0.contains(sv[j]));
                    assert(sv0.contains(sv[k]));
                    let a = choose|a: int| 0 <= a < sv0.len() && sv0[a] == sv[j];
                    let b = choose|b: int| 0 <= b < sv0.len() && sv0[b] == sv[k];
                    if a < b {
                        assert(sv0[a].extension != sv0[b].extension);
                    } else if b < a {
                        assert(sv0[b].extension != sv0[a].extension);
                    }
                    assert(sv[j] == sv[k]);
                    assert(sv.no_duplicates());
                }
            }
            assert forall|i: int| 0 <= i < fs.len() implies has_summary_for(
                sv,
                spec_extension_of((#[trigger] fs[i]).name),
            ) by {
                assert(has_summary_for(sv0, spec_extension_of(fs[i].name)));
                let j = choose|j: int|
                    0 <= j < sv0.len() && (#[trigger] sv0[j]).extension == spec_extension_of(
                        fs[i].name,
                    );
                assert(sv0.to_multiset().contains(sv0[j]));
                assert(sv.contains(sv0[j]));
                let k = choose|k: int| 0 <= k < sv.len() && sv[k] == sv0[j];
                assert(sv[k].extension == spec_extension_of(fs[i].name));
            }
            let tv = file_views(r.files_top_large@);
            assert(tv == full.take(min(10, fs.len() as int)));
            assert(tv.len() == min(10, fs.len() as int));
            assert(files_sorted(tv)) by {
                assert forall|a: int, b: int| 0 <= a < b < tv.len() implies crate::sorting::file_le(
                    #[trigger] tv[a],
                    #[trigger] tv[b],
                ) by {
                    assert(tv[a] == full[a]);
                    assert(tv[b] == full[b]);
                }
            }
        }
        r
    }
}

/// `no_duplicates` helper: a sequence of summaries with pairwise distinct
/// extensions has pairwise distinct elements.
pub proof fn lemma_distinct_ext_no_duplicates(sv: Seq<SummaryView>)
    requires
        forall|j: int, k: int|
            0 <= j < k < sv.len() ==> (#[trigger] sv[j]).extension != (#[trigger] sv[k]).extension,
    ensures
        sv.no_duplicates(),
{
    assert forall|j: int, k: int| 0 <= j < sv.len() && 0 <= k < sv.len() && j != k implies sv[j]
        != sv[k] by {
        if j < k {
            assert(sv[j].extension != sv[k].extension);
        } else {
            assert(sv[k].extension != sv[j].extension);
        }
    }
}

} // verus!
