//! The laws of one scan, proved once and for all reports that the engine
//! can produce.

use vstd::prelude::*;
use vstd::math::min;
use vstd::relations::total_ordering;
use vstd::seq_lib::{group_to_multiset_ensures, lemma_multiset_commutative, lemma_sorted_unique};
use crate::engine::{AggregationEngine, ScanEvent, count_dirs, count_ext, events_files, extless,
    has_summary_for, lemma_count_ext_witness, lemma_events_partition, lemma_ext_bounds,
    report_matches, size_ext, sum_sizes};
use crate::extension::spec_extension_of;
use crate::report::{DirView, FileView, SummaryReport, SummaryView, dir_views, file_views,
    summary_views};
use crate::sorting::{file_le, file_order, files_sorted, lemma_file_order_total,
    lemma_files_sorted_by, lemma_summaries_sorted_by, lemma_summary_order_total,
    summary_order};

verus! {

/// Sum of the per-extension file counts of a summary list.
pub open spec fn sum_counts(sv: Seq<SummaryView>) -> int
    decreases sv.len(),
{
    if sv.len() == 0 {
        0
    } else {
        sum_counts(sv.drop_last()) + sv.last().count
    }
}

/// Sum of the per-extension total sizes of a summary list.
pub open spec fn sum_summary_sizes(sv: Seq<SummaryView>) -> int
    decreases sv.len(),
{
    if sv.len() == 0 {
        0
    } else {
        sum_summary_sizes(sv.drop_last()) + sv.last().total_size
    }
}

proof fn lemma_sums_zero(sv: Seq<SummaryView>)
    requires
        forall|j: int|
            0 <= j < sv.len() ==> (#[trigger] sv[j]).count == 0 && sv[j].total_size == 0,
    ensures
        sum_counts(sv) == 0,
        sum_summary_sizes(sv) == 0,
    decreases sv.len(),
{
    if sv.len() > 0 {
        assert(sv.last() == sv[sv.len() - 1]);
        assert(forall|j: int| 0 <= j < sv.len() - 1 ==> sv.drop_last()[j] == sv[j]);
        lemma_sums_zero(sv.drop_last());
    }
}

proof fn lemma_sums_update(sv: Seq<SummaryView>, j: int, x: SummaryView)
    requires
        0 <= j < sv.len(),
    ensures
        sum_counts(sv.update(j, x)) == sum_counts(sv) - sv[j].count + x.count,
        sum_summary_sizes(sv.update(j, x)) == sum_summary_sizes(sv) - sv[j].total_size
            + x.total_size,
    decreases sv.len(),
{
    let u = sv.update(j, x);
    if j == sv.len() - 1 {
        assert(u.drop_last() =~= sv.drop_last());
        assert(u.last() == x);
    } else {
        assert(u.drop_last() =~= sv.drop_last().update(j, x));
        assert(u.last() == sv.last());
        lemma_sums_update(sv.drop_last(), j, x);
    }
}

/// The summaries of a scan partition its files: their counts sum to the
/// file count and their sizes to the total size.
pub proof fn lemma_summaries_partition(fs: Seq<FileView>, sv: Seq<SummaryView>)
    requires
        forall|j: int|
            0 <= j < sv.len() ==> (#[trigger] sv[j]).count == count_ext(fs, sv[j].extension)
                && sv[j].total_size == size_ext(fs, sv[j].extension),
        forall|j: int, k: int|
            0 <= j < k < sv.len() ==> (#[trigger] sv[j]).extension != (#[trigger] sv[k]).extension,
        forall|i: int|
            0 <= i < fs.len() ==> has_summary_for(sv, spec_extension_of((#[trigger] fs[i]).name)),
    ensures
        sum_counts(sv) == fs.len(),
        sum_summary_sizes(sv) == sum_sizes(fs),
    decreases fs.len(),
{
    if fs.len() == 0 {
        assert forall|j: int| 0 <= j < sv.len() implies (#[trigger] sv[j]).count == 0
            && sv[j].total_size == 0 by {
            assert(sv[j].count == count_ext(fs, sv[j].extension));
        }
        lemma_sums_zero(sv);
    } else {
        let f = fs.last();
        let fs0 = fs.drop_last();
        let e = spec_extension_of(f.name);
        assert(has_summary_for(sv, spec_extension_of(fs[fs.len() - 1].name)));
        let j = choose|j: int| 0 <= j < sv.len() && (#[trigger] sv[j]).extension == e;
        lemma_ext_bounds(fs0, e);
        assert(count_ext(fs, e) == count_ext(fs0, e) + 1);
        assert(size_ext(fs, e) == size_ext(fs0, e) + f.size);
        let x = SummaryView {
            extension: e,
            count: (sv[j].count - 1) as u32,
            total_size: (sv[j].total_size - f.size) as u64,
        };
        let sv0 = sv.update(j, x);
        assert forall|k: int| 0 <= k < sv0.len() implies (#[trigger] sv0[k]).count == count_ext(
            fs0,
            sv0[k].extension,
        ) && sv0[k].total_size == size_ext(fs0, sv0[k].extension) by {
            if k == j {
                assert(sv0[k] == x);
            } else {
                assert(sv0[k] == sv[k]);
                assert(sv[k].count == count_ext(fs, sv[k].extension));
                if k < j {
                    assert(sv[k].extension != sv[j].extension);
                } else {
                    assert(sv[j].extension != sv[k].extension);
                }
                assert(count_ext(fs, sv[k].extension) == count_ext(fs0, sv[k].extension));
                assert(size_ext(fs, sv[k].extension) == size_ext(fs0, sv[k].extension));
            }
        }
        assert forall|a: int, b: int| 0 <= a < b < sv0.len() implies (
        #[trigger] sv0[a]).extension != (#[trigger] sv0[b]).extension by {
            assert(sv[a].extension != sv[b].extension);
            assert(sv0[a].extension == sv[a].extension);
            assert(sv0[b].extension == sv[b].extension);
        }
        assert forall|i: int| 0 <= i < fs0.len() implies has_summary_for(
            sv0,
            spec_extension_of((#[trigger] fs0[i]).name),
        ) by {
            assert(fs0[i] == fs[i]);
            assert(has_summary_for(sv, spec_extension_of(fs[i].name)));
            let k = choose|k: int|
                0 <= k < sv.len() && (#[trigger] sv[k]).extension == spec_extension_of(fs[i].name);
            assert(sv0[k].extension == spec_extension_of(fs0[i].name));
        }
        lemma_summaries_partition(fs0, sv0);
        lemma_sums_update(sv, j, x);
    }
}

/// Every filesystem entry under the root is counted exactly once: the file
/// count and the directory count split the visit history.
pub proof fn lemma_entry_counts(e: AggregationEngine)
    requires
        e.well_formed(),
    ensures
        e.file_count + e.directory_count == e.history@.len(),
{
    lemma_events_partition(e.history@);
}

/// In a finished report, file count and directory count together equal the
/// number of visited entries.
pub proof fn lemma_report_entry_counts(
    r: SummaryReport,
    h: Seq<ScanEvent>,
    fw: Seq<DirView>,
    pl: Seq<DirView>,
)
    requires
        report_matches(r, h, fw, pl),
    ensures
        r.file_count + r.directory_count == h.len(),
{
    lemma_events_partition(h);
}

/// In a finished report, the extension summaries partition the files: the
/// counts sum to the file count and the sizes to the total file size.
pub proof fn lemma_report_extension_totals(
    r: SummaryReport,
    h: Seq<ScanEvent>,
    fw: Seq<DirView>,
    pl: Seq<DirView>,
)
    requires
        report_matches(r, h, fw, pl),
    ensures
        sum_counts(summary_views(r.file_extensions_summary@)) == r.file_count,
        sum_summary_sizes(summary_views(r.file_extensions_summary@)) == r.total_file_size,
{
    lemma_summaries_partition(events_files(h), summary_views(r.file_extensions_summary@));
}

/// In a finished report, the top-large list holds `min(10, file count)`
/// files of the scan, in descending order, and every file left out is no
/// larger than any file kept.
pub proof fn lemma_report_top_large(
    r: SummaryReport,
    h: Seq<ScanEvent>,
    fw: Seq<DirView>,
    pl: Seq<DirView>,
)
    requires
        report_matches(r, h, fw, pl),
    ensures
        file_views(r.files_top_large@).len() == min(10, events_files(h).len() as int),
        files_sorted(file_views(r.files_top_large@)),
        forall|v: FileView, i: int|
            {
                &&& 0 <= i < file_views(r.files_top_large@).len()
                &&& events_files(h).to_multiset().count(v) > (#[trigger] file_views(
                    r.files_top_large@,
                ).to_multiset().count(v))
            } ==> file_le(#[trigger] file_views(r.files_top_large@)[i], v) && file_views(
                r.files_top_large@,
            )[i].size >= v.size,
{
    broadcast use group_to_multiset_ensures;

    let fs = events_files(h);
    let tv = file_views(r.files_top_large@);
    let m = min(10, fs.len() as int);
    let full = choose|full: Seq<FileView>|
        {
            &&& (#[trigger] full.to_multiset()) == fs.to_multiset()
            &&& files_sorted(full)
            &&& tv == full.take(m)
        };
    assert(full.len() == fs.len()) by {
        assert(full.to_multiset().len() == full.len());
        assert(fs.to_multiset().len() == fs.len());
    }
    let rest = full.skip(m);
    assert(full =~= full.take(m) + rest);
    lemma_multiset_commutative(full.take(m), rest);
    assert forall|v: FileView, i: int|
        {
            &&& 0 <= i < tv.len()
            &&& fs.to_multiset().count(v) > (#[trigger] tv.to_multiset().count(v))
        } implies file_le(#[trigger] tv[i], v) by {
        assert(full.to_multiset().count(v) == tv.to_multiset().count(v) + rest.to_multiset().count(
            v,
        ));
        assert(rest.to_multiset().count(v) > 0);
        assert(rest.contains(v));
        let k = choose|k: int| 0 <= k < rest.len() && rest[k] == v;
        assert(full[m + k] == v);
        assert(tv[i] == full[i]);
        assert(file_le(full[i], full[m + k]));
    }
}

/// In a finished report, the extensionless list holds exactly the files
/// without an extension, in visit order, and agrees with the summary keyed
/// by the empty extension.
pub proof fn lemma_report_extensionless(
    r: SummaryReport,
    h: Seq<ScanEvent>,
    fw: Seq<DirView>,
    pl: Seq<DirView>,
)
    requires
        report_matches(r, h, fw, pl),
    ensures
        file_views(r.files_without_extensions@) == extless(events_files(h)),
        forall|j: int|
            0 <= j < summary_views(r.file_extensions_summary@).len() && (#[trigger] summary_views(
                r.file_extensions_summary@,
            )[j]).extension.len() == 0 ==> summary_views(r.file_extensions_summary@)[j].count
                == extless(events_files(h)).len(),
        (forall|j: int|
            0 <= j < summary_views(r.file_extensions_summary@).len() ==> (#[trigger] summary_views(
                r.file_extensions_summary@,
            )[j]).extension.len() != 0) ==> extless(events_files(h)).len() == 0,
{
    let fs = events_files(h);
    let sv = summary_views(r.file_extensions_summary@);
    lemma_extless_count(fs);
    assert forall|j: int| 0 <= j < sv.len() && (#[trigger] sv[j]).extension.len() == 0 implies
        sv[j].count == extless(fs).len() by {
        assert(sv[j].extension =~= Seq::<char>::empty());
        assert(sv[j].count == count_ext(fs, sv[j].extension));
    }
    if forall|j: int| 0 <= j < sv.len() ==> (#[trigger] sv[j]).extension.len() != 0 {
        if extless(fs).len() != 0 {
            assert(count_ext(fs, Seq::<char>::empty()) > 0);
            lemma_count_ext_witness(fs, Seq::<char>::empty());
            let i = choose|i: int|
                0 <= i < fs.len() && spec_extension_of((#[trigger] fs[i]).name)
                    == Seq::<char>::empty();
            assert(has_summary_for(sv, spec_extension_of(fs[i].name)));
            let j = choose|j: int|
                0 <= j < sv.len() && (#[trigger] sv[j]).extension == Seq::<char>::empty();
            assert(sv[j].extension.len() == 0);
        }
    }
}

/// Files without an extension are counted by the summary keyed by the
/// empty extension.
pub proof fn lemma_extless_count(fs: Seq<FileView>)
    ensures
        count_ext(fs, Seq::<char>::empty()) == extless(fs).len(),
    decreases fs.len(),
{
    if fs.len() > 0 {
        lemma_extless_count(fs.drop_last());
        if spec_extension_of(fs.last().name).len() == 0 {
            assert(spec_extension_of(fs.last().name) =~= Seq::<char>::empty());
        } else {
            assert(spec_extension_of(fs.last().name) != Seq::<char>::empty());
        }
    }
}

/// Scanning is deterministic: two reports of the same visit history and
/// the same bundle listings agree in every field.
pub proof fn lemma_report_deterministic(
    r1: SummaryReport,
    r2: SummaryReport,
    h: Seq<ScanEvent>,
    fw: Seq<DirView>,
    pl: Seq<DirView>,
)
    requires
        report_matches(r1, h, fw, pl),
        report_matches(r2, h, fw, pl),
    ensures
        r1.directory_count == r2.directory_count,
        r1.file_count == r2.file_count,
        r1.total_file_size == r2.total_file_size,
        summary_views(r1.file_extensions_summary@) == summary_views(r2.file_extensions_summary@),
        file_views(r1.files_without_extensions@) == file_views(r2.files_without_extensions@),
        file_views(r1.files_top_large@) == file_views(r2.files_top_large@),
        dir_views(r1.frameworks_items@) == dir_views(r2.frameworks_items@),
        dir_views(r1.plugins_items@) == dir_views(r2.plugins_items@),
{
    broadcast use group_to_multiset_ensures;
    broadcast use vstd::multiset::group_multiset_axioms;

    let fs = events_files(h);
    let s1 = summary_views(r1.file_extensions_summary@);
    let s2 = summary_views(r2.file_extensions_summary@);
    crate::engine::lemma_distinct_ext_no_duplicates(s1);
    crate::engine::lemma_distinct_ext_no_duplicates(s2);
    s1.lemma_multiset_has_no_duplicates();
    s2.lemma_multiset_has_no_duplicates();
    assert forall|v: SummaryView| true implies s1.to_multiset().count(v) == s2.to_multiset().count(
        v,
    ) by {
        lemma_summary_sets_agree(fs, s1, s2, v);
    }
    assert(s1.to_multiset() =~= s2.to_multiset());
    lemma_summaries_sorted_by(s1);
    lemma_summaries_sorted_by(s2);
    lemma_summary_order_total();
    lemma_sorted_unique(s1, s2, summary_order());
    assert(s1 == s2);

    let m = min(10, fs.len() as int);
    let f1 = choose|full: Seq<FileView>|
        {
            &&& (#[trigger] full.to_multiset()) == fs.to_multiset()
            &&& files_sorted(full)
            &&& file_views(r1.files_top_large@) == full.take(m)
        };
    let f2 = choose|full: Seq<FileView>|
        {
            &&& (#[trigger] full.to_multiset()) == fs.to_multiset()
            &&& files_sorted(full)
            &&& file_views(r2.files_top_large@) == full.take(m)
        };
    lemma_files_sorted_by(f1);
    lemma_files_sorted_by(f2);
    lemma_file_order_total();
    lemma_sorted_unique(f1, f2, file_order());
    assert(f1 == f2);
}

/// Two summary lists describing the same files hold each summary equally
/// often (namely once or not at all).
proof fn lemma_summary_sets_agree(
    fs: Seq<FileView>,
    s1: Seq<SummaryView>,
    s2: Seq<SummaryView>,
    v: SummaryView,
)
    requires
        crate::engine::summaries_describe(s1, fs),
        crate::engine::summaries_describe(s2, fs),
        forall|x: SummaryView| s1.to_multiset().contains(x) ==> s1.to_multiset().count(x) == 1,
        forall|x: SummaryView| s2.to_multiset().contains(x) ==> s2.to_multiset().count(x) == 1,
    ensures
        s1.to_multiset().count(v) == s2.to_multiset().count(v),
{
    broadcast use group_to_multiset_ensures;
    broadcast use vstd::multiset::group_multiset_axioms;

    if s1.to_multiset().count(v) > 0 {
        lemma_summary_crosses(fs, s1, s2, v);
    }
    if s2.to_multiset().count(v) > 0 {
        lemma_summary_crosses(fs, s2, s1, v);
    }
}

/// A summary present in one list describing `fs` is present in any other.
proof fn lemma_summary_crosses(
    fs: Seq<FileView>,
    s1: Seq<SummaryView>,
    s2: Seq<SummaryView>,
    v: SummaryView,
)
    requires
        crate::engine::summaries_describe(s1, fs),
        crate::engine::summaries_describe(s2, fs),
        s1.to_multiset().count(v) > 0,
    ensures
        s2.to_multiset().count(v) > 0,
{
    broadcast use group_to_multiset_ensures;
    broadcast use vstd::multiset::group_multiset_axioms;

    assert(s1.to_multiset().contains(v));
    assert(s1.contains(v));
    let a = choose|a: int| 0 <= a < s1.len() && s1[a] == v;
    assert(v.count == count_ext(fs, v.extension));
    assert(v.count > 0);
    lemma_count_ext_witness(fs, v.extension);
    let i = choose|i: int|
        0 <= i < fs.len() && spec_extension_of((#[trigger] fs[i]).name) == v.extension;
    assert(has_summary_for(s2, spec_extension_of(fs[i].name)));
    let b = choose|b: int| 0 <= b < s2.len() && (#[trigger] s2[b]).extension == v.extension;
    assert(s2[b].count == count_ext(fs, s2[b].extension));
    assert(s2[b].total_size == size_ext(fs, s2[b].extension));
    assert(s2[b] == v);
    assert(s2.contains(v));
    assert(s2.to_multiset().count(v) > 0);
}

/// A bundle listing with no entries yields no bundle items.
pub proof fn lemma_bundle_empty(cs: Seq<crate::report::EntryView>, ss: Seq<u64>)
    requires
        cs.len() == 0,
    ensures
        crate::walker::spec_bundle_items(cs, ss).len() == 0,
{
}

/// A bundle listing with no subdirectory — files only — yields no bundle
/// items.
pub proof fn lemma_bundle_skips_files(cs: Seq<crate::report::EntryView>, ss: Seq<u64>)
    requires
        cs.len() == ss.len(),
        forall|i: int| 0 <= i < cs.len() ==> !(#[trigger] cs[i]).is_dir,
    ensures
        crate::walker::spec_bundle_items(cs, ss).len() == 0,
    decreases cs.len(),
{
    if cs.len() > 0 {
        assert(!cs[cs.len() - 1].is_dir);
        assert(forall|i: int| 0 <= i < cs.len() - 1 ==> cs.drop_last()[i] == cs[i]);
        lemma_bundle_skips_files(cs.drop_last(), ss.drop_last());
    }
}

/// A bundle listing of one subdirectory yields exactly that item, with the
/// separately computed size and the relative path.
pub proof fn lemma_bundle_single(cs: Seq<crate::report::EntryView>, ss: Seq<u64>)
    requires
        cs.len() == 1,
        ss.len() == 1,
        cs[0].is_dir,
    ensures
        crate::walker::spec_bundle_items(cs, ss) == seq![
            DirView { name: cs[0].name, size: ss[0], path: cs[0].rel_path },
        ],
{
    assert(cs.drop_last().len() == 0);
    assert(crate::walker::spec_bundle_items(cs.drop_last(), ss.drop_last())
        =~= Seq::<DirView>::empty());
    assert(crate::walker::spec_bundle_items(cs, ss) =~= seq![
        DirView { name: cs[0].name, size: ss[0], path: cs[0].rel_path },
    ]);
}

} // verus!
