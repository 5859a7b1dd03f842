//! Deterministic orders for the report's two ranked lists, and verified
//! insertion sorts that realize them.
//!
//! Extension summaries are ordered by descending count; files by descending
//! size. Both orders break ties lexicographically so that one input always
//! yields one output.

use vstd::prelude::*;
use vstd::relations::{sorted_by, total_ordering};
use vstd::seq_lib::group_to_multiset_ensures;
use crate::extension::{lex_le, lemma_lex_le_antisym, lemma_lex_le_total, lemma_lex_le_trans,
    lex_le_exec};
use crate::report::{FileBasicInfo, FileExtensionSummary, FileView, SummaryView, file_views,
    summary_views};

verus! {

/// Order on extension summaries: greater count first, then extension
/// lexicographically, then total size.
pub open spec fn summary_le(a: SummaryView, b: SummaryView) -> bool {
    if a.count != b.count {
        a.count > b.count
    } else if a.extension == b.extension {
        a.total_size <= b.total_size
    } else {
        lex_le(a.extension, b.extension)
    }
}

pub open spec fn summary_order() -> spec_fn(SummaryView, SummaryView) -> bool {
    |a: SummaryView, b: SummaryView| summary_le(a, b)
}

/// Order on file snapshots: greater size first, then name and path
/// lexicographically.
pub open spec fn file_le(a: FileView, b: FileView) -> bool {
    if a.size != b.size {
        a.size > b.size
    } else if a.name == b.name {
        lex_le(a.path, b.path)
    } else {
        lex_le(a.name, b.name)
    }
}

pub open spec fn file_order() -> spec_fn(FileView, FileView) -> bool {
    |a: FileView, b: FileView| file_le(a, b)
}

/// Summaries in order: each one at or before the place of every later one.
pub open spec fn summaries_sorted(s: Seq<SummaryView>) -> bool {
    forall|a: int, b: int|
        0 <= a < b < s.len() ==> summary_le(#[trigger] s[a], #[trigger] s[b])
}

/// Files in order: each one at or before the place of every later one.
pub open spec fn files_sorted(s: Seq<FileView>) -> bool {
    forall|a: int, b: int| 0 <= a < b < s.len() ==> file_le(#[trigger] s[a], #[trigger] s[b])
}

pub proof fn lemma_lex_le_refl(a: Seq<char>)
    ensures
        lex_le(a, a),
    decreases a.len(),
{
    if a.len() > 0 {
        lemma_lex_le_refl(a.drop_first());
    }
}

/// One of two summaries always comes first.
pub proof fn lemma_summary_le_connected(a: SummaryView, b: SummaryView)
    ensures
        summary_le(a, b) || summary_le(b, a),
{
    if a.count == b.count && a.extension != b.extension {
        lemma_lex_le_total(a.extension, b.extension);
    }
}

pub proof fn lemma_summary_le_antisym(a: SummaryView, b: SummaryView)
    requires
        summary_le(a, b),
        summary_le(b, a),
    ensures
        a == b,
{
    if a.count == b.count && a.extension != b.extension {
        lemma_lex_le_antisym(a.extension, b.extension);
    }
}

pub proof fn lemma_summary_le_trans(a: SummaryView, b: SummaryView, c: SummaryView)
    requires
        summary_le(a, b),
        summary_le(b, c),
    ensures
        summary_le(a, c),
{
    if a.count == b.count && b.count == c.count {
        if a.extension != b.extension && b.extension != c.extension {
            lemma_lex_le_trans(a.extension, b.extension, c.extension);
            if a.extension == c.extension {
                lemma_lex_le_antisym(a.extension, b.extension);
            }
        }
    }
}

/// One of two file snapshots always comes first.
pub proof fn lemma_file_le_connected(a: FileView, b: FileView)
    ensures
        file_le(a, b) || file_le(b, a),
{
    if a.size == b.size {
        if a.name == b.name {
            lemma_lex_le_total(a.path, b.path);
        } else {
            lemma_lex_le_total(a.name, b.name);
        }
    }
}

pub proof fn lemma_file_le_antisym(a: FileView, b: FileView)
    requires
        file_le(a, b),
        file_le(b, a),
    ensures
        a == b,
{
    if a.size == b.size {
        if a.name == b.name {
            lemma_lex_le_antisym(a.path, b.path);
        } else {
            lemma_lex_le_antisym(a.name, b.name);
        }
    }
}

pub proof fn lemma_file_le_trans(a: FileView, b: FileView, c: FileView)
    requires
        file_le(a, b),
        file_le(b, c),
    ensures
        file_le(a, c),
{
    if a.size == b.size && b.size == c.size {
        if a.name != b.name && b.name != c.name {
            lemma_lex_le_trans(a.name, b.name, c.name);
            if a.name == c.name {
                lemma_lex_le_antisym(a.name, b.name);
            }
        } else if a.name == b.name && b.name == c.name {
            lemma_lex_le_trans(a.path, b.path, c.path);
        }
    }
}

/// `summary_le` is a total order, so a sorted arrangement is unique.
pub proof fn lemma_summary_order_total()
    ensures
        total_ordering(summary_order()),
{
    let leq = summary_order();
    assert forall|x: SummaryView| #[trigger] leq(x, x) by {}
    assert forall|x: SummaryView, y: SummaryView| #[trigger] leq(x, y) && #[trigger] leq(
        y,
        x,
    ) implies x == y by {
        lemma_summary_le_antisym(x, y);
    }
    assert forall|x: SummaryView, y: SummaryView, z: SummaryView|
        #[trigger] leq(x, y) && #[trigger] leq(y, z) implies leq(x, z) by {
        lemma_summary_le_trans(x, y, z);
    }
    assert forall|x: SummaryView, y: SummaryView| #[trigger] leq(x, y) || #[trigger] leq(
        y,
        x,
    ) by {
        lemma_summary_le_connected(x, y);
    }
}

/// `file_le` is a total order, so a sorted arrangement is unique.
pub proof fn lemma_file_order_total()
    ensures
        total_ordering(file_order()),
{
    let leq = file_order();
    assert forall|x: FileView| #[trigger] leq(x, x) by {
        lemma_lex_le_refl(x.path);
    }
    assert forall|x: FileView, y: FileView| #[trigger] leq(x, y) && #[trigger] leq(
        y,
        x,
    ) implies x == y by {
        lemma_file_le_antisym(x, y);
    }
    assert forall|x: FileView, y: FileView, z: FileView|
        #[trigger] leq(x, y) && #[trigger] leq(y, z) implies leq(x, z) by {
        lemma_file_le_trans(x, y, z);
    }
    assert forall|x: FileView, y: FileView| #[trigger] leq(x, y) || #[trigger] leq(y, x) by {
        lemma_file_le_connected(x, y);
    }
}

/// `summaries_sorted` is `sorted_by` the summary order.
pub proof fn lemma_summaries_sorted_by(s: Seq<SummaryView>)
    requires
        summaries_sorted(s),
    ensures
        sorted_by(s, summary_order()),
{
    let leq = summary_order();
    assert forall|a: int, b: int| 0 <= a < b < s.len() implies #[trigger] leq(s[a], s[b]) by {
        assert(summary_le(s[a], s[b]));
    }
}

/// `files_sorted` is `sorted_by` the file order.
pub proof fn lemma_files_sorted_by(s: Seq<FileView>)
    requires
        files_sorted(s),
    ensures
        sorted_by(s, file_order()),
{
    let leq = file_order();
    assert forall|a: int, b: int| 0 <= a < b < s.len() implies #[trigger] leq(s[a], s[b]) by {
        assert(file_le(s[a], s[b]));
    }
}

/// Decides `summary_le` on two summaries.
pub fn summary_le_exec(a: &FileExtensionSummary, b: &FileExtensionSummary) -> (r: bool)
    ensures
        r == summary_le(a@, b@),
{
    if a.count != b.count {
        a.count > b.count
    } else if a.extension == b.extension {
        a.total_size <= b.total_size
    } else {
        lex_le_exec(a.extension.as_str(), b.extension.as_str())
    }
}

/// Decides `file_le` on two file snapshots.
pub fn file_le_exec(a: &FileBasicInfo, b: &FileBasicInfo) -> (r: bool)
    ensures
        r == file_le(a@, b@),
{
    if a.size != b.size {
        a.size > b.size
    } else if a.name == b.name {
        lex_le_exec(a.path.as_str(), b.path.as_str())
    } else {
        lex_le_exec(a.name.as_str(), b.name.as_str())
    }
}

/// Sorts extension summaries by `summary_le`, keeping the same collection
/// of summaries.
pub fn sort_summaries(v: &mut Vec<FileExtensionSummary>)
    ensures
        summary_views(final(v)@).to_multiset() == summary_views(old(v)@).to_multiset(),
        summaries_sorted(summary_views(final(v)@)),
{
    let ghost orig_ms = summary_views(v@).to_multiset();
    if v.len() <= 1 {
        return ;
    }
    let mut i: usize = 1;
    while i < v.len()
        invariant
            1 <= i <= v@.len(),
            summary_views(v@).to_multiset() == orig_ms,
            summaries_sorted(summary_views(v@).take(i as int)),
        decreases v@.len() - i,
    {
        proof {
            broadcast use group_to_multiset_ensures;
        }
        let ghost views0 = summary_views(v@);
        let x = v.remove(i);
        proof {
            assert(summary_views(v@) =~= views0.remove(i as int));
            assert(summary_views(v@).to_multiset() =~= orig_ms.remove(x@));
            assert(summary_views(v@).take(i as int) =~= views0.take(i as int));
        }
        let ghost w = summary_views(v@);
        let mut j: usize = i;
        while j > 0 && !summary_le_exec(&v[j - 1], &x)
            invariant
                0 <= j <= i,
                i <= w.len(),
                summary_views(v@) == w,
                summaries_sorted(w.take(i as int)),
                forall|k: int| j <= k < i ==> summary_le(x@, #[trigger] w[k]),
            decreases j,
        {
            proof {
                lemma_summary_le_connected(w[j - 1], x@);
                assert forall|k: int| j - 1 <= k < i implies summary_le(
                    x@,
                    #[trigger] w[k],
                ) by {
                    if k > j - 1 {
                    } else {
                        assert(summary_le(x@, w[j - 1]));
                    }
                }
            }
            j = j - 1;
        }
        let ghost j0 = j as int;
        proof {
            broadcast use group_to_multiset_ensures;
        }
        v.insert(j, x);
        proof {
            assert(summary_views(v@) =~= w.insert(j0, x@));
            assert(summary_views(v@).to_multiset() =~= orig_ms.remove(x@).insert(x@));
            assert(views0.to_multiset().contains(views0[i as int]));
            assert(orig_ms.remove(x@).insert(x@) =~= orig_ms);
            let nv = summary_views(v@);
            assert forall|a: int, b: int| 0 <= a < b < i + 1 implies summary_le(
                #[trigger] nv[a],
                #[trigger] nv[b],
            ) by {
                let tw = w.take(i as int);
                if b < j0 {
                    assert(summary_le(tw[a], tw[b]));
                } else if a < j0 && b == j0 {
                    assert(summary_le(w[j0 - 1], x@));
                    if a < j0 - 1 {
                        assert(summary_le(tw[a], tw[j0 - 1]));
                        lemma_summary_le_trans(w[a], w[j0 - 1], x@);
                    }
                } else if a == j0 && b > j0 {
                    assert(summary_le(x@, w[b - 1]));
                } else if a < j0 && b > j0 {
                    assert(summary_le(tw[a], tw[b - 1]));
                } else if a > j0 {
                    assert(summary_le(tw[a - 1], tw[b - 1]));
                }
            }
            assert(summaries_sorted(nv.take(i + 1)));
        }
        i = i + 1;
    }
    proof {
        assert(summary_views(v@).take(v@.len() as int) =~= summary_views(v@));
    }
}

/// Sorts file snapshots by `file_le`, keeping the same collection of files.
pub fn sort_files(v: &mut Vec<FileBasicInfo>)
    ensures
        file_views(final(v)@).to_multiset() == file_views(old(v)@).to_multiset(),
        files_sorted(file_views(final(v)@)),
{
    let ghost orig_ms = file_views(v@).to_multiset();
    if v.len() <= 1 {
        return ;
    }
    let mut i: usize = 1;
    while i < v.len()
        invariant
            1 <= i <= v@.len(),
            file_views(v@).to_multiset() == orig_ms,
            files_sorted(file_views(v@).take(i as int)),
        decreases v@.len() - i,
    {
        proof {
            broadcast use group_to_multiset_ensures;
        }
        let ghost views0 = file_views(v@);
        let x = v.remove(i);
        proof {
            assert(file_views(v@) =~= views0.remove(i as int));
            assert(file_views(v@).to_multiset() =~= orig_ms.remove(x@));
            assert(file_views(v@).take(i as int) =~= views0.take(i as int));
        }
        let ghost w = file_views(v@);
        let mut j: usize = i;
        while j > 0 && !file_le_exec(&v[j - 1], &x)
            invariant
                0 <= j <= i,
                i <= w.len(),
                file_views(v@) == w,
                files_sorted(w.take(i as int)),
                forall|k: int| j <= k < i ==> file_le(x@, #[trigger] w[k]),
            decreases j,
        {
            proof {
                lemma_file_le_connected(w[j - 1], x@);
                assert forall|k: int| j - 1 <= k < i implies file_le(x@, #[trigger] w[k]) by {
                    if k > j - 1 {
                    } else {
                        assert(file_le(x@, w[j - 1]));
                    }
                }
            }
            j = j - 1;
        }
        let ghost j0 = j as int;
        proof {
            broadcast use group_to_multiset_ensures;
        }
        v.insert(j, x);
        proof {
            assert(file_views(v@) =~= w.insert(j0, x@));
            assert(file_views(v@).to_multiset() =~= orig_ms.remove(x@).insert(x@));
            assert(views0.to_multiset().contains(views0[i as int]));
            assert(orig_ms.remove(x@).insert(x@) =~= orig_ms);
            let nv = file_views(v@);
            assert forall|a: int, b: int| 0 <= a < b < i + 1 implies file_le(
                #[trigger] nv[a],
                #[trigger] nv[b],
            ) by {
                let tw = w.take(i as int);
                if b < j0 {
                    assert(file_le(tw[a], tw[b]));
                } else if a < j0 && b == j0 {
                    assert(file_le(w[j0 - 1], x@));
                    if a < j0 - 1 {
                        assert(file_le(tw[a], tw[j0 - 1]));
                        lemma_file_le_trans(w[a], w[j0 - 1], x@);
                    }
                } else if a == j0 && b > j0 {
                    assert(file_le(x@, w[b - 1]));
                } else if a < j0 && b > j0 {
                    assert(file_le(tw[a], tw[b - 1]));
                } else if a > j0 {
                    assert(file_le(tw[a - 1], tw[b - 1]));
                }
            }
            assert(files_sorted(nv.take(i + 1)));
        }
        i = i + 1;
    }
    proof {
        assert(file_views(v@).take(v@.len() as int) =~= file_views(v@));
    }
}

} // verus!
