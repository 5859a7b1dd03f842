use dirsum::engine::AggregationEngine;
use dirsum::extension::extension_of;
use dirsum::report::{EntryInfo, SummaryReport};
use dirsum::walker::{consume_listing, TreeWalker};

fn entry(name: &str, rel: &str, full: &str, is_dir: bool, size: u64) -> EntryInfo {
    EntryInfo {
        name: name.to_string(),
        rel_path: rel.to_string(),
        full_path: full.to_string(),
        is_dir,
        size,
    }
}

fn scan(listings: &[(&str, Vec<EntryInfo>)]) -> SummaryReport {
    let mut engine = AggregationEngine::new();
    let mut walker = TreeWalker::new(Some(listings[0].0.to_string()));
    let mut next = 0;
    while let Some(dir) = walker.next_dir() {
        let (expected, entries) = listings
            .iter()
            .find(|(p, _)| *p == dir)
            .unwrap_or_else(|| panic!("unexpected directory {}", dir));
        assert_eq!(*expected, dir);
        next += 1;
        consume_listing(&mut engine, &mut walker, entries);
    }
    assert_eq!(next, listings.len());
    engine.finalize(Vec::new(), Vec::new())
}

#[test]
fn scenario_mixed_root() {
    let report = scan(&[
        (
            "/root",
            vec![
                entry("a.txt", "/a.txt", "/root/a.txt", false, 10),
                entry("b.txt", "/b.txt", "/root/b.txt", false, 20),
                entry("README", "/README", "/root/README", false, 5),
                entry("sub", "/sub", "/root/sub", true, 0),
            ],
        ),
        ("/root/sub", vec![]),
    ]);
    assert_eq!(report.directory_count, 1);
    assert_eq!(report.file_count, 3);
    assert_eq!(report.total_file_size, 35);

    assert_eq!(report.file_extensions_summary.len(), 2);
    assert_eq!(report.file_extensions_summary[0].extension, "txt");
    assert_eq!(report.file_extensions_summary[0].count, 2);
    assert_eq!(report.file_extensions_summary[0].total_size, 30);
    assert_eq!(report.file_extensions_summary[1].extension, "");
    assert_eq!(report.file_extensions_summary[1].count, 1);
    assert_eq!(report.file_extensions_summary[1].total_size, 5);

    assert_eq!(report.files_without_extensions.len(), 1);
    assert_eq!(report.files_without_extensions[0].name, "README");
    assert_eq!(report.files_without_extensions[0].size, 5);
    assert_eq!(report.files_without_extensions[0].path, "/README");

    assert_eq!(report.files_top_large.len(), 3);
    assert_eq!(report.files_top_large[0].name, "b.txt");
    assert_eq!(report.files_top_large[0].size, 20);
    assert_eq!(report.files_top_large[1].name, "a.txt");
    assert_eq!(report.files_top_large[1].size, 10);
    assert_eq!(report.files_top_large[2].name, "README");
    assert_eq!(report.files_top_large[2].size, 5);

    assert!(report.frameworks_items.is_empty());
    assert!(report.plugins_items.is_empty());
}

#[test]
fn root_not_a_directory_scans_nothing() {
    let mut engine = AggregationEngine::new();
    let mut walker = TreeWalker::new(None);
    assert!(walker.next_dir().is_none());
    let report = engine.finalize(Vec::new(), Vec::new());
    assert_eq!(report.directory_count, 0);
    assert_eq!(report.file_count, 0);
    assert_eq!(report.total_file_size, 0);
    assert!(report.file_extensions_summary.is_empty());
    assert!(report.files_without_extensions.is_empty());
    assert!(report.files_top_large.is_empty());
}

#[test]
fn counts_split_entries() {
    let report = scan(&[
        (
            "/r",
            vec![
                entry("d1", "/d1", "/r/d1", true, 0),
                entry("d2", "/d2", "/r/d2", true, 0),
                entry("f1.c", "/f1.c", "/r/f1.c", false, 1),
            ],
        ),
        ("/r/d2", vec![entry("f2.c", "/d2/f2.c", "/r/d2/f2.c", false, 2)]),
        ("/r/d1", vec![entry("f3.h", "/d1/f3.h", "/r/d1/f3.h", false, 4)]),
    ]);
    assert_eq!(report.directory_count, 2);
    assert_eq!(report.file_count, 3);
    assert_eq!(u64::from(report.file_count) + u64::from(report.directory_count), 5);
    assert_eq!(report.total_file_size, 7);
}

#[test]
fn extension_counts_sum_to_file_count() {
    let report = scan(&[(
        "/r",
        vec![
            entry("a.rs", "/a.rs", "/r/a.rs", false, 1),
            entry("b.rs", "/b.rs", "/r/b.rs", false, 2),
            entry("c.toml", "/c.toml", "/r/c.toml", false, 3),
            entry("LICENSE", "/LICENSE", "/r/LICENSE", false, 4),
        ],
    )]);
    let count_sum: u32 = report.file_extensions_summary.iter().map(|s| s.count).sum();
    let size_sum: u64 = report.file_extensions_summary.iter().map(|s| s.total_size).sum();
    assert_eq!(count_sum, report.file_count);
    assert_eq!(size_sum, report.total_file_size);
}

#[test]
fn top_large_keeps_ten() {
    let mut entries = Vec::new();
    for i in 0..12u64 {
        let name = format!("f{}.dat", i);
        let rel = format!("/f{}.dat", i);
        let full = format!("/r/f{}.dat", i);
        entries.push(entry(&name, &rel, &full, false, 100 + i));
    }
    let report = scan(&[("/r", entries)]);
    assert_eq!(report.file_count, 12);
    assert_eq!(report.files_top_large.len(), 10);
    for w in report.files_top_large.windows(2) {
        assert!(w[0].size >= w[1].size);
    }
    assert_eq!(report.files_top_large[0].size, 111);
    assert_eq!(report.files_top_large[9].size, 102);
    for f in &report.files_top_large {
        assert!(f.size >= 102);
    }
}

#[test]
fn top_large_ties_break_by_name() {
    let report = scan(&[(
        "/r",
        vec![
            entry("zz.log", "/zz.log", "/r/zz.log", false, 50),
            entry("aa.log", "/aa.log", "/r/aa.log", false, 50),
            entry("mm.log", "/mm.log", "/r/mm.log", false, 50),
        ],
    )]);
    assert_eq!(report.files_top_large[0].name, "aa.log");
    assert_eq!(report.files_top_large[1].name, "mm.log");
    assert_eq!(report.files_top_large[2].name, "zz.log");
}

#[test]
fn summary_ties_break_by_extension() {
    let report = scan(&[(
        "/r",
        vec![
            entry("a.zz", "/a.zz", "/r/a.zz", false, 1),
            entry("b.aa", "/b.aa", "/r/b.aa", false, 1),
            entry("c.mm", "/c.mm", "/r/c.mm", false, 1),
        ],
    )]);
    assert_eq!(report.file_extensions_summary[0].extension, "aa");
    assert_eq!(report.file_extensions_summary[1].extension, "mm");
    assert_eq!(report.file_extensions_summary[2].extension, "zz");
}

#[test]
fn scanning_twice_is_identical() {
    let listings = vec![
        (
            "/r",
            vec![
                entry("x.png", "/x.png", "/r/x.png", false, 9),
                entry("y.png", "/y.png", "/r/y.png", false, 9),
                entry("notes", "/notes", "/r/notes", false, 2),
                entry("inner", "/inner", "/r/inner", true, 0),
            ],
        ),
        ("/r/inner", vec![entry("z.gif", "/inner/z.gif", "/r/inner/z.gif", false, 4)]),
    ];
    let r1 = scan(&listings);
    let r2 = scan(&listings);
    assert_eq!(r1.directory_count, r2.directory_count);
    assert_eq!(r1.file_count, r2.file_count);
    assert_eq!(r1.total_file_size, r2.total_file_size);
    assert_eq!(r1.file_extensions_summary.len(), r2.file_extensions_summary.len());
    for (a, b) in r1.file_extensions_summary.iter().zip(r2.file_extensions_summary.iter()) {
        assert_eq!(a.extension, b.extension);
        assert_eq!(a.count, b.count);
        assert_eq!(a.total_size, b.total_size);
    }
    for (a, b) in r1.files_without_extensions.iter().zip(r2.files_without_extensions.iter()) {
        assert_eq!(a.name, b.name);
        assert_eq!(a.size, b.size);
        assert_eq!(a.path, b.path);
    }
    assert_eq!(r1.files_top_large.len(), r2.files_top_large.len());
    for (a, b) in r1.files_top_large.iter().zip(r2.files_top_large.iter()) {
        assert_eq!(a.name, b.name);
        assert_eq!(a.size, b.size);
        assert_eq!(a.path, b.path);
    }
}

#[test]
fn extensionless_matches_empty_extension_summary() {
    let report = scan(&[(
        "/r",
        vec![
            entry("Makefile", "/Makefile", "/r/Makefile", false, 3),
            entry("main.c", "/main.c", "/r/main.c", false, 8),
            entry("COPYING", "/COPYING", "/r/COPYING", false, 1),
        ],
    )]);
    let empty = report
        .file_extensions_summary
        .iter()
        .find(|s| s.extension.is_empty())
        .unwrap();
    assert_eq!(empty.count as usize, report.files_without_extensions.len());
    assert_eq!(report.files_without_extensions.len(), 2);
    assert_eq!(report.files_without_extensions[0].name, "Makefile");
    assert_eq!(report.files_without_extensions[1].name, "COPYING");
}

#[test]
fn extension_rules() {
    assert_eq!(extension_of("archive.tar.gz"), "gz");
    assert_eq!(extension_of("README"), "");
    assert_eq!(extension_of(".gitignore"), "");
    assert_eq!(extension_of("trailing."), "");
    assert_eq!(extension_of("a.b"), "b");
    assert_eq!(extension_of(""), "");
    assert_eq!(extension_of("Photo.JPG"), "JPG");
}
