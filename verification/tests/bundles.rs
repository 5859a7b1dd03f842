use dirsum::report::EntryInfo;
use dirsum::walker::{bundle_items, BundleSizer};

fn entry(name: &str, rel: &str, full: &str, is_dir: bool, size: u64) -> EntryInfo {
    EntryInfo {
        name: name.to_string(),
        rel_path: rel.to_string(),
        full_path: full.to_string(),
        is_dir,
        size,
    }
}

#[test]
fn missing_frameworks_yields_no_items() {
    let children: Vec<EntryInfo> = Vec::new();
    let sizes: Vec<u64> = Vec::new();
    let items = bundle_items(&children, &sizes);
    assert!(items.is_empty());
}

#[test]
fn frameworks_with_file_only_yields_no_items() {
    let children = vec![entry(
        "notes.txt",
        "/Frameworks/notes.txt",
        "/root/Frameworks/notes.txt",
        false,
        7,
    )];
    let sizes = vec![0u64];
    let items = bundle_items(&children, &sizes);
    assert!(items.is_empty());
}

#[test]
fn frameworks_single_bundle() {
    let mut sizer = BundleSizer::new(Some("/root/Frameworks/D".to_string()));
    let first = sizer.next_dir().unwrap();
    assert_eq!(first, "/root/Frameworks/D");
    sizer.consume_listing(&vec![
        entry("x.bin", "/Frameworks/D/x.bin", "/root/Frameworks/D/x.bin", false, 30),
        entry("y.bin", "/Frameworks/D/y.bin", "/root/Frameworks/D/y.bin", false, 12),
        entry("deep", "/Frameworks/D/deep", "/root/Frameworks/D/deep", true, 0),
    ]);
    let next = sizer.next_dir().unwrap();
    assert_eq!(next, "/root/Frameworks/D/deep");
    sizer.consume_listing(&vec![entry(
        "z.bin",
        "/Frameworks/D/deep/z.bin",
        "/root/Frameworks/D/deep/z.bin",
        false,
        8,
    )]);
    assert!(sizer.next_dir().is_none());
    assert_eq!(sizer.total, 50);

    let children = vec![entry("D", "/Frameworks/D", "/root/Frameworks/D", true, 0)];
    let sizes = vec![sizer.total];
    let items = bundle_items(&children, &sizes);
    assert_eq!(items.len(), 1);
    assert_eq!(items[0].name, "D");
    assert_eq!(items[0].size, 50);
    assert_eq!(items[0].path, "/Frameworks/D");
}

#[test]
fn bundle_sizer_ignores_directory_entries_in_total() {
    let mut sizer = BundleSizer::new(Some("/p".to_string()));
    sizer.next_dir().unwrap();
    sizer.consume_listing(&vec![
        entry("sub", "/sub", "/p/sub", true, 0),
        entry("a.o", "/a.o", "/p/a.o", false, 5),
    ]);
    sizer.next_dir().unwrap();
    sizer.consume_listing(&vec![]);
    assert!(sizer.next_dir().is_none());
    assert_eq!(sizer.total, 5);
}

#[test]
fn mixed_children_keep_only_directories_in_order() {
    let children = vec![
        entry("A", "/Frameworks/A", "/root/Frameworks/A", true, 0),
        entry("skip.me", "/Frameworks/skip.me", "/root/Frameworks/skip.me", false, 3),
        entry("B", "/Frameworks/B", "/root/Frameworks/B", true, 0),
    ];
    let sizes = vec![11u64, 0, 22];
    let items = bundle_items(&children, &sizes);
    assert_eq!(items.len(), 2);
    assert_eq!(items[0].name, "A");
    assert_eq!(items[0].size, 11);
    assert_eq!(items[1].name, "B");
    assert_eq!(items[1].size, 22);
}
