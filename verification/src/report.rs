//! Data model of one scan: the entry records the traversal hands to the
//! engine, the summary structures of the finished report, and their
//! mathematical views.

use vstd::prelude::*;

verus! {

/// Invocation options: the root path of the scan and the output format.
pub struct Opt {
    pub path: String,
    pub json: bool,
}

/// One directory entry as the traversal saw it: its base name, its path
/// relative to the scan root, the path used to list it further, whether it
/// is a directory, and its on-disk size (0 for directories and for files
/// whose size could not be read).
#[derive(Debug)]
pub struct EntryInfo {
    pub name: String,
    pub rel_path: String,
    pub full_path: String,
    pub is_dir: bool,
    pub size: u64,
}

/// Aggregate of all files sharing one extension (the empty extension
/// standing for "no extension").
#[derive(Debug)]
pub struct FileExtensionSummary {
    pub extension: String,
    pub count: u32,
    pub total_size: u64,
}

/// Snapshot of one file at visit time.
#[derive(Debug)]
pub struct FileBasicInfo {
    pub name: String,
    pub size: u64,
    pub path: String,
}

/// One bundle subdirectory with its fully recursed size.
#[derive(Debug)]
pub struct DirBasicInfo {
    pub name: String,
    pub size: u64,
    pub path: String,
}

/// The immutable result of one scan.
#[derive(Debug)]
pub struct SummaryReport {
    pub directory_count: u32,
    pub file_count: u32,
    pub total_file_size: u64,
    pub file_extensions_summary: Vec<FileExtensionSummary>,
    pub files_without_extensions: Vec<FileBasicInfo>,
    pub files_top_large: Vec<FileBasicInfo>,
    pub frameworks_items: Vec<DirBasicInfo>,
    pub plugins_items: Vec<DirBasicInfo>,
}

/// Mathematical image of a file snapshot.
pub ghost struct FileView {
    pub name: Seq<char>,
    pub size: u64,
    pub path: Seq<char>,
}

/// Mathematical image of an extension summary.
pub ghost struct SummaryView {
    pub extension: Seq<char>,
    pub count: u32,
    pub total_size: u64,
}

/// Mathematical image of a bundle item.
pub ghost struct DirView {
    pub name: Seq<char>,
    pub size: u64,
    pub path: Seq<char>,
}

/// Mathematical image of a traversal entry.
pub ghost struct EntryView {
    pub name: Seq<char>,
    pub rel_path: Seq<char>,
    pub full_path: Seq<char>,
    pub is_dir: bool,
    pub size: u64,
}

impl View for FileBasicInfo {
    type V = FileView;

    open spec fn view(&self) -> FileView {
        FileView { name: self.name@, size: self.size, path: self.path@ }
    }
}

impl View for FileExtensionSummary {
    type V = SummaryView;

    open spec fn view(&self) -> SummaryView {
        SummaryView { extension: self.extension@, count: self.count, total_size: self.total_size }
    }
}

impl View for DirBasicInfo {
    type V = DirView;

    open spec fn view(&self) -> DirView {
        DirView { name: self.name@, size: self.size, path: self.path@ }
    }
}

impl View for EntryInfo {
    type V = EntryView;

    open spec fn view(&self) -> EntryView {
        EntryView {
            name: self.name@,
            rel_path: self.rel_path@,
            full_path: self.full_path@,
            is_dir: self.is_dir,
            size: self.size,
        }
    }
}

pub open spec fn file_views(s: Seq<FileBasicInfo>) -> Seq<FileView> {
    s.map_values(|f: FileBasicInfo| f@)
}

pub open spec fn summary_views(s: Seq<FileExtensionSummary>) -> Seq<SummaryView> {
    s.map_values(|f: FileExtensionSummary| f@)
}

pub open spec fn dir_views(s: Seq<DirBasicInfo>) -> Seq<DirView> {
    s.map_values(|f: DirBasicInfo| f@)
}

pub open spec fn entry_views(s: Seq<EntryInfo>) -> Seq<EntryView> {
    s.map_values(|f: EntryInfo| f@)
}

} // verus!
