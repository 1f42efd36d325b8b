//! The shapes in which documents, statistics and the configuration are
//! handed to a user interface: times as RFC 3339 text.

use vstd::prelude::*;
use vstd::string::*;
use crate::models::{AppConfig, FileDocument, IndexStats, IndexedDirectory, Timestamp};
use crate::service::{dir_entries, copy_directory};

verus! {

/// The RFC 3339 text `chrono` writes for an instant.
pub uninterp spec fn rfc3339_of(t: Timestamp) -> Seq<char>;

/// Calls `chrono::DateTime::from_timestamp` and `to_rfc3339`; an instant
/// chrono does not accept is written as the Unix epoch, as the default
/// `DateTime` is. Claimed: the text depends on the instant alone.
#[verifier::external_body]
fn format_rfc3339(t: Timestamp) -> (r: String)
    ensures
        r@ == rfc3339_of(t),
{
    chrono::DateTime::from_timestamp(t.secs, t.nanos).unwrap_or_default().to_rfc3339()
}

/// A document for display.
#[derive(Clone, Debug)]
pub struct FileDocumentDto {
    pub id: u64,
    pub name: String,
    pub name_lower: String,
    pub path: String,
    pub parent: String,
    pub extension: String,
    pub size: u64,
    pub modified: String,
    pub is_dir: bool,
}

impl FileDocumentDto {
    /// The document's fields, its modification time as RFC 3339 text; the
    /// content hash is left out.
    pub fn from_document(d: FileDocument) -> (r: Self)
        ensures
            r.id == d.id,
            r.name@ == d.name@,
            r.name_lower@ == d.name_lower@,
            r.path@ == d.path@,
            r.parent@ == d.parent@,
            r.extension@ == d.extension@,
            r.size == d.size,
            r.modified@ == rfc3339_of(d.modified),
            r.is_dir == d.is_dir,
    {
        FileDocumentDto {
            id: d.id,
            name: d.name,
            name_lower: d.name_lower,
            path: d.path,
            parent: d.parent,
            extension: d.extension,
            size: d.size,
            modified: format_rfc3339(d.modified),
            is_dir: d.is_dir,
        }
    }
}

/// Index statistics for display.
#[derive(Clone, Debug)]
pub struct IndexStatsDto {
    pub total_documents: u64,
    pub total_files: u64,
    pub total_directories: u64,
    pub total_size_bytes: u64,
    pub indexed_roots: Vec<String>,
    pub last_scan: Option<String>,
    pub last_update: Option<String>,
    pub trigram_count: u64,
    pub segment_count: u32,
    pub index_size_bytes: u64,
}

/// An optional instant as optional RFC 3339 text.
fn format_opt(t: Option<Timestamp>) -> (r: Option<String>)
    ensures
        match t {
            Some(x) => r matches Some(s) && s@ == rfc3339_of(x),
            None => r is None,
        },
{
    match t {
        Some(x) => Some(format_rfc3339(x)),
        None => None,
    }
}

impl IndexStatsDto {
    /// The statistics, times as RFC 3339 text.
    pub fn from_stats(s: IndexStats) -> (r: Self)
        ensures
            r.total_documents == s.total_documents,
            r.total_files == s.total_files,
            r.total_directories == s.total_directories,
            r.total_size_bytes == s.total_size_bytes,
            r.indexed_roots == s.indexed_roots,
            match s.last_scan {
                Some(x) => r.last_scan matches Some(t) && t@ == rfc3339_of(x),
                None => r.last_scan is None,
            },
            match s.last_update {
                Some(x) => r.last_update matches Some(t) && t@ == rfc3339_of(x),
                None => r.last_update is None,
            },
            r.trigram_count == s.trigram_count,
            r.segment_count == s.segment_count,
            r.index_size_bytes == s.index_size_bytes,
    {
        IndexStatsDto {
            total_documents: s.total_documents,
            total_files: s.total_files,
            total_directories: s.total_directories,
            total_size_bytes: s.total_size_bytes,
            indexed_roots: s.indexed_roots,
            last_scan: format_opt(s.last_scan),
            last_update: format_opt(s.last_update),
            trigram_count: s.trigram_count,
            segment_count: s.segment_count,
            index_size_bytes: s.index_size_bytes,
        }
    }
}

/// A configured directory for display.
#[derive(Clone, Debug)]
pub struct IndexedDirectoryDto {
    pub path: String,
    pub enabled: bool,
}

impl IndexedDirectoryDto {
    /// The same directory.
    pub fn from_directory(d: IndexedDirectory) -> (r: Self)
        ensures
            r.path == d.path,
            r.enabled == d.enabled,
    {
        IndexedDirectoryDto { path: d.path, enabled: d.enabled }
    }

    /// The same directory.
    pub fn into_directory(self) -> (r: IndexedDirectory)
        ensures
            r.path == self.path,
            r.enabled == self.enabled,
    {
        IndexedDirectory { path: self.path, enabled: self.enabled }
    }
}

/// The configuration for display.
#[derive(Clone, Debug)]
pub struct AppConfigDto {
    pub directories: Vec<IndexedDirectoryDto>,
    pub excluded_patterns: Vec<String>,
    pub default_result_limit: usize,
    pub auto_watch: bool,
    pub auto_rebuild: bool,
    pub index_content: bool,
    pub content_max_size: u64,
    pub content_extensions: Vec<String>,
}

/// The paths and flags of displayed directories.
pub open spec fn dto_entries(ds: Seq<IndexedDirectoryDto>) -> Seq<(Seq<char>, bool)> {
    ds.map_values(|d: IndexedDirectoryDto| (d.path@, d.enabled))
}

impl AppConfigDto {
    /// The same configuration.
    pub fn from_config(c: AppConfig) -> (r: Self)
        ensures
            dto_entries(r.directories@) == dir_entries(c.directories@),
            r.excluded_patterns == c.excluded_patterns,
            r.default_result_limit == c.default_result_limit,
            r.auto_watch == c.auto_watch,
            r.auto_rebuild == c.auto_rebuild,
            r.index_content == c.index_content,
            r.content_max_size == c.content_max_size,
            r.content_extensions == c.content_extensions,
    {
        let mut dirs: Vec<IndexedDirectoryDto> = Vec::new();
        let mut i: usize = 0;
        while i < c.directories.len()
            invariant
                i <= c.directories@.len(),
                dirs@.len() == i,
                forall|k: int| 0 <= k < i ==> (#[trigger] dirs@[k]).path@ == c.directories@[k].path@
                    && dirs@[k].enabled == c.directories@[k].enabled,
            decreases c.directories@.len() - i,
        {
            let d = copy_directory(&c.directories[i]);
            dirs.push(IndexedDirectoryDto::from_directory(d));
            i += 1;
        }
        assert(dto_entries(dirs@) =~= dir_entries(c.directories@));
        AppConfigDto {
            directories: dirs,
            excluded_patterns: c.excluded_patterns,
            default_result_limit: c.default_result_limit,
            auto_watch: c.auto_watch,
            auto_rebuild: c.auto_rebuild,
            index_content: c.index_content,
            content_max_size: c.content_max_size,
            content_extensions: c.content_extensions,
        }
    }

    /// The same configuration.
    pub fn into_config(self) -> (r: AppConfig)
        ensures
            dir_entries(r.directories@) == dto_entries(self.directories@),
            r.excluded_patterns == self.excluded_patterns,
            r.default_result_limit == self.default_result_limit,
            r.auto_watch == self.auto_watch,
            r.auto_rebuild == self.auto_rebuild,
            r.index_content == self.index_content,
            r.content_max_size == self.content_max_size,
            r.content_extensions == self.content_extensions,
    {
        let mut dirs: Vec<IndexedDirectory> = Vec::new();
        let mut i: usize = 0;
        while i < self.directories.len()
            invariant
                i <= self.directories@.len(),
                dirs@.len() == i,
                forall|k: int| 0 <= k < i ==> (#[trigger] dirs@[k]).path@ == self.directories@[k].path@
                    && dirs@[k].enabled == self.directories@[k].enabled,
            decreases self.directories@.len() - i,
        {
            let d = &self.directories[i];
            dirs.push(IndexedDirectory { path: d.path.clone(), enabled: d.enabled });
            i += 1;
        }
        assert(dir_entries(dirs@) =~= dto_entries(self.directories@));
        AppConfig {
            directories: dirs,
            excluded_patterns: self.excluded_patterns,
            default_result_limit: self.default_result_limit,
            auto_watch: self.auto_watch,
            auto_rebuild: self.auto_rebuild,
            index_content: self.index_content,
            content_max_size: self.content_max_size,
            content_extensions: self.content_extensions,
        }
    }
}

} // verus!
