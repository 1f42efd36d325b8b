//! The data the engine indexes and searches, its configuration, and its
//! error type.

use vstd::prelude::*;
use vstd::string::*;

verus! {

/// A UTC instant: whole seconds since the Unix epoch and the nanoseconds
/// within that second.
#[derive(Clone, Copy, Debug)]
pub struct Timestamp {
    pub secs: i64,
    pub nanos: u32,
}

/// `a` is earlier than `b`: seconds first, then nanoseconds.
pub open spec fn ts_lt(a: Timestamp, b: Timestamp) -> bool {
    a.secs < b.secs || (a.secs == b.secs && a.nanos < b.nanos)
}

impl Timestamp {
    /// The Unix epoch.
    pub fn epoch() -> (r: Timestamp)
        ensures
            r.secs == 0 && r.nanos == 0,
    {
        Timestamp { secs: 0, nanos: 0 }
    }

    /// Whether `self` is earlier than `other`.
    pub fn is_before(&self, other: &Timestamp) -> (r: bool)
        ensures
            r == ts_lt(*self, *other),
    {
        self.secs < other.secs || (self.secs == other.secs && self.nanos < other.nanos)
    }
}

/// An indexed file or directory.
#[derive(Clone, Debug)]
pub struct FileDocument {
    pub id: u64,
    pub name: String,
    pub name_lower: String,
    pub path: String,
    pub parent: String,
    pub extension: String,
    pub size: u64,
    pub modified: Timestamp,
    pub is_dir: bool,
    /// Optional content hash for deduplication.
    pub content_hash: Option<String>,
}

/// What a document holds, its texts as characters.
pub struct DocView {
    pub id: u64,
    pub name: Seq<char>,
    pub name_lower: Seq<char>,
    pub path: Seq<char>,
    pub parent: Seq<char>,
    pub extension: Seq<char>,
    pub size: u64,
    pub modified: Timestamp,
    pub is_dir: bool,
    pub content_hash: Option<Seq<char>>,
}

/// The characters of an optional text.
pub open spec fn opt_text(o: Option<String>) -> Option<Seq<char>> {
    match o {
        Some(s) => Some(s@),
        None => None,
    }
}

impl View for FileDocument {
    type V = DocView;

    open spec fn view(&self) -> DocView {
        DocView {
            id: self.id,
            name: self.name@,
            name_lower: self.name_lower@,
            path: self.path@,
            parent: self.parent@,
            extension: self.extension@,
            size: self.size,
            modified: self.modified,
            is_dir: self.is_dir,
            content_hash: opt_text(self.content_hash),
        }
    }
}

/// A copy of an optional text.
pub fn copy_opt_text(o: &Option<String>) -> (r: Option<String>)
    ensures
        opt_text(r) == opt_text(*o),
{
    match o {
        Some(s) => Some(s.clone()),
        None => None,
    }
}

impl FileDocument {
    /// A field-by-field copy.
    pub fn copy(&self) -> (r: FileDocument)
        ensures
            r@ == self@,
    {
        FileDocument {
            id: self.id,
            name: self.name.clone(),
            name_lower: self.name_lower.clone(),
            path: self.path.clone(),
            parent: self.parent.clone(),
            extension: self.extension.clone(),
            size: self.size,
            modified: self.modified,
            is_dir: self.is_dir,
            content_hash: copy_opt_text(&self.content_hash),
        }
    }
}

/// The views of a list of documents.
pub open spec fn docs_seq(docs: Seq<FileDocument>) -> Seq<DocView> {
    docs.map_values(|d: FileDocument| d@)
}

/// Copies a list of documents.
pub fn copy_docs(docs: &[FileDocument]) -> (r: Vec<FileDocument>)
    ensures
        docs_seq(r@) == docs_seq(docs@),
{
    let mut out: Vec<FileDocument> = Vec::new();
    let mut i: usize = 0;
    while i < docs.len()
        invariant
            i <= docs@.len(),
            out@.len() == i,
            docs_seq(out@) == docs_seq(docs@.subrange(0, i as int)),
        decreases docs@.len() - i,
    {
        let ghost before = out@;
        let d = docs[i].copy();
        out.push(d);
        proof {
            assert forall|k: int| 0 <= k < i + 1 implies #[trigger] docs_seq(out@)[k] == docs_seq(docs@.subrange(0, i + 1))[k] by {
                assert(docs_seq(out@)[k] == out@[k]@);
                assert(docs_seq(docs@.subrange(0, i + 1))[k] == docs@[k]@);
                if k < i {
                    assert(out@[k] == before[k]);
                    assert(docs_seq(before)[k] == docs_seq(docs@.subrange(0, i as int))[k]);
                }
            }
        }
        i += 1;
        assert(docs_seq(out@) =~= docs_seq(docs@.subrange(0, i as int)));
    }
    assert(docs@.subrange(0, docs@.len() as int) =~= docs@);
    out
}

/// The fixed-size record of a document in a segment file.
#[derive(Clone, Copy, Debug)]
pub struct FileDocumentCompact {
    pub id: u64,
    pub size: u64,
    pub modified_ts: i64,
    pub is_dir: u8,
    pub name_offset: u64,
    pub name_len: u32,
    pub path_offset: u64,
    pub path_len: u32,
    pub ext_id: u16,
}

/// Files or directories.
#[derive(Clone, Copy, Debug, PartialEq, Eq, Structural)]
pub enum EntryType {
    File,
    Directory,
}

/// What results are ordered by.
#[derive(Clone, Copy, Debug, PartialEq, Eq, Structural)]
pub enum SortField {
    Relevance,
    Name,
    Path,
    Size,
    Modified,
}

impl Default for SortField {
    /// By relevance.
    fn default() -> (r: Self)
        ensures
            r == SortField::Relevance,
    {
        SortField::Relevance
    }
}

/// The direction of the order.
#[derive(Clone, Copy, Debug, PartialEq, Eq, Structural)]
pub enum SortOrder {
    Ascending,
    Descending,
}

impl Default for SortOrder {
    /// Descending.
    fn default() -> (r: Self)
        ensures
            r == SortOrder::Descending,
    {
        SortOrder::Descending
    }
}

/// The filters of a query; `None` filters nothing.
#[derive(Clone, Debug)]
pub struct SearchFilters {
    pub extension: Option<String>,
    pub path_contains: Option<String>,
    pub size_min: Option<u64>,
    pub size_max: Option<u64>,
    pub modified_after: Option<Timestamp>,
    pub modified_before: Option<Timestamp>,
    pub entry_type: Option<EntryType>,
}

impl SearchFilters {
    /// No filter set.
    pub open spec fn is_empty(&self) -> bool {
        &&& self.extension is None
        &&& self.path_contains is None
        &&& self.size_min is None
        &&& self.size_max is None
        &&& self.modified_after is None
        &&& self.modified_before is None
        &&& self.entry_type is None
    }
}

impl Default for SearchFilters {
    /// No filter set.
    fn default() -> (r: Self)
        ensures
            r.is_empty(),
    {
        SearchFilters {
            extension: None,
            path_contains: None,
            size_min: None,
            size_max: None,
            modified_after: None,
            modified_before: None,
            entry_type: None,
        }
    }
}

/// A parsed query.
#[derive(Clone, Debug)]
pub struct SearchQuery {
    pub raw: String,
    pub keywords: Vec<String>,
    pub filters: SearchFilters,
    pub limit: Option<usize>,
    pub sort_by: SortField,
    pub sort_order: SortOrder,
    /// Whether to search file contents as well.
    pub search_content: bool,
}

/// Counts describing an index.
#[derive(Clone, Debug)]
pub struct IndexStats {
    pub total_documents: u64,
    pub total_files: u64,
    pub total_directories: u64,
    pub total_size_bytes: u64,
    pub indexed_roots: Vec<String>,
    pub last_scan: Option<Timestamp>,
    pub last_update: Option<Timestamp>,
    pub trigram_count: u64,
    pub segment_count: u32,
    pub index_size_bytes: u64,
}

impl Default for IndexStats {
    /// All counts zero, no roots, no times.
    fn default() -> (r: Self)
        ensures
            r.total_documents == 0 && r.total_files == 0 && r.total_directories == 0,
            r.total_size_bytes == 0 && r.indexed_roots@.len() == 0,
            r.last_scan is None && r.last_update is None,
            r.trigram_count == 0 && r.segment_count == 0 && r.index_size_bytes == 0,
    {
        IndexStats {
            total_documents: 0,
            total_files: 0,
            total_directories: 0,
            total_size_bytes: 0,
            indexed_roots: Vec::new(),
            last_scan: None,
            last_update: None,
            trigram_count: 0,
            segment_count: 0,
            index_size_bytes: 0,
        }
    }
}

/// A directory the user asked to index.
#[derive(Clone, Debug)]
pub struct IndexedDirectory {
    pub path: String,
    pub enabled: bool,
}

/// The user's configuration.
#[derive(Clone, Debug)]
pub struct AppConfig {
    pub directories: Vec<IndexedDirectory>,
    pub excluded_patterns: Vec<String>,
    pub default_result_limit: usize,
    pub auto_watch: bool,
    pub auto_rebuild: bool,
    /// Whether to index file contents for text files.
    pub index_content: bool,
    /// Max file size (bytes) for content indexing.
    pub content_max_size: u64,
    /// File extensions eligible for content indexing.
    pub content_extensions: Vec<String>,
}

/// The texts of a list of strings.
pub open spec fn texts(v: Seq<String>) -> Seq<Seq<char>> {
    v.map_values(|s: String| s@)
}

/// A vector of strings made from literals.
fn strings_of(items: &[&str]) -> (r: Vec<String>)
    ensures
        r@.len() == items@.len(),
        forall|i: int| 0 <= i < items@.len() ==> #[trigger] r@[i]@ == items@[i]@,
{
    let mut out: Vec<String> = Vec::new();
    let mut i: usize = 0;
    while i < items.len()
        invariant
            i <= items@.len(),
            out@.len() == i,
            forall|k: int| 0 <= k < i ==> #[trigger] out@[k]@ == items@[k]@,
        decreases items@.len() - i,
    {
        out.push(String::from_str(items[i]));
        i += 1;
    }
    out
}

/// The patterns excluded by default.
pub fn default_excluded_patterns() -> (r: Vec<String>)
    ensures
        r@.len() == 6,
        r@[0]@ == ".git"@,
        r@[1]@ == "node_modules"@,
        r@[2]@ == "__pycache__"@,
        r@[3]@ == ".DS_Store"@,
        r@[4]@ == "$Recycle.Bin"@,
        r@[5]@ == "System Volume Information"@,
{
    let items: [&str; 6] = [".git", "node_modules", "__pycache__", ".DS_Store", "$Recycle.Bin",
        "System Volume Information"];
    strings_of(&items)
}

/// The extensions whose contents are indexed by default.
pub fn default_content_extensions() -> (r: Vec<String>)
    ensures
        r@.len() == 32,
        r@[0]@ == "txt"@ && r@[1]@ == "md"@ && r@[2]@ == "rs"@ && r@[3]@ == "py"@,
        r@[4]@ == "js"@ && r@[5]@ == "ts"@ && r@[6]@ == "jsx"@ && r@[7]@ == "tsx"@,
        r@[8]@ == "java"@ && r@[9]@ == "c"@ && r@[10]@ == "cpp"@ && r@[11]@ == "h"@,
        r@[12]@ == "hpp"@ && r@[13]@ == "go"@ && r@[14]@ == "rb"@ && r@[15]@ == "php"@,
        r@[16]@ == "html"@ && r@[17]@ == "css"@ && r@[18]@ == "xml"@ && r@[19]@ == "json"@,
        r@[20]@ == "toml"@ && r@[21]@ == "yaml"@ && r@[22]@ == "yml"@ && r@[23]@ == "ini"@,
        r@[24]@ == "cfg"@ && r@[25]@ == "conf"@ && r@[26]@ == "sh"@ && r@[27]@ == "bat"@,
        r@[28]@ == "ps1"@ && r@[29]@ == "sql"@ && r@[30]@ == "log"@ && r@[31]@ == "csv"@,
{
    let items: [&str; 32] = ["txt", "md", "rs", "py", "js", "ts", "jsx", "tsx", "java", "c", "cpp",
        "h", "hpp", "go", "rb", "php", "html", "css", "xml", "json", "toml", "yaml", "yml", "ini",
        "cfg", "conf", "sh", "bat", "ps1", "sql", "log", "csv"];
    strings_of(&items)
}

impl Default for AppConfig {
    /// No directories, the default exclusions and content extensions, a
    /// limit of 500 results, watching, rebuilding and content indexing on,
    /// and a 10 MiB content size limit.
    fn default() -> (r: Self)
        ensures
            r.directories@.len() == 0,
            r.excluded_patterns@.len() == 6,
            r.content_extensions@.len() == 32,
            r.default_result_limit == 500,
            r.auto_watch && r.auto_rebuild && r.index_content,
            r.content_max_size == 10 * 1024 * 1024,
    {
        AppConfig {
            directories: Vec::new(),
            excluded_patterns: default_excluded_patterns(),
            default_result_limit: 500,
            auto_watch: true,
            auto_rebuild: true,
            index_content: true,
            content_max_size: 10 * 1024 * 1024,
            content_extensions: default_content_extensions(),
        }
    }
}

/// A volume or drive found on the system.
#[derive(Clone, Debug)]
pub struct VolumeInfo {
    pub mount_point: String,
    pub label: Option<String>,
    pub total_bytes: u64,
    pub free_bytes: u64,
    pub fs_type: Option<String>,
}

/// What can go wrong, each with its message.
#[derive(Clone, Debug)]
pub enum HyperFindError {
    ConfigError(String),
    IndexError(String),
    ScanError(String),
    SearchError(String),
    ParseError(String),
    WatcherError(String),
    IoError(String),
    SerializationError(String),
    PlatformError(String),
    PluginError(String),
    ContentError(String),
    InternalError(String),
}

impl HyperFindError {
    /// The label that the text of an error starts with.
    pub open spec fn label(&self) -> Seq<char> {
        match self {
            HyperFindError::ConfigError(_) => "Configuration error: "@,
            HyperFindError::IndexError(_) => "Index error: "@,
            HyperFindError::ScanError(_) => "Scan error: "@,
            HyperFindError::SearchError(_) => "Search error: "@,
            HyperFindError::ParseError(_) => "Parse error: "@,
            HyperFindError::WatcherError(_) => "Watcher error: "@,
            HyperFindError::IoError(_) => "IO error: "@,
            HyperFindError::SerializationError(_) => "Serialization error: "@,
            HyperFindError::PlatformError(_) => "Platform error: "@,
            HyperFindError::PluginError(_) => "Plugin error: "@,
            HyperFindError::ContentError(_) => "Content error: "@,
            HyperFindError::InternalError(_) => "Internal error: "@,
        }
    }

    /// The detail the error carries.
    pub open spec fn detail(&self) -> Seq<char> {
        match self {
            HyperFindError::ConfigError(s) => s@,
            HyperFindError::IndexError(s) => s@,
            HyperFindError::ScanError(s) => s@,
            HyperFindError::SearchError(s) => s@,
            HyperFindError::ParseError(s) => s@,
            HyperFindError::WatcherError(s) => s@,
            HyperFindError::IoError(s) => s@,
            HyperFindError::SerializationError(s) => s@,
            HyperFindError::PlatformError(s) => s@,
            HyperFindError::PluginError(s) => s@,
            HyperFindError::ContentError(s) => s@,
            HyperFindError::InternalError(s) => s@,
        }
    }

    /// The text of the error: its label, then its detail.
    pub fn message(&self) -> (r: String)
        ensures
            r@ == self.label() + self.detail(),
    {
        let (label, detail) = match self {
            HyperFindError::ConfigError(s) => ("Configuration error: ", s),
            HyperFindError::IndexError(s) => ("Index error: ", s),
            HyperFindError::ScanError(s) => ("Scan error: ", s),
            HyperFindError::SearchError(s) => ("Search error: ", s),
            HyperFindError::ParseError(s) => ("Parse error: ", s),
            HyperFindError::WatcherError(s) => ("Watcher error: ", s),
            HyperFindError::IoError(s) => ("IO error: ", s),
            HyperFindError::SerializationError(s) => ("Serialization error: ", s),
            HyperFindError::PlatformError(s) => ("Platform error: ", s),
            HyperFindError::PluginError(s) => ("Plugin error: ", s),
            HyperFindError::ContentError(s) => ("Content error: ", s),
            HyperFindError::InternalError(s) => ("Internal error: ", s),
        };
        proof {
            reveal_strlit("Configuration error: ");
        }
        let mut out = String::from_str(label);
        out.append(detail.as_str());
        out
    }
}

} // verus!
