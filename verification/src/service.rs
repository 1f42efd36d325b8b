//! The search service: the document store with its indexes and the
//! configuration, answering queries with the documents that match.

use roaring::RoaringTreemap;
use vstd::prelude::*;
use vstd::string::*;

use crate::codes::code_set;
use crate::config::validate_directory;
use crate::dsl::filters_view;
use crate::filters::{bitmap_filter_set, compile_bitmap_filter, compile_post_filter, path_holds};
use crate::index_store::{IndexStore, lookup_ids};
use crate::matcher::{match_document, match_of, MatchResult};
use crate::models::{HyperFindError, AppConfig, DocView, FileDocument, IndexStats, IndexedDirectory, SearchFilters, SearchQuery, docs_seq, texts, ts_lt};
use crate::stdx::unicode_lowercase;
use crate::treemap::{treemap_contents, treemap_and_assign, treemap_new, treemap_to_vec, treemap_valid};
use crate::trigram::query_set;

verus! {

/// A document that answers a query, with how it matched.
#[derive(Clone, Debug)]
pub struct Hit {
    pub document: FileDocument,
    pub result: MatchResult,
}

/// The documents that a keyword's trigrams allow: none for a keyword
/// without trigram codes.
pub open spec fn keyword_ids(tri: Map<u32, Set<u64>>, k: Seq<char>) -> Set<u64> {
    if code_set(k) == Set::<u32>::empty() {
        Set::empty()
    } else {
        query_set(tri, code_set(k))
    }
}

/// The documents that the first `i` keywords all allow (`i` at least 1).
pub open spec fn keywords_ids(tri: Map<u32, Set<u64>>, kws: Seq<Seq<char>>, i: int) -> Set<u64>
    decreases i,
{
    if i <= 1 {
        keyword_ids(tri, kws[0])
    } else {
        keywords_ids(tri, kws, i - 1).intersect(keyword_ids(tri, kws[i - 1]))
    }
}

/// The candidates of the keywords, or `None` without keywords.
pub open spec fn trigram_candidates(tri: Map<u32, Set<u64>>, kws: Seq<Seq<char>>) -> Option<Set<u64>> {
    if kws.len() == 0 {
        None
    } else {
        Some(keywords_ids(tri, kws, kws.len() as int))
    }
}

/// The candidates of the filters and of the keywords together; `None`
/// when neither narrows the documents.
pub open spec fn candidate_set(bm: Option<Set<u64>>, tri: Option<Set<u64>>) -> Option<Set<u64>> {
    match (bm, tri) {
        (Some(a), Some(b)) => Some(a.intersect(b)),
        (Some(a), None) => Some(a),
        (None, Some(b)) => Some(b),
        (None, None) => None,
    }
}

/// Whether a document passes the per-document filters of a query.
pub open spec fn filters_accept(f: SearchFilters, d: DocView) -> bool {
    &&& (f.path_contains matches Some(p) ==> path_holds(d.path, unicode_lowercase(p@)))
    &&& (f.size_min matches Some(m) ==> d.size >= m)
    &&& (f.size_max matches Some(m) ==> d.size <= m)
    &&& (f.modified_after matches Some(a) ==> !ts_lt(d.modified, a))
    &&& (f.modified_before matches Some(b) ==> !ts_lt(b, d.modified))
}

/// The hits among documents: those the filters accept and that match
/// every keyword, in order.
pub open spec fn hits_of(ds: Seq<DocView>, f: SearchFilters, kws: Seq<Seq<char>>) -> Seq<(DocView, MatchResult)>
    decreases ds.len(),
{
    if ds.len() == 0 {
        Seq::empty()
    } else {
        let rest = hits_of(ds.drop_last(), f, kws);
        let d = ds.last();
        let m = match_of(d.name, d.path, kws);
        if filters_accept(f, d) && (m.matched || kws.len() == 0) {
            rest.push((d, m))
        } else {
            rest
        }
    }
}

/// Every hit passes the filters, and matches every keyword when there are
/// keywords.
pub proof fn lemma_hits_satisfy_query(ds: Seq<DocView>, f: SearchFilters, kws: Seq<Seq<char>>)
    ensures
        forall|k: int| 0 <= k < hits_of(ds, f, kws).len() ==> filters_accept(f, (#[trigger] hits_of(ds, f, kws)[k]).0)
            && (hits_of(ds, f, kws)[k].1.matched || kws.len() == 0),
    decreases ds.len(),
{
    if ds.len() > 0 {
        lemma_hits_satisfy_query(ds.drop_last(), f, kws);
        let rest = hits_of(ds.drop_last(), f, kws);
        let all = hits_of(ds, f, kws);
        assert forall|k: int| 0 <= k < all.len() implies filters_accept(f, (#[trigger] all[k]).0) && (all[k].1.matched
            || kws.len() == 0) by {
            if k < rest.len() {
                assert(all[k] == rest[k]);
            }
        }
    }
}

/// The views of hits.
pub open spec fn hits_view(hs: Seq<Hit>) -> Seq<(DocView, MatchResult)> {
    hs.map_values(|h: Hit| (h.document@, h.result))
}

/// Strictly increasing.
pub open spec fn increasing(ids: Seq<u64>) -> bool {
    forall|i: int, j: int| 0 <= i < j < ids.len() ==> ids[i] < ids[j]
}

/// The number of directories among documents.
pub open spec fn dir_count(ds: Seq<DocView>) -> nat
    decreases ds.len(),
{
    if ds.len() == 0 {
        0
    } else {
        dir_count(ds.drop_last()) + if ds.last().is_dir { 1nat } else { 0nat }
    }
}

/// The summed sizes of documents.
pub open spec fn size_total(ds: Seq<DocView>) -> nat
    decreases ds.len(),
{
    if ds.len() == 0 {
        0
    } else {
        size_total(ds.drop_last()) + ds.last().size as nat
    }
}

/// The paths of configured directories.
pub open spec fn dir_paths(ds: Seq<IndexedDirectory>) -> Seq<Seq<char>> {
    ds.map_values(|d: IndexedDirectory| d.path@)
}

/// The paths of the enabled directories, in order.
pub open spec fn enabled_paths(ds: Seq<IndexedDirectory>) -> Seq<Seq<char>>
    decreases ds.len(),
{
    if ds.len() == 0 {
        Seq::empty()
    } else if ds.last().enabled {
        enabled_paths(ds.drop_last()).push(ds.last().path@)
    } else {
        enabled_paths(ds.drop_last())
    }
}

/// The directories other than `path`, in order.
pub open spec fn without_path(ds: Seq<IndexedDirectory>, path: Seq<char>) -> Seq<(Seq<char>, bool)>
    decreases ds.len(),
{
    if ds.len() == 0 {
        Seq::empty()
    } else if ds.last().path@ == path {
        without_path(ds.drop_last(), path)
    } else {
        without_path(ds.drop_last(), path).push((ds.last().path@, ds.last().enabled))
    }
}

/// The paths and flags of configured directories.
pub open spec fn dir_entries(ds: Seq<IndexedDirectory>) -> Seq<(Seq<char>, bool)> {
    ds.map_values(|d: IndexedDirectory| (d.path@, d.enabled))
}

/// A copy of a configured directory.
pub fn copy_directory(d: &IndexedDirectory) -> (r: IndexedDirectory)
    ensures
        r.path@ == d.path@,
        r.enabled == d.enabled,
{
    IndexedDirectory { path: d.path.clone(), enabled: d.enabled }
}

/// A copy of a list of strings.
pub fn copy_strings(v: &Vec<String>) -> (r: Vec<String>)
    ensures
        texts(r@) == texts(v@),
{
    let mut out: Vec<String> = Vec::new();
    let mut i: usize = 0;
    while i < v.len()
        invariant
            i <= v@.len(),
            out@.len() == i,
            texts(out@) == texts(v@.subrange(0, i as int)),
        decreases v@.len() - i,
    {
        let ghost before = out@;
        out.push(v[i].clone());
        assert forall|k: int| 0 <= k < i + 1 implies #[trigger] texts(out@)[k] == texts(v@.subrange(0, i + 1))[k] by {
            if k < i {
                assert(out@[k] == before[k]);
                assert(texts(before)[k] == texts(v@.subrange(0, i as int))[k]);
            }
        }
        assert(texts(out@) =~= texts(v@.subrange(0, i + 1)));
        i += 1;
    }
    assert(v@.subrange(0, v@.len() as int) =~= v@);
    out
}

/// A copy of a configuration.
pub fn copy_config(c: &AppConfig) -> (r: AppConfig)
    ensures
        dir_entries(r.directories@) == dir_entries(c.directories@),
        texts(r.excluded_patterns@) == texts(c.excluded_patterns@),
        r.default_result_limit == c.default_result_limit,
        r.auto_watch == c.auto_watch,
        r.auto_rebuild == c.auto_rebuild,
        r.index_content == c.index_content,
        r.content_max_size == c.content_max_size,
        texts(r.content_extensions@) == texts(c.content_extensions@),
{
    let mut dirs: Vec<IndexedDirectory> = Vec::new();
    let mut i: usize = 0;
    while i < c.directories.len()
        invariant
            i <= c.directories@.len(),
            dirs@.len() == i,
            dir_entries(dirs@) == dir_entries(c.directories@.subrange(0, i as int)),
        decreases c.directories@.len() - i,
    {
        let ghost before = dirs@;
        dirs.push(copy_directory(&c.directories[i]));
        assert forall|k: int| 0 <= k < i + 1 implies #[trigger] dir_entries(dirs@)[k] == dir_entries(
            c.directories@.subrange(0, i + 1),
        )[k] by {
            if k < i {
                assert(dirs@[k] == before[k]);
                assert(dir_entries(before)[k] == dir_entries(c.directories@.subrange(0, i as int))[k]);
            }
        }
        assert(dir_entries(dirs@) =~= dir_entries(c.directories@.subrange(0, i + 1)));
        i += 1;
    }
    assert(c.directories@.subrange(0, c.directories@.len() as int) =~= c.directories@);
    AppConfig {
        directories: dirs,
        excluded_patterns: copy_strings(&c.excluded_patterns),
        default_result_limit: c.default_result_limit,
        auto_watch: c.auto_watch,
        auto_rebuild: c.auto_rebuild,
        index_content: c.index_content,
        content_max_size: c.content_max_size,
        content_extensions: copy_strings(&c.content_extensions),
    }
}

/// The document store and the configuration.
pub struct SearchService {
    index_store: IndexStore,
    config: AppConfig,
}

impl SearchService {
    /// The store.
    pub closed spec fn store(&self) -> IndexStore {
        self.index_store
    }

    /// The configuration.
    pub closed spec fn config(&self) -> AppConfig {
        self.config
    }

    /// The store is well formed.
    pub open spec fn wf(&self) -> bool {
        self.store().wf()
    }

    /// A service with an empty store.
    pub fn new(config: AppConfig) -> (r: Self)
        ensures
            r.wf(),
            r.store().model().docs.len() == 0,
            r.config() == config,
    {
        SearchService { index_store: IndexStore::new(), config }
    }

    /// The store.
    pub fn index_store(&self) -> (r: &IndexStore)
        ensures
            *r == self.store(),
    {
        &self.index_store
    }

    /// The store, to change.
    pub fn index_store_mut(&mut self) -> (r: &mut IndexStore)
        ensures
            *r == old(self).store(),
            final(self).store() == *final(r),
            final(self).config() == old(self).config(),
    {
        &mut self.index_store
    }

    /// A copy of the configuration.
    pub fn get_config(&self) -> (r: AppConfig)
        ensures
            dir_entries(r.directories@) == dir_entries(self.config().directories@),
            texts(r.excluded_patterns@) == texts(self.config().excluded_patterns@),
            r.default_result_limit == self.config().default_result_limit,
            r.auto_watch == self.config().auto_watch,
            r.auto_rebuild == self.config().auto_rebuild,
            r.index_content == self.config().index_content,
            r.content_max_size == self.config().content_max_size,
            texts(r.content_extensions@) == texts(self.config().content_extensions@),
    {
        copy_config(&self.config)
    }

    /// Replaces the configuration.
    pub fn update_config(&mut self, new_config: AppConfig)
        ensures
            final(self).config() == new_config,
            final(self).store() == old(self).store(),
    {
        self.config = new_config;
    }

    /// The paths of the enabled directories.
    pub fn enabled_directories(&self) -> (r: Vec<String>)
        ensures
            texts(r@) == enabled_paths(self.config().directories@),
    {
        let ds = &self.config.directories;
        let mut out: Vec<String> = Vec::new();
        let mut i: usize = 0;
        assert(ds@.take(0) =~= Seq::<IndexedDirectory>::empty());
        assert(texts(out@) =~= Seq::<Seq<char>>::empty());
        while i < ds.len()
            invariant
                i <= ds@.len(),
                texts(out@) == enabled_paths(ds@.take(i as int)),
            decreases ds@.len() - i,
        {
            assert(ds@.take(i + 1).drop_last() =~= ds@.take(i as int));
            if ds[i].enabled {
                let ghost before = texts(out@);
                out.push(ds[i].path.clone());
                assert(texts(out@) =~= before.push(ds@[i as int].path@));
            }
            i += 1;
        }
        assert(ds@.take(ds@.len() as int) =~= ds@);
        out
    }

    /// Adds a directory to index, enabled, after checking it (given what
    /// the file system says of it) and that it is not configured already.
    pub fn add_directory(&mut self, path: &str, exists: bool, is_dir: bool) -> (r: Result<(), HyperFindError>)
        ensures
            final(self).store() == old(self).store(),
            !exists ==> (r matches Err(e) && crate::config::is_config_error(e, "Directory does not exist: "@ + path@)),
            exists && !is_dir ==> (r matches Err(e) && crate::config::is_config_error(e, "Path is not a directory: "@
                + path@)),
            exists && is_dir && dir_paths(old(self).config().directories@).contains(path@) ==> (r matches Err(e)
                && crate::config::is_config_error(e, "Already configured: "@ + path@)),
            r is Err ==> final(self).config() == old(self).config(),
            exists && is_dir && !dir_paths(old(self).config().directories@).contains(path@) ==> {
                &&& r is Ok
                &&& dir_entries(final(self).config().directories@) == dir_entries(old(self).config().directories@).push(
                    (path@, true),
                )
            },
    {
        match validate_directory(path, exists, is_dir) {
            Err(e) => return Err(e),
            Ok(()) => {},
        }
        let ghost ps = dir_paths(self.config.directories@);
        let mut i: usize = 0;
        while i < self.config.directories.len()
            invariant
                ps == dir_paths(self.config.directories@),
                exists && is_dir,
                i <= self.config.directories@.len(),
                forall|k: int| 0 <= k < i ==> ps[k] != path@,
            decreases self.config.directories@.len() - i,
        {
            if crate::text::str_eq(self.config.directories[i].path.as_str(), path) {
                assert(ps[i as int] == path@);
                let mut m = String::from_str("Already configured: ");
                m.append(path);
                return Err(HyperFindError::ConfigError(m));
            }
            i += 1;
        }
        assert(!ps.contains(path@));
        let ghost before = dir_entries(self.config.directories@);
        self.config.directories.push(IndexedDirectory { path: String::from_str(path), enabled: true });
        assert(dir_entries(self.config.directories@) =~= before.push((path@, true)));
        Ok(())
    }

    /// Drops every configured directory with path `path`.
    pub fn remove_directory(&mut self, path: &str)
        ensures
            final(self).store() == old(self).store(),
            dir_entries(final(self).config().directories@) == without_path(old(self).config().directories@, path@),
    {
        let ds = &self.config.directories;
        let mut kept: Vec<IndexedDirectory> = Vec::new();
        let mut i: usize = 0;
        assert(ds@.take(0) =~= Seq::<IndexedDirectory>::empty());
        assert(dir_entries(kept@) =~= Seq::<(Seq<char>, bool)>::empty());
        while i < ds.len()
            invariant
                i <= ds@.len(),
                dir_entries(kept@) == without_path(ds@.take(i as int), path@),
            decreases ds@.len() - i,
        {
            assert(ds@.take(i + 1).drop_last() =~= ds@.take(i as int));
            if !crate::text::str_eq(ds[i].path.as_str(), path) {
                let ghost before = dir_entries(kept@);
                kept.push(copy_directory(&ds[i]));
                assert(dir_entries(kept@) =~= before.push((ds@[i as int].path@, ds@[i as int].enabled)));
            }
            i += 1;
        }
        assert(ds@.take(ds@.len() as int) =~= ds@);
        self.config.directories = kept;
    }

    /// Counts of the store: documents, files, directories and their summed
    /// size, the configured roots, the number of trigram codes, one
    /// segment, and `index_size` bytes on disk.
    pub fn compute_stats(&self, index_size: u64) -> (r: IndexStats)
        requires
            self.wf(),
            size_total(self.store().model().docs) <= u64::MAX,
        ensures
            r.total_documents == self.store().model().docs.len(),
            r.total_directories == dir_count(self.store().model().docs),
            r.total_files == self.store().model().docs.len() - dir_count(self.store().model().docs),
            r.total_size_bytes == size_total(self.store().model().docs),
            texts(r.indexed_roots@) == dir_paths(self.config().directories@),
            r.last_scan is None && r.last_update is None,
            r.trigram_count == self.store().trigram_view().dom().len(),
            r.segment_count == 1,
            r.index_size_bytes == index_size,
    {
        let docs = self.index_store.all_documents();
        let ghost ds = docs_seq(docs@);
        let mut files: u64 = 0;
        let mut dirs: u64 = 0;
        let mut total: u64 = 0;
        let mut i: usize = 0;
        assert(ds.take(0) =~= Seq::<DocView>::empty());
        while i < docs.len()
            invariant
                ds == docs_seq(docs@),
                ds == self.store().model().docs,
                size_total(ds) <= u64::MAX,
                i <= docs@.len(),
                dirs == dir_count(ds.take(i as int)),
                files + dirs == i,
                total == size_total(ds.take(i as int)),
            decreases docs@.len() - i,
        {
            assert(ds.take(i + 1).drop_last() =~= ds.take(i as int));
            assert(ds[i as int] == docs@[i as int]@);
            proof {
                lemma_size_total_prefix(ds, i + 1);
            }
            if docs[i].is_dir {
                dirs = dirs + 1;
            } else {
                files = files + 1;
            }
            total = total + docs[i].size;
            i += 1;
        }
        assert(ds.take(docs@.len() as int) =~= ds);
        let roots = self.directory_paths();
        IndexStats {
            total_documents: docs.len() as u64,
            total_files: files,
            total_directories: dirs,
            total_size_bytes: total,
            indexed_roots: roots,
            last_scan: None,
            last_update: None,
            trigram_count: self.index_store.trigram_index().trigram_count(),
            segment_count: 1,
            index_size_bytes: index_size,
        }
    }

    /// The paths of all configured directories.
    pub fn directory_paths(&self) -> (r: Vec<String>)
        ensures
            texts(r@) == dir_paths(self.config().directories@),
    {
        let ds = &self.config.directories;
        let mut out: Vec<String> = Vec::new();
        let mut i: usize = 0;
        while i < ds.len()
            invariant
                i <= ds@.len(),
                out@.len() == i,
                texts(out@) == dir_paths(ds@.subrange(0, i as int)),
            decreases ds@.len() - i,
        {
            let ghost before = out@;
            out.push(ds[i].path.clone());
            assert forall|k: int| 0 <= k < i + 1 implies #[trigger] texts(out@)[k] == dir_paths(ds@.subrange(0, i + 1))[k] by {
                if k < i {
                    assert(out@[k] == before[k]);
                    assert(texts(before)[k] == dir_paths(ds@.subrange(0, i as int))[k]);
                }
            }
            assert(texts(out@) =~= dir_paths(ds@.subrange(0, i + 1)));
            i += 1;
        }
        assert(ds@.subrange(0, ds@.len() as int) =~= ds@);
        out
    }

    /// The candidates of a query's keywords (see `trigram_candidates`).
    fn keyword_candidates(&self, keywords: &Vec<String>) -> (r: Option<RoaringTreemap>)
        requires
            self.wf(),
        ensures
            match trigram_candidates(self.store().trigram_view(), texts(keywords@)) {
                Some(s) => r matches Some(t) && treemap_contents(t) == s && treemap_valid(t),
                None => r is None,
            },
    {
        let ghost kws = texts(keywords@);
        let ghost tri = self.store().trigram_view();
        if keywords.len() == 0 {
            return None;
        }
        let mut acc = self.keyword_set(keywords[0].as_str());
        assert(kws[0] == keywords@[0]@);
        let mut i: usize = 1;
        while i < keywords.len()
            invariant
                kws == texts(keywords@),
                tri == self.store().trigram_view(),
                self.wf(),
                1 <= i <= keywords@.len(),
                treemap_contents(acc) == keywords_ids(tri, kws, i as int),
                treemap_valid(acc),
            decreases keywords@.len() - i,
        {
            let next = self.keyword_set(keywords[i].as_str());
            assert(kws[i as int] == keywords@[i as int]@);
            treemap_and_assign(&mut acc, &next);
            i += 1;
        }
        Some(acc)
    }

    /// The documents a keyword's trigrams allow (see `keyword_ids`).
    fn keyword_set(&self, keyword: &str) -> (r: RoaringTreemap)
        requires
            self.wf(),
        ensures
            treemap_contents(r) == keyword_ids(self.store().trigram_view(), keyword@),
            treemap_valid(r),
    {
        match self.index_store.trigram_index().query_bitmap(keyword) {
            Some(t) => t,
            None => treemap_new(),
        }
    }

    /// The documents that answer a parsed query, in store order or in
    /// increasing id order of the candidates: those that the bitmap and
    /// trigram indexes allow, that the per-document filters accept, and
    /// that match every keyword (see `hits_of`).
    pub fn search_hits(&self, query: &SearchQuery) -> (r: Vec<Hit>)
        requires
            self.wf(),
        ensures
            match candidate_set(
                bitmap_filter_set(filters_view(query.filters), self.store().bitmap_view()),
                trigram_candidates(self.store().trigram_view(), texts(query.keywords@)),
            ) {
                Some(s) => exists|ids: Seq<u64>| #[trigger] increasing(ids) && ids.to_set() == s && hits_view(r@)
                    == hits_of(lookup_ids(self.store().model(), ids), query.filters, texts(query.keywords@)),
                None => hits_view(r@) == hits_of(self.store().model().docs, query.filters, texts(query.keywords@)),
            },
    {
        let bm = compile_bitmap_filter(&query.filters, self.index_store.bitmap_index());
        let tri = self.keyword_candidates(&query.keywords);
        let cand: Option<RoaringTreemap> = match (bm, tri) {
            (Some(a), Some(b)) => {
                let mut a = a;
                treemap_and_assign(&mut a, &b);
                Some(a)
            },
            (Some(a), None) => Some(a),
            (None, Some(b)) => Some(b),
            (None, None) => None,
        };
        let post = compile_post_filter(&query.filters);
        let ghost ids_used: Seq<u64>;
        let docs = match &cand {
            Some(t) => {
                let ids = treemap_to_vec(t);
                proof {
                    ids_used = ids@;
                    assert(ids@.to_set() =~= treemap_contents(*t));
                }
                self.index_store.get_by_ids(ids.as_slice())
            },
            None => {
                proof {
                    ids_used = Seq::empty();
                }
                self.index_store.all_documents()
            },
        };
        let ghost ds = docs_seq(docs@);
        let ghost kws = texts(query.keywords@);
        let mut out: Vec<Hit> = Vec::new();
        let mut i: usize = 0;
        assert(ds.take(0) =~= Seq::<DocView>::empty());
        assert(hits_view(out@) =~= Seq::<(DocView, MatchResult)>::empty());
        while i < docs.len()
            invariant
                ds == docs_seq(docs@),
                kws == texts(query.keywords@),
                post.path_contains_lower matches Some(n) ==> query.filters.path_contains matches Some(p) && n@
                    == unicode_lowercase(p@),
                post.path_contains_lower is None ==> query.filters.path_contains is None,
                post.size_min == query.filters.size_min,
                post.size_max == query.filters.size_max,
                post.modified_after == query.filters.modified_after,
                post.modified_before == query.filters.modified_before,
                i <= docs@.len(),
                hits_view(out@) == hits_of(ds.take(i as int), query.filters, kws),
            decreases docs@.len() - i,
        {
            let d = &docs[i];
            assert(ds.take(i + 1).drop_last() =~= ds.take(i as int));
            assert(ds[i as int] == d@);
            let ok = post.matches(d);
            assert(ok == filters_accept(query.filters, d@));
            if ok {
                let m = match_document(d, query.keywords.as_slice());
                if m.matched || query.keywords.len() == 0 {
                    let ghost before = hits_view(out@);
                    out.push(Hit { document: d.copy(), result: m });
                    assert(hits_view(out@) =~= before.push((d@, m)));
                }
            }
            i += 1;
        }
        assert(ds.take(docs@.len() as int) =~= ds);
        proof {
            if cand is Some {
                assert(increasing(ids_used));
            }
        }
        out
    }
}

proof fn lemma_size_total_prefix(ds: Seq<DocView>, i: int)
    requires
        0 <= i <= ds.len(),
    ensures
        size_total(ds.take(i)) <= size_total(ds),
    decreases ds.len() - i,
{
    if i < ds.len() {
        lemma_size_total_prefix(ds, i + 1);
        assert(ds.take(i + 1).drop_last() =~= ds.take(i));
    } else {
        assert(ds.take(i) =~= ds);
    }
}

} // verus!
