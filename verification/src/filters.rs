//! Compiling query filters: extension and entry type against the bitmap
//! index, the rest as a check on each document.

use roaring::RoaringTreemap;
use vstd::prelude::*;
use vstd::string::*;
use vstd::utf8::{encode_utf8, is_ascii_chars};
use crate::bitmap::{BitmapIndex, BitmapModel};
use crate::dsl::{FiltersView, filters_view};
use crate::matcher::contains_bytes;
use crate::models::{EntryType, FileDocument, DocView, SearchFilters, Timestamp, ts_lt};
use crate::stdx::{to_lowercase, unicode_lowercase};
use crate::text::{ascii_lower_chars, contains_lower, ascii_contains_ignore_case};
use crate::treemap::{treemap_contents, treemap_new, treemap_clone, treemap_and, treemap_valid};

verus! {

/// The documents of an entry type.
pub open spec fn type_set(et: EntryType, m: BitmapModel) -> Set<u64> {
    match et {
        EntryType::File => m.1,
        EntryType::Directory => m.2,
    }
}

/// The documents the bitmap filters allow, or `None` when they allow every
/// document: an unknown extension allows none, and an entry type narrows
/// what the extension allows.
pub open spec fn bitmap_filter_set(f: FiltersView, m: BitmapModel) -> Option<Set<u64>> {
    match f.extension {
        Some(e) => {
            let k = ascii_lower_chars(e);
            if !m.0.dom().contains(k) {
                Some(Set::empty())
            } else {
                match f.entry_type {
                    Some(et) => Some(m.0[k].intersect(type_set(et, m))),
                    None => Some(m.0[k]),
                }
            }
        },
        None => match f.entry_type {
            Some(et) => Some(type_set(et, m)),
            None => None,
        },
    }
}

/// The candidate set of the extension and entry-type filters (see
/// `bitmap_filter_set`).
pub fn compile_bitmap_filter(filters: &SearchFilters, bitmap: &BitmapIndex) -> (r: Option<RoaringTreemap>)
    requires
        bitmap.wf(),
    ensures
        match bitmap_filter_set(filters_view(*filters), bitmap@) {
            Some(s) => r matches Some(t) && treemap_contents(t) == s && treemap_valid(t),
            None => r is None,
        },
{
    let mut acc: Option<RoaringTreemap> = None;
    match &filters.extension {
        Some(ext) => {
            match bitmap.get_by_extension_arc(ext.as_str()) {
                Some(t) => {
                    acc = Some(treemap_clone(&*t));
                },
                None => {
                    return Some(treemap_new());
                },
            }
        },
        None => {},
    }
    match &filters.entry_type {
        Some(et) => {
            let set = match et {
                EntryType::File => bitmap.get_files_arc(),
                EntryType::Directory => bitmap.get_dirs_arc(),
            };
            acc = match acc {
                Some(existing) => Some(treemap_and(&existing, &*set)),
                None => Some(treemap_clone(&*set)),
            };
        },
        None => {},
    }
    acc
}

/// The checks made on each document: a path fragment (lower-cased), size
/// bounds and modification-time bounds.
#[derive(Clone, Debug)]
pub struct PostFilter {
    pub path_contains_lower: Option<String>,
    pub size_min: Option<u64>,
    pub size_max: Option<u64>,
    pub modified_after: Option<Timestamp>,
    pub modified_before: Option<Timestamp>,
}

/// Whether a path holds a lower-case fragment: ASCII paths are compared
/// with their letters lower-cased, others after Unicode lower-casing.
pub open spec fn path_holds(path: Seq<char>, needle: Seq<char>) -> bool {
    if is_ascii_chars(path) {
        contains_lower(encode_utf8(path), encode_utf8(needle))
    } else {
        contains_bytes(encode_utf8(unicode_lowercase(path)), encode_utf8(needle))
    }
}

/// The path check ignores case: it accepts a path exactly when the path,
/// lower-cased, holds the needle, for ASCII and non-ASCII paths alike. The
/// premise is what `str::to_lowercase` is documented to do on ASCII text,
/// and what its wrapper states at every call.
pub proof fn lemma_path_holds_lowercase(path: Seq<char>, needle: Seq<char>)
    requires
        is_ascii_chars(path) ==> unicode_lowercase(path) == ascii_lower_chars(path),
    ensures
        path_holds(path, needle) <==> contains_bytes(encode_utf8(unicode_lowercase(path)), encode_utf8(needle)),
{
    if is_ascii_chars(path) {
        crate::text::lemma_ascii_lower_encode(path);
        crate::text::lemma_contains_lower_bytes(encode_utf8(path), encode_utf8(needle));
    }
}

/// Paths that lower-case alike are accepted alike: changing the case of a
/// path never changes what the path check says.
pub proof fn lemma_path_holds_case_blind(a: Seq<char>, b: Seq<char>, needle: Seq<char>)
    requires
        is_ascii_chars(a) ==> unicode_lowercase(a) == ascii_lower_chars(a),
        is_ascii_chars(b) ==> unicode_lowercase(b) == ascii_lower_chars(b),
        unicode_lowercase(a) == unicode_lowercase(b),
    ensures
        path_holds(a, needle) == path_holds(b, needle),
{
    lemma_path_holds_lowercase(a, needle);
    lemma_path_holds_lowercase(b, needle);
}

/// Whether a document passes the checks.
pub open spec fn post_accepts(p: PostFilter, d: DocView) -> bool {
    &&& (p.path_contains_lower matches Some(n) ==> path_holds(d.path, n@))
    &&& (p.size_min matches Some(m) ==> d.size >= m)
    &&& (p.size_max matches Some(m) ==> d.size <= m)
    &&& (p.modified_after matches Some(a) ==> !ts_lt(d.modified, a))
    &&& (p.modified_before matches Some(b) ==> !ts_lt(b, d.modified))
}

/// A filter with a path fragment accepts a document only when the
/// document's lower-cased path holds the fragment; with no other check,
/// exactly then. A size or date bound rejects what lies outside it.
pub proof fn lemma_post_accepts_path(p: PostFilter, d: DocView)
    requires
        is_ascii_chars(d.path) ==> unicode_lowercase(d.path) == ascii_lower_chars(d.path),
    ensures
        p.path_contains_lower matches Some(n) ==> (post_accepts(p, d) ==> contains_bytes(
            encode_utf8(unicode_lowercase(d.path)),
            encode_utf8(n@),
        )),
        p.path_contains_lower matches Some(n) ==> (p.size_min is None && p.size_max is None
            && p.modified_after is None && p.modified_before is None ==> (post_accepts(p, d) <==> contains_bytes(
            encode_utf8(unicode_lowercase(d.path)),
            encode_utf8(n@),
        ))),
        p.size_min matches Some(m) && d.size < m ==> !post_accepts(p, d),
        p.size_max matches Some(m) && d.size > m ==> !post_accepts(p, d),
        p.path_contains_lower is None && p.size_min is None && p.size_max is None && p.modified_after is None
            && p.modified_before is None ==> post_accepts(p, d),
{
    if let Some(n) = p.path_contains_lower {
        lemma_path_holds_lowercase(d.path, n@);
    }
}

/// The checks of a query's filters, the path fragment lower-cased once.
pub fn compile_post_filter(filters: &SearchFilters) -> (r: PostFilter)
    ensures
        match filters.path_contains {
            Some(p) => r.path_contains_lower matches Some(n) && n@ == unicode_lowercase(p@)
                && (is_ascii_chars(p@) ==> n@ == ascii_lower_chars(p@)),
            None => r.path_contains_lower is None,
        },
        r.size_min == filters.size_min,
        r.size_max == filters.size_max,
        r.modified_after == filters.modified_after,
        r.modified_before == filters.modified_before,
{
    let path_contains_lower = match &filters.path_contains {
        Some(p) => Some(to_lowercase(p.as_str())),
        None => None,
    };
    PostFilter {
        path_contains_lower,
        size_min: filters.size_min,
        size_max: filters.size_max,
        modified_after: filters.modified_after,
        modified_before: filters.modified_before,
    }
}

/// Whether `h` holds `n`, byte for byte.
fn contains_str(h: &str, n: &str) -> (r: bool)
    ensures
        r == contains_bytes(h.spec_bytes(), n.spec_bytes()),
{
    match crate::text::bytes_find(h.as_bytes(), n.as_bytes()) {
        Some(i) => true,
        None => false,
    }
}

impl PostFilter {
    /// Whether a document passes every check (see `post_accepts`).
    pub fn matches(&self, doc: &FileDocument) -> (r: bool)
        ensures
            r == post_accepts(*self, doc@),
    {
        match &self.path_contains_lower {
            Some(needle) => {
                let path = doc.path.as_str();
                if path.is_ascii() {
                    if !ascii_contains_ignore_case(path, needle.as_str()) {
                        return false;
                    }
                } else {
                    let lower = to_lowercase(path);
                    if !contains_str(lower.as_str(), needle.as_str()) {
                        return false;
                    }
                }
            },
            None => {},
        }
        match self.size_min {
            Some(min) => {
                if doc.size < min {
                    return false;
                }
            },
            None => {},
        }
        match self.size_max {
            Some(max) => {
                if doc.size > max {
                    return false;
                }
            },
            None => {},
        }
        match self.modified_after {
            Some(after) => {
                if doc.modified.is_before(&after) {
                    return false;
                }
            },
            None => {},
        }
        match self.modified_before {
            Some(before) => {
                if before.is_before(&doc.modified) {
                    return false;
                }
            },
            None => {},
        }
        true
    }
}

} // verus!
