//! The pure parts of scanning a directory tree: which paths are skipped,
//! which roots are drives, and the document made for each entry.

use vstd::prelude::*;
use vstd::string::*;
use crate::document::{IdCounter, next_id};
use crate::models::{DocView, FileDocument, Timestamp, texts};
use crate::paths::{extract_file_name, extract_parent, extract_extension, normalize_path, normalized, normalized_path,
    path_file_name, path_parent, is_main_separator, or_empty_chars, extension_text};
use crate::text::{eq_both_lower, eq_ignore_ascii_case, normalize_string, chars_of};

verus! {

/// Whether one of the path's components equals one of the patterns, ASCII
/// letters compared case-insensitively.
pub open spec fn components_excluded(components: Seq<Seq<char>>, patterns: Seq<Seq<char>>) -> bool {
    exists|i: int, j: int| 0 <= i < components.len() && 0 <= j < patterns.len() && eq_both_lower(
        vstd::utf8::encode_utf8(#[trigger] components[i]),
        vstd::utf8::encode_utf8(#[trigger] patterns[j]),
    )
}

/// Whether a path, given by its components, is excluded from scanning (see
/// `components_excluded`).
pub fn should_exclude(components: &[String], patterns: &[String]) -> (r: bool)
    ensures
        r == components_excluded(texts(components@), texts(patterns@)),
{
    let ghost cs = texts(components@);
    let ghost ps = texts(patterns@);
    let mut i: usize = 0;
    while i < components.len()
        invariant
            cs == texts(components@),
            ps == texts(patterns@),
            i <= components@.len(),
            forall|a: int, b: int| 0 <= a < i && 0 <= b < ps.len() ==> !eq_both_lower(
                vstd::utf8::encode_utf8(#[trigger] cs[a]),
                vstd::utf8::encode_utf8(#[trigger] ps[b]),
            ),
        decreases components@.len() - i,
    {
        let mut j: usize = 0;
        while j < patterns.len()
            invariant
                cs == texts(components@),
                ps == texts(patterns@),
                i < components@.len(),
                j <= patterns@.len(),
                forall|b: int| 0 <= b < j ==> !eq_both_lower(
                    vstd::utf8::encode_utf8(cs[i as int]),
                    vstd::utf8::encode_utf8(#[trigger] ps[b]),
                ),
            decreases patterns@.len() - j,
        {
            assert(cs[i as int] == components@[i as int]@ && ps[j as int] == patterns@[j as int]@);
            if eq_ignore_ascii_case(components[i].as_str(), patterns[j].as_str()) {
                return true;
            }
            j += 1;
        }
        i += 1;
    }
    false
}

/// `s` without its trailing `\` and `/` characters.
pub open spec fn trim_separators_end(s: Seq<char>) -> Seq<char>
    decreases s.len(),
{
    if s.len() > 0 && (s.last() == '\\' || s.last() == '/') {
        trim_separators_end(s.drop_last())
    } else {
        s
    }
}

/// An ASCII letter.
pub open spec fn is_ascii_letter(c: char) -> bool {
    ('a' <= c && c <= 'z') || ('A' <= c && c <= 'Z')
}

/// The upper-case drive letter of a path such as `C:`, `c:\` or `C:/x`:
/// the path, without trailing separators, starts with a letter and `:`.
pub open spec fn drive_letter_of(path: Seq<char>) -> Option<char> {
    let t = trim_separators_end(path);
    if t.len() >= 2 && t[1] == ':' && is_ascii_letter(t[0]) {
        Some(if 'a' <= t[0] && t[0] <= 'z' { ((t[0] as u32) - 32) as char } else { t[0] })
    } else {
        None
    }
}

/// The drive letter of a Windows root path (see `drive_letter_of`).
pub fn try_extract_drive_letter(path: &str) -> (r: Option<char>)
    ensures
        r == drive_letter_of(path@),
{
    let cs = chars_of(path);
    let mut end: usize = cs.len();
    assert(cs@.subrange(0, end as int) =~= cs@);
    while end > 0 && (cs[end - 1] == '\\' || cs[end - 1] == '/')
        invariant
            cs@ == path@,
            end <= cs@.len(),
            trim_separators_end(path@) == trim_separators_end(cs@.subrange(0, end as int)),
        decreases end,
    {
        assert(cs@.subrange(0, end as int).drop_last() =~= cs@.subrange(0, end - 1));
        end -= 1;
    }
    let ghost t = cs@.subrange(0, end as int);
    assert(trim_separators_end(t) == t);
    if end >= 2 && cs[1] == ':' && (('a' <= cs[0] && cs[0] <= 'z') || ('A' <= cs[0] && cs[0] <= 'Z')) {
        let c = cs[0];
        if 'a' <= c && c <= 'z' {
            let b = c as u8;
            Some((b - 32) as char)
        } else {
            Some(c)
        }
    } else {
        None
    }
}

/// The document of a scanned entry (see `build_document`), the path read
/// on platforms whose main separators are `s1` (for the name), `s2` (for
/// the parent) and `s3` (for the extension).
pub open spec fn entry_document(path: Seq<char>, windows: bool, id: u64, is_dir: bool, len: u64, modified: Timestamp,
    s1: char, s2: char, s3: char) -> DocView {
    let name = or_empty_chars(path_file_name(path, s1));
    DocView {
        id,
        name,
        name_lower: normalized(name),
        path: normalized_path(path, windows),
        parent: or_empty_chars(path_parent(path, s2)),
        extension: extension_text(path_file_name(path, s3)),
        size: if is_dir { 0 } else { len },
        modified,
        is_dir,
        content_hash: None,
    }
}

/// A scanned directory gets size 0 and a scanned file the length that its
/// metadata gives; the entry type, the modification time and the id are
/// those given, whatever the separators.
pub proof fn lemma_entry_document_size(path: Seq<char>, windows: bool, id: u64, is_dir: bool, len: u64,
    modified: Timestamp, s1: char, s2: char, s3: char)
    ensures
        ({
            let d = entry_document(path, windows, id, is_dir, len, modified, s1, s2, s3);
            &&& is_dir ==> d.size == 0
            &&& !is_dir ==> d.size == len
            &&& d.is_dir == is_dir
            &&& d.modified == modified
            &&& d.id == id
            &&& d.content_hash is None
        }),
{
}

/// The document of a scanned entry, given what its metadata says: the
/// normalised path, the file name and its lower-cased form, the parent,
/// the lower-cased extension, the size (0 for a directory), the
/// modification time, and the next id of the counter.
pub fn build_document(path: &str, windows: bool, is_dir: bool, len: u64, modified: Timestamp, counter: &mut IdCounter)
    -> (r: FileDocument)
    ensures
        exists|s1: char, s2: char, s3: char| is_main_separator(s1) && is_main_separator(s2) && is_main_separator(s3)
            && r@ == entry_document(path@, windows, old(counter)@, is_dir, len, modified, s1, s2, s3),
        final(counter)@ == (if old(counter)@ == u64::MAX { 0 } else { (old(counter)@ + 1) as u64 }),
        is_dir ==> r.size == 0,
        !is_dir ==> r.size == len,
        r.is_dir == is_dir,
        r.id == old(counter)@,
{
    let full_path = normalize_path(path, windows);
    let name = extract_file_name(path);
    let parent = extract_parent(path);
    let extension = extract_extension(path);
    let ghost s1 = choose|s: char| is_main_separator(s) && name@ == or_empty_chars(path_file_name(path@, s));
    let ghost s2 = choose|s: char| is_main_separator(s) && parent@ == or_empty_chars(path_parent(path@, s));
    let ghost s3 = choose|s: char| is_main_separator(s) && extension@ == extension_text(path_file_name(path@, s));
    let name_lower = normalize_string(name.as_str());
    let id = next_id(counter);
    let r = FileDocument {
        id,
        name,
        name_lower,
        path: full_path,
        parent,
        extension,
        size: if is_dir { 0 } else { len },
        modified,
        is_dir,
        content_hash: None,
    };
    assert(r@ == entry_document(path@, windows, old(counter)@, is_dir, len, modified, s1, s2, s3));
    r
}

} // verus!
