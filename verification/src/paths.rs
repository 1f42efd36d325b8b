//! Path texts: the application's directories, and the name, extension and
//! parent of a file path.

use vstd::prelude::*;
use vstd::string::*;
use vstd::utf8::is_ascii_chars;
use crate::models::opt_text;
use crate::stdx::{push_char, unicode_lowercase};
use crate::text::{chars_of, normalize_string, lower_char, string_of_chars, last_index_of, lemma_last_index_range,
    find_last};

verus! {

/// A main path separator: `\` on Windows, `/` elsewhere.
pub open spec fn is_main_separator(c: char) -> bool {
    c == '/' || c == '\\'
}

/// What `Path::join` gives for a base and a relative part on a platform
/// whose main separator is `sep`.
pub uninterp spec fn path_joined(base: Seq<char>, part: Seq<char>, sep: char) -> Seq<char>;

/// What `Path::file_name` gives on a platform whose main separator is
/// `sep`: the last component, unless it is `..`.
pub uninterp spec fn path_file_name(path: Seq<char>, sep: char) -> Option<Seq<char>>;

/// What `Path::parent` gives on a platform whose main separator is `sep`:
/// the path without its last component.
pub uninterp spec fn path_parent(path: Seq<char>, sep: char) -> Option<Seq<char>>;

/// The text of an optional text, empty for `None`.
pub open spec fn or_empty_chars(o: Option<Seq<char>>) -> Seq<char> {
    match o {
        Some(s) => s,
        None => Seq::empty(),
    }
}

/// The extension of a file name, as `Path::extension` documents it: none
/// without an embedded `.` or when the only `.` starts the name, else what
/// follows the last `.`.
pub open spec fn name_extension(n: Seq<char>) -> Option<Seq<char>> {
    match last_index_of(n, '.') {
        Some(i) => if i == 0 {
            None
        } else {
            Some(n.subrange(i + 1, n.len() as int))
        },
        None => None,
    }
}

/// The stem of a file name, as `Path::file_stem` documents it: the whole
/// name without an embedded `.` or when the only `.` starts the name, else
/// what precedes the last `.`.
pub open spec fn name_stem(n: Seq<char>) -> Seq<char> {
    match last_index_of(n, '.') {
        Some(i) => if i == 0 {
            n
        } else {
            n.subrange(0, i)
        },
        None => n,
    }
}

/// Calls `Path::join`, takes the text, and reports the platform's main
/// separator. Claimed: the text depends on the two texts and the separator
/// alone.
#[verifier::external_body]
fn join_path(base: &str, part: &str) -> (r: (String, char))
    ensures
        is_main_separator(r.1),
        r.0@ == path_joined(base@, part@, r.1),
{
    (std::path::Path::new(base).join(part).to_string_lossy().into_owned(), std::path::MAIN_SEPARATOR)
}

/// Calls `Path::file_name` (the text of a `&str` path is valid UTF-8, so
/// `to_str` succeeds) and reports the platform's main separator. Claimed:
/// the name depends on the path and the separator alone.
#[verifier::external_body]
fn file_name_of(path: &str) -> (r: (Option<String>, char))
    ensures
        is_main_separator(r.1),
        opt_text(r.0) == path_file_name(path@, r.1),
{
    let name = match std::path::Path::new(path).file_name() {
        Some(n) => n.to_str().map(String::from),
        None => None,
    };
    (name, std::path::MAIN_SEPARATOR)
}

/// Calls `Path::parent` and reports the platform's main separator.
/// Claimed: the parent depends on the path and the separator alone.
#[verifier::external_body]
fn parent_of(path: &str) -> (r: (Option<String>, char))
    ensures
        is_main_separator(r.1),
        opt_text(r.0) == path_parent(path@, r.1),
{
    let parent = match std::path::Path::new(path).parent() {
        Some(p) => p.to_str().map(String::from),
        None => None,
    };
    (parent, std::path::MAIN_SEPARATOR)
}

/// The extension of a file name (see `name_extension`).
fn name_extension_of(name: &str) -> (r: Option<String>)
    ensures
        opt_text(r) == name_extension(name@),
{
    let cs = chars_of(name);
    let n = cs.len();
    proof {
        lemma_last_index_range(cs@, '.');
    }
    match find_last(&cs, '.') {
        Some(i) => {
            if i == 0 {
                None
            } else {
                Some(string_of_chars(&cs, i + 1, n))
            }
        },
        None => None,
    }
}

/// The stem of a file name (see `name_stem`).
fn name_stem_of(name: &str) -> (r: String)
    ensures
        r@ == name_stem(name@),
{
    let cs = chars_of(name);
    proof {
        lemma_last_index_range(cs@, '.');
    }
    match find_last(&cs, '.') {
        Some(i) => {
            if i == 0 {
                string_of_chars(&cs, 0, cs.len())
            } else {
                string_of_chars(&cs, 0, i)
            }
        },
        None => string_of_chars(&cs, 0, cs.len()),
    }
}

/// The file holding the configuration, in the configuration directory.
pub fn config_file_path(config_dir: &str) -> (r: String)
    ensures
        exists|sep: char| is_main_separator(sep) && r@ == path_joined(config_dir@, "config.json"@, sep),
{
    join_path(config_dir, "config.json").0
}

/// The index directory, in the data directory.
pub fn index_dir(data_dir: &str) -> (r: String)
    ensures
        exists|sep: char| is_main_separator(sep) && r@ == path_joined(data_dir@, "index"@, sep),
{
    join_path(data_dir, "index").0
}

/// The log directory, in the data directory.
pub fn log_dir(data_dir: &str) -> (r: String)
    ensures
        exists|sep: char| is_main_separator(sep) && r@ == path_joined(data_dir@, "logs"@, sep),
{
    join_path(data_dir, "logs").0
}

/// The segment directory, in the index directory.
pub fn segments_dir(data_dir: &str) -> (r: String)
    ensures
        exists|s1: char, s2: char| is_main_separator(s1) && is_main_separator(s2) && r@ == path_joined(
            path_joined(data_dir@, "index"@, s1),
            "segments"@,
            s2,
        ),
{
    let (idx, s1) = join_path(data_dir, "index");
    let (r, s2) = join_path(idx.as_str(), "segments");
    assert(is_main_separator(s1) && is_main_separator(s2) && r@ == path_joined(
        path_joined(data_dir@, "index"@, s1),
        "segments"@,
        s2,
    ));
    r
}

/// The text of an optional string, empty for `None`.
fn or_empty(o: Option<String>) -> (r: String)
    ensures
        r@ == or_empty_chars(opt_text(o)),
{
    match o {
        Some(s) => s,
        None => String::new(),
    }
}

/// The file name of a path, or the empty text.
pub fn extract_file_name(path: &str) -> (r: String)
    ensures
        exists|sep: char| is_main_separator(sep) && r@ == or_empty_chars(path_file_name(path@, sep)),
{
    let (name, sep) = file_name_of(path);
    let r = or_empty(name);
    assert(is_main_separator(sep) && r@ == or_empty_chars(path_file_name(path@, sep)));
    r
}

/// The parent of a path, or the empty text.
pub fn extract_parent(path: &str) -> (r: String)
    ensures
        exists|sep: char| is_main_separator(sep) && r@ == or_empty_chars(path_parent(path@, sep)),
{
    let (parent, sep) = parent_of(path);
    let r = or_empty(parent);
    assert(is_main_separator(sep) && r@ == or_empty_chars(path_parent(path@, sep)));
    r
}

/// The stem of a path's file name (see `name_stem`), or the empty text.
pub fn extract_stem(path: &str) -> (r: String)
    ensures
        exists|sep: char| is_main_separator(sep) && r@ == (match path_file_name(path@, sep) {
            Some(n) => name_stem(n),
            None => Seq::<char>::empty(),
        }),
{
    let (name, sep) = file_name_of(path);
    let r = match name {
        Some(n) => name_stem_of(n.as_str()),
        None => String::new(),
    };
    assert(is_main_separator(sep) && r@ == (match path_file_name(path@, sep) {
        Some(n) => name_stem(n),
        None => Seq::<char>::empty(),
    }));
    r
}

/// The lower-cased extension of a name (see `name_extension`), or the
/// empty text.
pub open spec fn extension_text(name: Option<Seq<char>>) -> Seq<char> {
    match name {
        Some(n) => match name_extension(n) {
            Some(e) => normalized(e),
            None => Seq::empty(),
        },
        None => Seq::empty(),
    }
}

/// The lower-cased extension of a path's file name, or the empty text.
pub fn extract_extension(path: &str) -> (r: String)
    ensures
        exists|sep: char| is_main_separator(sep) && r@ == extension_text(path_file_name(path@, sep)),
{
    let (name, sep) = file_name_of(path);
    let r = match name {
        Some(n) => match name_extension_of(n.as_str()) {
            Some(e) => normalize_string(e.as_str()),
            None => String::new(),
        },
        None => String::new(),
    };
    assert(is_main_separator(sep) && r@ == extension_text(path_file_name(path@, sep)));
    r
}

/// A text lower-cased as `normalize_string` does.
pub open spec fn normalized(s: Seq<char>) -> Seq<char> {
    if is_ascii_chars(s) {
        s.map_values(|c: char| lower_char(c))
    } else {
        unicode_lowercase(s)
    }
}

/// Every `from` replaced by `to`.
pub open spec fn replace_char(s: Seq<char>, from: char, to: char) -> Seq<char> {
    s.map_values(|c: char| if c == from { to } else { c })
}

/// The text with every `from` replaced by `to`.
fn replaced(s: &str, from: char, to: char) -> (r: String)
    ensures
        r@ == replace_char(s@, from, to),
{
    let cs = chars_of(s);
    let mut out = String::new();
    let mut i: usize = 0;
    while i < cs.len()
        invariant
            cs@ == s@,
            i <= cs@.len(),
            out@ == replace_char(cs@.subrange(0, i as int), from, to),
        decreases cs@.len() - i,
    {
        let c = cs[i];
        push_char(&mut out, if c == from { to } else { c });
        i += 1;
        assert(out@ =~= replace_char(cs@.subrange(0, i as int), from, to));
    }
    assert(cs@.subrange(0, cs@.len() as int) =~= cs@);
    out
}

/// The verbatim prefix of Windows paths.
pub open spec fn verbatim_prefix() -> Seq<char> {
    seq!['\\', '\\', '?', '\\']
}

/// A path with uniform separators: on Windows the verbatim prefix is
/// dropped and `/` becomes `\`; elsewhere `\` becomes `/`.
pub open spec fn normalized_path(p: Seq<char>, windows: bool) -> Seq<char> {
    if windows {
        let q = if p.len() >= 4 && p.subrange(0, 4) == verbatim_prefix() {
            p.subrange(4, p.len() as int)
        } else {
            p
        };
        replace_char(q, '/', '\\')
    } else {
        replace_char(p, '\\', '/')
    }
}

/// Makes the separators of a path uniform for the platform (see
/// `normalized_path`).
pub fn normalize_path(path: &str, windows: bool) -> (r: String)
    ensures
        r@ == normalized_path(path@, windows),
{
    if windows {
        let cs = chars_of(path);
        let n = cs.len();
        let mut rest = String::new();
        let start: usize = if n >= 4 && cs[0] == '\\' && cs[1] == '\\' && cs[2] == '?' && cs[3] == '\\' {
            4
        } else {
            0
        };
        assert(n >= 4 ==> (cs@.subrange(0, 4) == verbatim_prefix() <==> (cs@[0] == '\\' && cs@[1] == '\\'
            && cs@[2] == '?' && cs@[3] == '\\'))) by {
            if n >= 4 {
                if cs@[0] == '\\' && cs@[1] == '\\' && cs@[2] == '?' && cs@[3] == '\\' {
                    assert(cs@.subrange(0, 4) =~= verbatim_prefix());
                }
            }
        }
        let mut i: usize = start;
        while i < n
            invariant
                cs@ == path@,
                n == cs@.len(),
                start <= i <= n,
                rest@ == replace_char(cs@.subrange(start as int, i as int), '/', '\\'),
            decreases n - i,
        {
            let c = cs[i];
            push_char(&mut rest, if c == '/' { '\\' } else { c });
            i += 1;
            assert(rest@ =~= replace_char(cs@.subrange(start as int, i as int), '/', '\\'));
        }
        assert(start == 0 ==> cs@.subrange(0, n as int) =~= cs@);
        rest
    } else {
        replaced(path, '\\', '/')
    }
}

} // verus!
