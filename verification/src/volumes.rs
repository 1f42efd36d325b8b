//! The volumes listed in a Linux mount table.

use vstd::prelude::*;
use vstd::string::*;
use crate::models::VolumeInfo;
use crate::stdx::push_char;
use crate::text::{is_white_space, char_is_whitespace};
use crate::text::{chars_of, pieces, split_on};

verus! {

/// The words read so far and the word being read.
pub open spec fn words_run(s: Seq<char>) -> (Seq<Seq<char>>, Seq<char>)
    decreases s.len(),
{
    if s.len() == 0 {
        (Seq::empty(), Seq::empty())
    } else {
        let (ws, cur) = words_run(s.drop_last());
        if is_white_space(s.last()) {
            (if cur.len() == 0 { ws } else { ws.push(cur) }, Seq::empty())
        } else {
            (ws, cur.push(s.last()))
        }
    }
}

/// The maximal runs of characters without `White_Space`.
pub open spec fn words(s: Seq<char>) -> Seq<Seq<char>> {
    let (ws, cur) = words_run(s);
    if cur.len() == 0 {
        ws
    } else {
        ws.push(cur)
    }
}

/// The file-system types that hold no files to index.
pub open spec fn is_virtual_fs(t: Seq<char>) -> bool {
    t == "proc"@ || t == "sysfs"@ || t == "tmpfs"@ || t == "devpts"@ || t == "cgroup"@ || t == "cgroup2"@
        || t == "securityfs"@ || t == "pstore"@ || t == "debugfs"@ || t == "fusectl"@ || t == "configfs"@
        || t == "hugetlbfs"@ || t == "mqueue"@ || t == "binfmt_misc"@ || t == "tracefs"@
}

/// The mount point and type of a mount-table line, when it has at least
/// three words, a type that is not virtual and an absolute mount point.
pub open spec fn line_volume(line: Seq<char>) -> Option<(Seq<char>, Seq<char>)> {
    let w = words(line);
    if w.len() >= 3 && !is_virtual_fs(w[2]) && w[1].len() > 0 && w[1][0] == '/' {
        Some((w[1], w[2]))
    } else {
        None
    }
}

/// The volumes of the first `i` lines.
pub open spec fn volumes_of_lines(lines: Seq<Seq<char>>, i: int) -> Seq<(Seq<char>, Seq<char>)>
    decreases i,
{
    if i <= 0 {
        Seq::empty()
    } else {
        let rest = volumes_of_lines(lines, i - 1);
        match line_volume(lines[i - 1]) {
            Some(v) => rest.push(v),
            None => rest,
        }
    }
}

/// A volume found in the mount table: its mount point, no label, no sizes,
/// and its type.
pub open spec fn is_mount_volume(v: VolumeInfo, m: (Seq<char>, Seq<char>)) -> bool {
    &&& v.mount_point@ == m.0
    &&& v.label is None
    &&& v.total_bytes == 0
    &&& v.free_bytes == 0
    &&& v.fs_type matches Some(t) && t@ == m.1
}

/// The root volume reported when the table lists none.
pub open spec fn is_root_volume(v: VolumeInfo) -> bool {
    &&& v.mount_point@ == "/"@
    &&& v.label is None
    &&& v.total_bytes == 0
    &&& v.free_bytes == 0
    &&& v.fs_type is None
}



/// The words of a line (see `words`).
fn line_words(line: &Vec<char>) -> (r: Vec<String>)
    ensures
        crate::models::texts(r@) == words(line@),
{
    let mut out: Vec<String> = Vec::new();
    let mut cur = String::new();
    let mut i: usize = 0;
    assert(line@.take(0) =~= Seq::<char>::empty());
    assert(crate::models::texts(out@) =~= Seq::<Seq<char>>::empty());
    while i < line.len()
        invariant
            i <= line@.len(),
            words_run(line@.take(i as int)) == (crate::models::texts(out@), cur@),
        decreases line@.len() - i,
    {
        let c = line[i];
        assert(line@.take(i + 1).drop_last() =~= line@.take(i as int));
        if char_is_whitespace(c) {
            if !cur.as_str().is_empty() {
                let ghost before = crate::models::texts(out@);
                let ghost w = cur@;
                out.push(cur);
                assert(crate::models::texts(out@) =~= before.push(w));
            }
            cur = String::new();
        } else {
            push_char(&mut cur, c);
        }
        i += 1;
    }
    assert(line@.take(line@.len() as int) =~= line@);
    if !cur.as_str().is_empty() {
        let ghost before = crate::models::texts(out@);
        let ghost w = cur@;
        out.push(cur);
        assert(crate::models::texts(out@) =~= before.push(w));
    }
    out
}

/// Whether a file-system type is virtual.
fn virtual_fs(t: &String) -> (r: bool)
    ensures
        r == is_virtual_fs(t@),
{
    let names: [&str; 15] = ["proc", "sysfs", "tmpfs", "devpts", "cgroup", "cgroup2", "securityfs", "pstore",
        "debugfs", "fusectl", "configfs", "hugetlbfs", "mqueue", "binfmt_misc", "tracefs"];
    let mut i: usize = 0;
    while i < 15
        invariant
            i <= 15,
            names@ == seq!["proc", "sysfs", "tmpfs", "devpts", "cgroup", "cgroup2", "securityfs", "pstore",
                "debugfs", "fusectl", "configfs", "hugetlbfs", "mqueue", "binfmt_misc", "tracefs"],
            forall|k: int| 0 <= k < i ==> t@ != (#[trigger] names@[k])@,
        decreases 15 - i,
    {
        if *t == String::from_str(names[i]) {
            return true;
        }
        i += 1;
    }
    false
}

/// The volume of one mount-table line (see `line_volume`).
fn volume_of_line(line: &Vec<char>) -> (r: Option<VolumeInfo>)
    ensures
        match line_volume(line@) {
            Some(m) => r matches Some(v) && is_mount_volume(v, m),
            None => r is None,
        },
{
    let w = line_words(line);
    if w.len() < 3 {
        return None;
    }
    assert(w@[1]@ == words(line@)[1] && w@[2]@ == words(line@)[2]);
    if virtual_fs(&w[2]) {
        return None;
    }
    let mount = chars_of(w[1].as_str());
    if mount.len() == 0 || mount[0] != '/' {
        return None;
    }
    Some(VolumeInfo {
        mount_point: w[1].clone(),
        label: None,
        total_bytes: 0,
        free_bytes: 0,
        fs_type: Some(w[2].clone()),
    })
}

/// The volumes of a Linux mount table (the text of `/proc/mounts`): one
/// per line that `line_volume` accepts, in order, or the root alone when
/// there is none.
pub fn parse_mounts(content: &str) -> (r: Vec<VolumeInfo>)
    ensures
        ({
            let ls = pieces(content@, '\n');
            let vs = volumes_of_lines(ls, ls.len() as int);
            &&& vs.len() > 0 ==> r@.len() == vs.len() && forall|k: int| 0 <= k < vs.len() ==> is_mount_volume(
                #[trigger] r@[k],
                vs[k],
            )
            &&& vs.len() == 0 ==> r@.len() == 1 && is_root_volume(r@[0])
        }),
{
    let ghost ls = pieces(content@, '\n');
    let lines = split_on(content, '\n');
    let mut out: Vec<VolumeInfo> = Vec::new();
    let mut k: usize = 0;
    while k < lines.len()
        invariant
            crate::models::texts(lines@) == ls,
            k <= lines@.len(),
            out@.len() == volumes_of_lines(ls, k as int).len(),
            forall|j: int| 0 <= j < out@.len() ==> is_mount_volume(#[trigger] out@[j], volumes_of_lines(ls, k as int)[j]),
        decreases lines@.len() - k,
    {
        assert(ls[k as int] == lines@[k as int]@);
        let ghost prev = volumes_of_lines(ls, k as int);
        let line = chars_of(lines[k].as_str());
        match volume_of_line(&line) {
            Some(v) => {
                let ghost oo = out@;
                out.push(v);
                assert forall|j: int| 0 <= j < out@.len() implies is_mount_volume(#[trigger] out@[j],
                    volumes_of_lines(ls, k + 1)[j]) by {
                    if j < prev.len() {
                        assert(out@[j] == oo[j]);
                    }
                }
            },
            None => {},
        }
        k += 1;
    }
    if out.len() == 0 {
        out.push(VolumeInfo {
            mount_point: String::from_str("/"),
            label: None,
            total_bytes: 0,
            free_bytes: 0,
            fs_type: None,
        });
    }
    out
}

} // verus!
