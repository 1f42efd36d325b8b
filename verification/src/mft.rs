//! Reading an NTFS volume's file table: the records of an update-sequence
//! enumeration buffer, the full path of each record, and the documents
//! made from them.

use vstd::prelude::*;
use vstd::string::*;
use crate::document::{IdCounter, next_id};
use crate::le::{le16_at, le32_at, read_u16_le, read_u32_le};
use crate::models::FileDocument;
use crate::stdx::{push_char, to_lowercase, unicode_lowercase};
use crate::text::{chars_of, string_of_chars, pieces, split_on, last_index_of, lemma_last_index_range, find_last};

verus! {

/// The bits of a file reference that number the file record.
pub const FILE_REF_MASK: u64 = 0x0000_FFFF_FFFF_FFFF;

/// The attribute bit of directories.
pub const FILE_ATTRIBUTE_DIRECTORY: u32 = 0x10;

/// The smallest record of an enumeration buffer.
pub const MIN_RECORD_LEN: usize = 64;

/// A file record read from the file table.
#[derive(Clone, Debug)]
pub struct MftRecord {
    pub file_ref: u64,
    pub parent_ref: u64,
    pub name: String,
    pub is_dir: bool,
    pub file_attributes: u32,
    pub timestamp: i64,
    pub file_size: u64,
}

/// What a record holds, its name as characters.
pub struct RecordView {
    pub file_ref: u64,
    pub parent_ref: u64,
    pub name: Seq<char>,
    pub is_dir: bool,
    pub file_attributes: u32,
    pub timestamp: i64,
    pub file_size: u64,
}

impl View for MftRecord {
    type V = RecordView;

    open spec fn view(&self) -> RecordView {
        RecordView {
            file_ref: self.file_ref,
            parent_ref: self.parent_ref,
            name: self.name@,
            is_dir: self.is_dir,
            file_attributes: self.file_attributes,
            timestamp: self.timestamp,
            file_size: self.file_size,
        }
    }
}

impl MftRecord {
    /// A field-by-field copy.
    pub fn copy(&self) -> (r: MftRecord)
        ensures
            r@ == self@,
    {
        MftRecord {
            file_ref: self.file_ref,
            parent_ref: self.parent_ref,
            name: self.name.clone(),
            is_dir: self.is_dir,
            file_attributes: self.file_attributes,
            timestamp: self.timestamp,
            file_size: self.file_size,
        }
    }
}

/// What `String::from_utf16_lossy` makes of UTF-16 code units.
pub uninterp spec fn utf16_lossy(units: Seq<u16>) -> Seq<char>;

/// Calls `String::from_utf16_lossy`. Claimed: the text depends on the code
/// units alone.
#[verifier::external_body]
fn string_from_utf16_lossy(units: &[u16]) -> (r: String)
    ensures
        r@ == utf16_lossy(units@),
{
    String::from_utf16_lossy(units)
}

/// The UTF-16 code units of one character: itself below `U+10000`, else a
/// high and a low surrogate carrying the upper and lower ten bits of its
/// offset from `U+10000`.
pub open spec fn char_utf16(c: char) -> Seq<u16> {
    let v = c as u32;
    if v < 0x10000 {
        seq![v as u16]
    } else {
        let w = (v - 0x10000) as u32;
        seq![(0xD800 + w / 1024) as u16, (0xDC00 + w % 1024) as u16]
    }
}

/// The UTF-16 encoding of a text, character by character.
pub open spec fn utf16_of(s: Seq<char>) -> Seq<u16>
    decreases s.len(),
{
    if s.len() == 0 {
        Seq::empty()
    } else {
        utf16_of(s.drop_last()) + char_utf16(s.last())
    }
}

/// The UTF-16 code units of a text, as `str::encode_utf16` yields them.
pub fn encode_utf16(s: &str) -> (r: Vec<u16>)
    ensures
        r@ == utf16_of(s@),
{
    let cs = chars_of(s);
    let mut out: Vec<u16> = Vec::new();
    let mut i: usize = 0;
    while i < cs.len()
        invariant
            cs@ == s@,
            i <= cs@.len(),
            out@ == utf16_of(cs@.take(i as int)),
        decreases cs@.len() - i,
    {
        let c = cs[i];
        let v: u32 = c as u32;
        if v < 0x10000 {
            out.push(v as u16);
        } else {
            let w: u32 = v - 0x10000;
            out.push((0xD800 + w / 1024) as u16);
            out.push((0xDC00 + w % 1024) as u16);
        }
        proof {
            assert(cs@.take(i + 1).drop_last() =~= cs@.take(i as int));
            assert(cs@.take(i + 1).last() == c);
        }
        assert(out@ =~= utf16_of(cs@.take(i + 1)));
        i += 1;
    }
    assert(cs@.take(cs@.len() as int) =~= cs@);
    out
}

/// A text as NUL-terminated UTF-16, as Windows calls take it.
pub fn to_wide(s: &str) -> (r: Vec<u16>)
    ensures
        r@ == utf16_of(s@).push(0u16),
{
    let mut v = encode_utf16(s);
    v.push(0);
    v
}

/// The little-endian `u64` at `pos`.
pub open spec fn le64_at(s: Seq<u8>, pos: int) -> int {
    le32_at(s, pos) + le32_at(s, pos + 4) * 0x1_0000_0000
}

/// The little-endian `i64` at `pos` (two's complement).
pub open spec fn le64_signed_at(s: Seq<u8>, pos: int) -> int {
    if le64_at(s, pos) >= 0x8000_0000_0000_0000 {
        le64_at(s, pos) - 0x1_0000_0000_0000_0000
    } else {
        le64_at(s, pos)
    }
}

/// Reads the little-endian `u64` at `pos`.
fn read_u64_le(data: &[u8], pos: usize) -> (r: u64)
    requires
        pos + 8 <= data@.len(),
    ensures
        r == le64_at(data@, pos as int),
{
    // the length of `data` fits a `usize`
    let dl = data.len();
    let lo = read_u32_le(data, pos) as u64;
    let hi = read_u32_le(data, pos + 4) as u64;
    assert(hi * 0x1_0000_0000 + lo <= u64::MAX) by (nonlinear_arith)
        requires
            hi <= u32::MAX,
            lo <= u32::MAX,
    ;
    lo + hi * 0x1_0000_0000
}

/// Reads the little-endian `i64` at `pos`.
fn read_i64_le(data: &[u8], pos: usize) -> (r: i64)
    requires
        pos + 8 <= data@.len(),
    ensures
        r == le64_signed_at(data@, pos as int),
{
    let v = read_u64_le(data, pos);
    if v >= 0x8000_0000_0000_0000 {
        let m: u64 = v - 0x8000_0000_0000_0000;
        (m as i64) - 0x4000_0000_0000_0000 - 0x4000_0000_0000_0000
    } else {
        v as i64
    }
}

/// The little-endian UTF-16 code units of a byte run; an odd last byte is
/// dropped.
pub open spec fn utf16_units(b: Seq<u8>) -> Seq<u16> {
    Seq::new((b.len() / 2) as nat, |k: int| (b[2 * k] + b[2 * k + 1] * 256) as u16)
}

/// The record that the entry at `off` describes, if it names a file: a
/// name inside the buffer, not empty, and neither `.` nor `..`.
pub open spec fn usn_record_at(buf: Seq<u8>, n: int, off: int) -> Option<RecordView> {
    let name_len = le16_at(buf, off + 56);
    let name_off = le16_at(buf, off + 58);
    let s = off + name_off;
    let e = s + name_len;
    if e <= n && name_len > 0 {
        let name = utf16_lossy(utf16_units(buf.subrange(s, e)));
        if name.len() > 0 && name != "."@ && name != ".."@ {
            let attrs = le32_at(buf, off + 52) as u32;
            Some(RecordView {
                file_ref: (le64_at(buf, off + 8) as u64) & FILE_REF_MASK,
                parent_ref: (le64_at(buf, off + 16) as u64) & FILE_REF_MASK,
                name,
                is_dir: attrs & FILE_ATTRIBUTE_DIRECTORY != 0,
                file_attributes: attrs,
                timestamp: le64_signed_at(buf, off + 32) as i64,
                file_size: 0,
            })
        } else {
            None
        }
    } else {
        None
    }
}

/// The records of the entries from `off` on, among the first `n` bytes:
/// each entry starts with its length, at least 64, and the reading stops at
/// an entry that does not fit.
pub open spec fn usn_records(buf: Seq<u8>, n: int, off: int) -> Seq<RecordView>
    decreases n - off,
{
    if off + 64 > n || off < 0 {
        Seq::empty()
    } else {
        let rl = le32_at(buf, off);
        if rl < 64 || off + rl > n {
            Seq::empty()
        } else {
            let rest = usn_records(buf, n, off + rl);
            match usn_record_at(buf, n, off) {
                Some(r) => seq![r] + rest,
                None => rest,
            }
        }
    }
}

proof fn lemma_usn_stop(buf: Seq<u8>, n: int, off: int)
    requires
        0 <= off,
        off + 64 <= n,
        le32_at(buf, off) < 64 || off + le32_at(buf, off) > n,
    ensures
        usn_records(buf, n, off) == Seq::<RecordView>::empty(),
{
}

proof fn lemma_usn_step(buf: Seq<u8>, n: int, off: int)
    requires
        0 <= off,
        off + 64 <= n,
        64 <= le32_at(buf, off),
        off + le32_at(buf, off) <= n,
    ensures
        usn_records(buf, n, off) == (match usn_record_at(buf, n, off) {
            Some(r) => seq![r] + usn_records(buf, n, off + le32_at(buf, off)),
            None => usn_records(buf, n, off + le32_at(buf, off)),
        }),
{
}

/// The UTF-16 code units of `buf[s..e]`.
fn units_of(buf: &[u8], s: usize, e: usize) -> (r: Vec<u16>)
    requires
        s <= e <= buf@.len(),
    ensures
        r@ == utf16_units(buf@.subrange(s as int, e as int)),
{
    let half = (e - s) / 2;
    let mut v: Vec<u16> = Vec::new();
    let mut k: usize = 0;
    let ghost b = buf@.subrange(s as int, e as int);
    while k < half
        invariant
            s <= e <= buf@.len(),
            b == buf@.subrange(s as int, e as int),
            half == (e - s) / 2,
            k <= half,
            v@.len() == k,
            forall|j: int| 0 <= j < k ==> v@[j] == (b[2 * j] + b[2 * j + 1] * 256) as u16,
        decreases half - k,
    {
        let lo = buf[s + 2 * k] as u16;
        let hi = buf[s + 2 * k + 1] as u16;
        v.push(lo + hi * 256);
        k += 1;
    }
    assert(v@ =~= utf16_units(b));
    v
}

/// The record of the entry at `off` (see `usn_record_at`).
fn record_at(buf: &[u8], n: usize, off: usize) -> (r: Option<MftRecord>)
    requires
        n <= buf@.len(),
        off + 64 <= n,
    ensures
        match usn_record_at(buf@, n as int, off as int) {
            Some(v) => r matches Some(x) && x@ == v,
            None => r is None,
        },
{
    let name_len = read_u16_le(buf, off + 56) as usize;
    let name_off = read_u16_le(buf, off + 58) as usize;
    if name_off > n - off || name_len > n - off - name_off || name_len == 0 {
        return None;
    }
    let s = off + name_off;
    let e = s + name_len;
    let units = units_of(buf, s, e);
    let name = string_from_utf16_lossy(units.as_slice());
    if name.as_str().is_empty() || name == String::from_str(".") || name == String::from_str("..") {
        return None;
    }
    let attrs = read_u32_le(buf, off + 52);
    let file_ref = read_u64_le(buf, off + 8);
    let parent_ref = read_u64_le(buf, off + 16);
    let timestamp = read_i64_le(buf, off + 32);
    Some(MftRecord {
        file_ref: file_ref & FILE_REF_MASK,
        parent_ref: parent_ref & FILE_REF_MASK,
        name,
        is_dir: attrs & FILE_ATTRIBUTE_DIRECTORY != 0,
        file_attributes: attrs,
        timestamp,
        file_size: 0,
    })
}

/// The views of a list of records.
pub open spec fn records_view(rs: Seq<MftRecord>) -> Seq<RecordView> {
    rs.map_values(|r: MftRecord| r@)
}

/// Reads one buffer of a file-table enumeration, of which the first
/// `bytes_returned` bytes were filled: `None` when it holds less than the
/// next file reference, else that reference and the records (see
/// `usn_records`).
pub fn parse_usn_buffer(buffer: &[u8], bytes_returned: usize) -> (r: Option<(u64, Vec<MftRecord>)>)
    requires
        bytes_returned <= buffer@.len(),
    ensures
        bytes_returned < 8 ==> r is None,
        bytes_returned >= 8 ==> (r matches Some(p) && p.0 == le64_at(buffer@, 0)
            && records_view(p.1@) == usn_records(buffer@, bytes_returned as int, 8)),
{
    let n = bytes_returned;
    if n < 8 {
        return None;
    }
    let next_ref = read_u64_le(buffer, 0);
    let mut records: Vec<MftRecord> = Vec::new();
    let mut offset: usize = 8;
    let ghost target = usn_records(buffer@, n as int, 8);
    assert(records_view(records@) =~= Seq::<RecordView>::empty());
    while offset <= n && n - offset >= 64
        invariant
            n <= buffer@.len(),
            n == bytes_returned,
            next_ref == le64_at(buffer@, 0),
            8 <= n,
            8 <= offset,
            target == usn_records(buffer@, n as int, 8),
            target == records_view(records@) + usn_records(buffer@, n as int, offset as int),
        decreases n - offset,
    {
        let rl = read_u32_le(buffer, offset) as usize;
        if rl < 64 || rl > n - offset {
            proof {
                lemma_usn_stop(buffer@, n as int, offset as int);
            }
            assert(target =~= records_view(records@));
            return Some((next_ref, records));
        }
        proof {
            lemma_usn_step(buffer@, n as int, offset as int);
        }
        let ghost before = records_view(records@);
        match record_at(buffer, n, offset) {
            Some(rec) => {
                records.push(rec);
                assert(records_view(records@) =~= before.push(rec@));
                assert(target =~= records_view(records@) + usn_records(buffer@, n as int, (offset + rl) as int));
            },
            None => {},
        }
        offset = offset + rl;
    }
    assert(usn_records(buffer@, n as int, offset as int) =~= Seq::<RecordView>::empty());
    assert(target =~= records_view(records@));
    Some((next_ref, records))
}

// ---------------------------------------------------------------------
// Paths of records
// ---------------------------------------------------------------------

/// The position of the record of each file reference, a later record
/// winning.
pub open spec fn ref_index(rs: Seq<RecordView>) -> Map<u64, usize>
    decreases rs.len(),
{
    if rs.len() == 0 {
        Map::empty()
    } else {
        ref_index(rs.drop_last()).insert(rs.last().file_ref, (rs.len() - 1) as usize)
    }
}

/// The names met walking up from reference `cur`, the file first: the walk
/// stops at an unknown reference, at a record that is its own parent, or
/// after 513 names.
pub open spec fn chain(rs: Seq<RecordView>, idx: Map<u64, usize>, cur: u64, depth: int) -> Seq<Seq<char>>
    decreases 513 - depth,
{
    if depth > 512 || depth < 0 || !idx.dom().contains(cur) {
        Seq::empty()
    } else {
        let r = rs[idx[cur] as int];
        if cur == r.parent_ref {
            Seq::empty()
        } else {
            seq![r.name] + chain(rs, idx, r.parent_ref, depth + 1)
        }
    }
}

/// The last `j` names of `cs`, from the last one back, joined by `\`.
pub open spec fn join_rev(cs: Seq<Seq<char>>, j: int) -> Seq<char>
    decreases j,
{
    if j <= 0 {
        Seq::empty()
    } else if j == 1 {
        cs[cs.len() - 1]
    } else {
        join_rev(cs, j - 1) + seq!['\\'] + cs[cs.len() - j]
    }
}

/// The full path of a record, the volume prefix first, or `None` when the
/// walk up finds no name.
pub open spec fn record_path(rs: Seq<RecordView>, r: RecordView, prefix: Seq<char>) -> Option<Seq<char>> {
    let c = chain(rs, ref_index(rs), r.file_ref, 0);
    if c.len() == 0 {
        None
    } else {
        Some(prefix + join_rev(c, c.len() as int))
    }
}

/// The records among the first `i` that have a path, each with its path.
pub open spec fn resolved(rs: Seq<RecordView>, prefix: Seq<char>, i: int) -> Seq<(RecordView, Seq<char>)>
    decreases i,
{
    if i <= 0 {
        Seq::empty()
    } else {
        let rest = resolved(rs, prefix, i - 1);
        match record_path(rs, rs[i - 1], prefix) {
            Some(p) => rest.push((rs[i - 1], p)),
            None => rest,
        }
    }
}

/// The views of record-path pairs.
pub open spec fn pairs_view(ps: Seq<(MftRecord, String)>) -> Seq<(RecordView, Seq<char>)> {
    ps.map_values(|p: (MftRecord, String)| (p.0@, p.1@))
}

proof fn lemma_ref_index_range(rs: Seq<RecordView>)
    requires
        rs.len() <= usize::MAX,
    ensures
        forall|k: u64| #[trigger] ref_index(rs).dom().contains(k) ==> ref_index(rs)[k] < rs.len()
            && rs[ref_index(rs)[k] as int].file_ref == k,
    decreases rs.len(),
{
    if rs.len() > 0 {
        lemma_ref_index_range(rs.drop_last());
        assert forall|k: u64| #[trigger] ref_index(rs).dom().contains(k) implies ref_index(rs)[k] < rs.len()
            && rs[ref_index(rs)[k] as int].file_ref == k by {
            if k != rs.last().file_ref {
                assert(ref_index(rs.drop_last()).dom().contains(k));
            }
        }
    }
}

/// The names of the records at positions `ks`.
pub open spec fn names_at(rs: Seq<RecordView>, ks: Seq<usize>) -> Seq<Seq<char>> {
    ks.map_values(|k: usize| rs[k as int].name)
}

/// The path of one record (see `record_path`), given the reference index.
fn path_of(records: &[MftRecord], lookup: &std::collections::HashMap<u64, usize>, r: &MftRecord, volume_prefix: &str)
    -> (res: Option<String>)
    requires
        lookup@ == ref_index(records_view(records@)),
        records@.len() <= usize::MAX,
    ensures
        match record_path(records_view(records@), r@, volume_prefix@) {
            Some(p) => res matches Some(s) && s@ == p,
            None => res is None,
        },
{
    let ghost rs = records_view(records@);
    let ghost idx = ref_index(rs);
    proof {
        lemma_ref_index_range(rs);
    }
    let mut comps: Vec<usize> = Vec::new();
    let mut current = r.file_ref;
    let mut depth: u32 = 0;
    assert(names_at(rs, comps@) =~= Seq::<Seq<char>>::empty());
    loop
        invariant
            rs == records_view(records@),
            idx == ref_index(rs),
            lookup@ == idx,
            forall|k: u64| #[trigger] idx.dom().contains(k) ==> idx[k] < rs.len() && rs[idx[k] as int].file_ref == k,
            depth <= 513,
            comps@.len() == depth,
            forall|j: int| 0 <= j < comps@.len() ==> #[trigger] comps@[j] < records@.len(),
            chain(rs, idx, r.file_ref, 0) == names_at(rs, comps@) + chain(rs, idx, current, depth as int),
        ensures
            forall|j: int| 0 <= j < comps@.len() ==> #[trigger] comps@[j] < records@.len(),
            chain(rs, idx, r.file_ref, 0) == names_at(rs, comps@),
        decreases 513 - depth,
    {
        match lookup.get(&current) {
            Some(kr) => {
                let k = *kr;
                let parent = records[k].parent_ref;
                if current == parent || depth > 512 {
                    assert(names_at(rs, comps@) + Seq::<Seq<char>>::empty() =~= names_at(rs, comps@));
                    break;
                }
                let ghost before = names_at(rs, comps@);
                comps.push(k);
                proof {
                    assert(names_at(rs, comps@) =~= before.push(rs[k as int].name));
                    assert(chain(rs, idx, current, depth as int) == seq![rs[k as int].name] + chain(rs, idx, parent, depth + 1));
                    assert(before + (seq![rs[k as int].name] + chain(rs, idx, parent, depth + 1))
                        =~= before.push(rs[k as int].name) + chain(rs, idx, parent, depth + 1));
                }
                current = parent;
                depth = depth + 1;
            },
            None => {
                assert(names_at(rs, comps@) + Seq::<Seq<char>>::empty() =~= names_at(rs, comps@));
                break;
            },
        }
    }
    let n = comps.len();
    if n == 0 {
        return None;
    }
    let ghost cs = names_at(rs, comps@);
    let mut path = String::from_str(volume_prefix);
    let mut j: usize = 0;
    while j < n
        invariant
            n == comps@.len(),
            n > 0,
            cs == names_at(rs, comps@),
            rs == records_view(records@),
            forall|t: int| 0 <= t < comps@.len() ==> #[trigger] comps@[t] < records@.len(),
            j <= n,
            path@ == volume_prefix@ + join_rev(cs, j as int),
        decreases n - j,
    {
        let k = comps[n - 1 - j];
        assert(cs[n - 1 - j] == records@[k as int].name@);
        if j > 0 {
            push_char(&mut path, '\\');
        }
        path.append(records[k].name.as_str());
        proof {
            if j == 0 {
                assert(path@ =~= volume_prefix@ + join_rev(cs, 1));
            } else {
                assert(path@ =~= volume_prefix@ + join_rev(cs, j + 1));
            }
        }
        j += 1;
    }
    Some(path)
}

/// The full path of every record that has one, with a copy of the record
/// (see `resolved`).
pub fn resolve_paths(records: &[MftRecord], volume_prefix: &str) -> (r: Vec<(MftRecord, String)>)
    ensures
        pairs_view(r@) == resolved(records_view(records@), volume_prefix@, records@.len() as int),
{
    let ghost rs = records_view(records@);
    let n = records.len();
    let mut lookup: std::collections::HashMap<u64, usize> = std::collections::HashMap::new();
    let mut i: usize = 0;
    assert(rs.take(0) =~= Seq::<RecordView>::empty());
    assert(lookup@ =~= Map::<u64, usize>::empty());
    while i < n
        invariant
            n == records@.len(),
            rs == records_view(records@),
            i <= n,
            lookup@ == ref_index(rs.take(i as int)),
        decreases n - i,
    {
        lookup.insert(records[i].file_ref, i);
        assert(rs.take(i + 1).drop_last() =~= rs.take(i as int));
        i += 1;
    }
    assert(rs.take(n as int) =~= rs);
    let mut out: Vec<(MftRecord, String)> = Vec::new();
    let mut i: usize = 0;
    assert(pairs_view(out@) =~= Seq::<(RecordView, Seq<char>)>::empty());
    while i < n
        invariant
            n == records@.len(),
            rs == records_view(records@),
            i <= n,
            lookup@ == ref_index(rs),
            pairs_view(out@) == resolved(rs, volume_prefix@, i as int),
        decreases n - i,
    {
        let r = &records[i];
        assert(rs[i as int] == r@);
        match path_of(records, &lookup, r, volume_prefix) {
            Some(p) => {
                let ghost before = pairs_view(out@);
                let ghost pv = p@;
                out.push((r.copy(), p));
                assert(pairs_view(out@) =~= before.push((r@, pv)));
            },
            None => {},
        }
        i += 1;
    }
    out
}

// ---------------------------------------------------------------------
// Documents of records
// ---------------------------------------------------------------------

/// The extension of a record name: what follows its last `.`, lower-cased,
/// when that `.` is neither the first nor the last character.
pub open spec fn record_extension(name: Seq<char>) -> Seq<char> {
    match last_index_of(name, '.') {
        Some(i) => if i > 0 && i < name.len() - 1 {
            unicode_lowercase(name.subrange(i + 1, name.len() as int))
        } else {
            Seq::empty()
        },
        None => Seq::empty(),
    }
}

/// The lower-cased extension of a record name (see `record_extension`).
pub fn extract_extension(name: &str) -> (r: String)
    ensures
        r@ == record_extension(name@),
{
    let cs = chars_of(name);
    proof {
        lemma_last_index_range(cs@, '.');
    }
    match find_last(&cs, '.') {
        Some(i) => {
            if i > 0 && i < cs.len() - 1 {
                let rest = string_of_chars(&cs, i + 1, cs.len());
                to_lowercase(rest.as_str())
            } else {
                String::new()
            }
        },
        None => String::new(),
    }
}

/// The parent of a Windows path: what precedes its last `\`.
pub open spec fn record_parent(path: Seq<char>) -> Seq<char> {
    match last_index_of(path, '\\') {
        Some(i) => path.subrange(0, i),
        None => Seq::empty(),
    }
}

/// The parent of a Windows path (see `record_parent`).
pub fn extract_parent(path: &str) -> (r: String)
    ensures
        r@ == record_parent(path@),
{
    let cs = chars_of(path);
    proof {
        lemma_last_index_range(cs@, '\\');
    }
    match find_last(&cs, '\\') {
        Some(i) => string_of_chars(&cs, 0, i),
        None => String::new(),
    }
}

/// Whether a path is excluded: one of its segments equals one of the
/// patterns, both lower-cased.
pub open spec fn excluded_by(path: Seq<char>, patterns: Seq<Seq<char>>) -> bool {
    exists|i: int, j: int| 0 <= i < patterns.len() && 0 <= j < pieces(unicode_lowercase(path), '\\').len()
        && #[trigger] pieces(unicode_lowercase(path), '\\')[j] == unicode_lowercase(#[trigger] patterns[i])
}

/// Whether a path is excluded by one of the patterns (see `excluded_by`).
pub fn should_exclude(path: &str, patterns: &[String]) -> (r: bool)
    ensures
        r == excluded_by(path@, crate::models::texts(patterns@)),
{
    let lower = to_lowercase(path);
    let segs = split_on(lower.as_str(), '\\');
    let ghost ps = crate::models::texts(patterns@);
    let ghost ss = pieces(unicode_lowercase(path@), '\\');
    let mut i: usize = 0;
    while i < patterns.len()
        invariant
            ps == crate::models::texts(patterns@),
            ss == pieces(unicode_lowercase(path@), '\\'),
            crate::models::texts(segs@) == ss,
            i <= patterns@.len(),
            forall|a: int, b: int| 0 <= a < i && 0 <= b < ss.len() ==> #[trigger] ss[b] != unicode_lowercase(#[trigger] ps[a]),
        decreases patterns@.len() - i,
    {
        let p = to_lowercase(patterns[i].as_str());
        assert(ps[i as int] == patterns@[i as int]@);
        let mut j: usize = 0;
        while j < segs.len()
            invariant
                ps == crate::models::texts(patterns@),
                ss == pieces(unicode_lowercase(path@), '\\'),
                crate::models::texts(segs@) == ss,
                i < patterns@.len(),
                p@ == unicode_lowercase(ps[i as int]),
                j <= segs@.len(),
                forall|b: int| 0 <= b < j ==> #[trigger] ss[b] != p@,
            decreases segs@.len() - j,
        {
            assert(ss[j as int] == segs@[j as int]@);
            if segs[j] == p {
                assert(ss[j as int] == unicode_lowercase(ps[i as int]));
                return true;
            }
            j += 1;
        }
        i += 1;
    }
    false
}

/// The document made of a record, its path and its id.
pub open spec fn record_document(r: RecordView, path: Seq<char>, id: u64) -> crate::models::DocView {
    crate::models::DocView {
        id,
        name: r.name,
        name_lower: unicode_lowercase(r.name),
        path,
        parent: record_parent(path),
        extension: record_extension(r.name),
        size: r.file_size,
        modified: crate::dates::filetime_instant(r.timestamp),
        is_dir: r.is_dir,
        content_hash: None,
    }
}

/// The id after `id`, wrapping at the end of the `u64` range.
pub open spec fn following_id(id: u64) -> u64 {
    if id == u64::MAX {
        0
    } else {
        (id + 1) as u64
    }
}

/// The documents of the first `i` record-path pairs that are not excluded,
/// numbered from `start`, and the id after the last.
pub open spec fn mft_docs(ps: Seq<(RecordView, Seq<char>)>, excluded: Seq<Seq<char>>, start: u64, i: int)
    -> (Seq<crate::models::DocView>, u64)
    decreases i,
{
    if i <= 0 {
        (Seq::empty(), start)
    } else {
        let (ds, next) = mft_docs(ps, excluded, start, i - 1);
        let p = ps[i - 1];
        if excluded_by(p.1, excluded) {
            (ds, next)
        } else {
            (ds.push(record_document(p.0, p.1, next)), following_id(next))
        }
    }
}

/// A document carries a record and its path: the record's name, entry type
/// and size, and the path, unchanged.
pub open spec fn doc_carries(d: crate::models::DocView, p: (RecordView, Seq<char>)) -> bool {
    &&& d.name == p.0.name
    &&& d.path == p.1
    &&& d.size == p.0.file_size
    &&& d.is_dir == p.0.is_dir
}

/// The path of a record-path pair is not excluded.
pub open spec fn pair_kept(p: (RecordView, Seq<char>), excluded: Seq<Seq<char>>) -> bool {
    !excluded_by(p.1, excluded)
}

/// The first `i` record-path pairs whose path is not excluded, in order.
pub open spec fn kept_pairs(ps: Seq<(RecordView, Seq<char>)>, excluded: Seq<Seq<char>>, i: int)
    -> Seq<(RecordView, Seq<char>)>
    decreases i,
{
    if i <= 0 {
        Seq::empty()
    } else if pair_kept(ps[i - 1], excluded) {
        kept_pairs(ps, excluded, i - 1).push(ps[i - 1])
    } else {
        kept_pairs(ps, excluded, i - 1)
    }
}

/// The documents made of records carry them: there is one document per
/// record whose path is not excluded, in the records' order, and each
/// carries its record's name, entry type and size and its path unchanged.
pub proof fn lemma_mft_docs_carry_records(ps: Seq<(RecordView, Seq<char>)>, excluded: Seq<Seq<char>>, start: u64, i: int)
    requires
        0 <= i <= ps.len(),
    ensures
        mft_docs(ps, excluded, start, i).0.len() == kept_pairs(ps, excluded, i).len(),
        forall|j: int| 0 <= j < kept_pairs(ps, excluded, i).len() ==> doc_carries(
            #[trigger] mft_docs(ps, excluded, start, i).0[j],
            kept_pairs(ps, excluded, i)[j],
        ),
    decreases i,
{
    if i > 0 {
        lemma_mft_docs_carry_records(ps, excluded, start, i - 1);
        let prev = mft_docs(ps, excluded, start, i - 1).0;
        let cur = mft_docs(ps, excluded, start, i).0;
        let kp = kept_pairs(ps, excluded, i - 1);
        let kc = kept_pairs(ps, excluded, i);
        let p = ps[i - 1];
        if pair_kept(p, excluded) {
            assert(cur == prev.push(record_document(p.0, p.1, mft_docs(ps, excluded, start, i - 1).1)));
            assert(kc == kp.push(p));
            assert forall|j: int| 0 <= j < kc.len() implies doc_carries(#[trigger] cur[j], kc[j]) by {
                if j < kp.len() {
                    assert(cur[j] == prev[j]);
                    assert(kc[j] == kp[j]);
                }
            }
        } else {
            assert(cur == prev);
            assert(kc == kp);
        }
    }
}

/// The documents of the record-path pairs whose path is not excluded, each
/// numbered by the counter (see `mft_docs`).
pub fn mft_documents(resolved: &[(MftRecord, String)], excluded: &[String], counter: &mut IdCounter)
    -> (r: Vec<FileDocument>)
    ensures
        ({
            let (ds, next) = mft_docs(pairs_view(resolved@), crate::models::texts(excluded@), old(counter)@,
                resolved@.len() as int);
            &&& crate::models::docs_seq(r@) == ds
            &&& final(counter)@ == next
        }),
{
    let ghost ps = pairs_view(resolved@);
    let ghost ex = crate::models::texts(excluded@);
    let ghost start = counter@;
    let mut out: Vec<FileDocument> = Vec::new();
    let mut i: usize = 0;
    assert(crate::models::docs_seq(out@) =~= Seq::<crate::models::DocView>::empty());
    while i < resolved.len()
        invariant
            ps == pairs_view(resolved@),
            ex == crate::models::texts(excluded@),
            i <= resolved@.len(),
            mft_docs(ps, ex, start, i as int) == (crate::models::docs_seq(out@), counter@),
        decreases resolved@.len() - i,
    {
        let rec = &resolved[i].0;
        let path = &resolved[i].1;
        assert(ps[i as int] == (rec@, path@));
        if !should_exclude(path.as_str(), excluded) {
            let id = next_id(counter);
            let doc = FileDocument {
                id,
                name: rec.name.clone(),
                name_lower: to_lowercase(rec.name.as_str()),
                path: path.clone(),
                parent: extract_parent(path.as_str()),
                extension: extract_extension(rec.name.as_str()),
                size: rec.file_size,
                modified: crate::dates::filetime_to_datetime(rec.timestamp),
                is_dir: rec.is_dir,
                content_hash: None,
            };
            let ghost before = crate::models::docs_seq(out@);
            out.push(doc);
            assert(crate::models::docs_seq(out@) =~= before.push(record_document(rec@, path@, id)));
        }
        i += 1;
    }
    out
}

/// The root of a drive, such as `C:\`.
pub fn volume_prefix(letter: char) -> (r: String)
    ensures
        r@ == seq![letter, ':', '\\'],
{
    let mut s = String::new();
    push_char(&mut s, letter);
    push_char(&mut s, ':');
    push_char(&mut s, '\\');
    s
}

/// The device path that opens a volume, such as `\\.\C:`.
pub fn volume_device_path(letter: char) -> (r: String)
    ensures
        r@ == seq!['\\', '\\', '.', '\\', letter, ':'],
{
    let mut s = String::new();
    push_char(&mut s, '\\');
    push_char(&mut s, '\\');
    push_char(&mut s, '.');
    push_char(&mut s, '\\');
    push_char(&mut s, letter);
    push_char(&mut s, ':');
    s
}

} // verus!
