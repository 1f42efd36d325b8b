//! The segment file format: a header (magic, version and document count),
//! the document store, the trigram index and the bitmap index, then a JSON
//! footer behind its `u32` length. The footer records where each section lies and a CRC-32
//! of the three sections.

use vstd::prelude::*;
use vstd::string::*;
use crate::le::{u64_le, push_u64_le, u32_le, le32_at, push_u32_le, push_bytes, bytes_to_vec, read_u32_le, lemma_u32_le_roundtrip};
use crate::models::HyperFindError;
use crate::stdx::{crc32, crc32_of};
use crate::numfmt::{decimal, push_decimal};

verus! {

/// The format version written in the header.
pub const SEGMENT_VERSION: u32 = 1;

/// The largest footer searched for.
pub const MAX_FOOTER_LEN: u32 = 4096;

/// How far from the end the footer length is searched for.
pub const FOOTER_SCAN: usize = 8192;

/// The four bytes `HFSG` that open a segment file.
pub open spec fn segment_magic() -> Seq<u8> {
    seq![72u8, 70u8, 83u8, 71u8]
}

/// Where each section of a segment lies, and its checksum.
#[derive(Clone, Copy, Debug)]
pub struct SegmentFooter {
    pub doc_store_offset: u64,
    pub doc_store_len: u64,
    pub trigram_offset: u64,
    pub trigram_len: u64,
    pub bitmap_offset: u64,
    pub bitmap_len: u64,
    pub doc_count: u64,
    pub checksum: u32,
}

/// The list of active segments.
#[derive(Clone, Debug)]
pub struct CommitPoint {
    pub generation: u64,
    pub segments: Vec<String>,
    pub timestamp: String,
}

/// The length of the header: magic, version and document count.
pub const HEADER_LEN: usize = 16;

/// The header: the magic, the format version (`u32`) and the document
/// count (`u64`), little-endian.
pub open spec fn segment_header(doc_count: u64) -> Seq<u8> {
    segment_magic() + u32_le(SEGMENT_VERSION) + u64_le(doc_count)
}

/// The bytes before the footer: header, then the three sections.
pub open spec fn segment_body_bytes(doc: Seq<u8>, tri: Seq<u8>, bmp: Seq<u8>, doc_count: u64) -> Seq<u8> {
    segment_header(doc_count) + doc + tri + bmp
}

/// The footer of three sections: the document store right after the
/// 16-byte header, the others after it in turn, and the CRC-32 of all three.
pub open spec fn footer_of(doc: Seq<u8>, tri: Seq<u8>, bmp: Seq<u8>, doc_count: u64) -> SegmentFooter {
    SegmentFooter {
        doc_store_offset: 16,
        doc_store_len: doc.len() as u64,
        trigram_offset: (16 + doc.len()) as u64,
        trigram_len: tri.len() as u64,
        bitmap_offset: (16 + doc.len() + tri.len()) as u64,
        bitmap_len: bmp.len() as u64,
        doc_count,
        checksum: crc32_of(doc + tri + bmp),
    }
}

/// The header and sections of a segment, and its footer (see `footer_of`).
pub fn segment_body(doc_data: &[u8], trigram_data: &[u8], bitmap_data: &[u8], doc_count: u64)
    -> (r: (Vec<u8>, SegmentFooter))
    requires
        16 + doc_data@.len() + trigram_data@.len() + bitmap_data@.len() <= u64::MAX,
    ensures
        r.0@ == segment_body_bytes(doc_data@, trigram_data@, bitmap_data@, doc_count),
        r.1 == footer_of(doc_data@, trigram_data@, bitmap_data@, doc_count),
{
    let mut buf: Vec<u8> = Vec::new();
    buf.push(72u8);
    buf.push(70u8);
    buf.push(83u8);
    buf.push(71u8);
    push_u32_le(&mut buf, SEGMENT_VERSION);
    push_u64_le(&mut buf, doc_count);
    push_bytes(&mut buf, doc_data);
    push_bytes(&mut buf, trigram_data);
    push_bytes(&mut buf, bitmap_data);
    assert(buf@ =~= segment_body_bytes(doc_data@, trigram_data@, bitmap_data@, doc_count));
    let checksum = crc32(&buf.as_slice()[16..buf.len()]);
    assert(buf@.subrange(16, buf@.len() as int) =~= doc_data@ + trigram_data@ + bitmap_data@);
    let dl = doc_data.len() as u64;
    let tl = trigram_data.len() as u64;
    let bl = bitmap_data.len() as u64;
    let footer = SegmentFooter {
        doc_store_offset: 16,
        doc_store_len: dl,
        trigram_offset: 16 + dl,
        trigram_len: tl,
        bitmap_offset: 16 + dl + tl,
        bitmap_len: bl,
        doc_count,
        checksum,
    };
    (buf, footer)
}

/// A whole segment file: the body, the footer length and the footer.
pub open spec fn segment_file_bytes(body: Seq<u8>, footer_json: Seq<u8>) -> Seq<u8> {
    body + u32_le(footer_json.len() as u32) + footer_json
}

/// Appends the footer, behind its length, to a segment body.
pub fn finish_segment(body: Vec<u8>, footer_json: &[u8]) -> (r: Vec<u8>)
    ensures
        r@ == segment_file_bytes(body@, footer_json@),
{
    let mut buf = body;
    push_u32_le(&mut buf, footer_json.len() as u32);
    push_bytes(&mut buf, footer_json);
    buf
}

/// An error of the index carrying `msg`.
pub open spec fn is_index_error(e: HyperFindError, msg: Seq<char>) -> bool {
    e matches HyperFindError::IndexError(s) && s@ == msg
}

/// Checks the header of a segment file: the 16 header bytes, the magic,
/// and room for a footer length.
pub fn check_segment_header(data: &[u8]) -> (r: Result<(), HyperFindError>)
    ensures
        data@.len() < 16 ==> (r matches Err(e) && is_index_error(e, "Segment too small"@)),
        data@.len() >= 16 && data@.subrange(0, 4) != segment_magic() ==> (r matches Err(e) && is_index_error(
            e,
            "Invalid segment magic"@,
        )),
        data@.len() >= 16 && data@.subrange(0, 4) == segment_magic() && data@.len() < 20 ==> (r matches Err(e)
            && is_index_error(e, "Segment too small for footer"@)),
        data@.len() >= 20 && data@.subrange(0, 4) == segment_magic() ==> r is Ok,
{
    let n = data.len();
    if n < HEADER_LEN {
        return Err(HyperFindError::IndexError(String::from_str("Segment too small")));
    }
    if !(data[0] == 72u8 && data[1] == 70u8 && data[2] == 83u8 && data[3] == 71u8) {
        assert(data@.subrange(0, 4) != segment_magic()) by {
            if data@.subrange(0, 4) == segment_magic() {
                assert(data@.subrange(0, 4)[0] == data@[0]);
                assert(data@.subrange(0, 4)[1] == data@[1]);
                assert(data@.subrange(0, 4)[2] == data@[2]);
                assert(data@.subrange(0, 4)[3] == data@[3]);
            }
        }
        return Err(HyperFindError::IndexError(String::from_str("Invalid segment magic")));
    }
    assert(data@.subrange(0, 4) =~= segment_magic());
    if n < HEADER_LEN + 4 {
        return Err(HyperFindError::IndexError(String::from_str("Segment too small for footer")));
    }
    Ok(())
}

/// Where the search for the footer length starts: 8 KiB before the end,
/// or right after the header.
pub open spec fn scan_start(len: int) -> int {
    if len > FOOTER_SCAN {
        len - FOOTER_SCAN
    } else {
        16
    }
}

/// A position whose `u32` reads as a footer length between 1 and 4095
/// that ends exactly at the end of the file.
pub open spec fn is_footer_candidate(data: Seq<u8>, p: int) -> bool {
    let fl = le32_at(data, p);
    0 < fl < MAX_FOOTER_LEN && p + 4 + fl == data.len()
}

/// The positions, in increasing order, from `scan_start` up to four bytes
/// before the end, that are footer candidates.
pub fn footer_candidates(data: &[u8]) -> (r: Vec<usize>)
    ensures
        forall|i: int, j: int| 0 <= i < j < r@.len() ==> r@[i] < r@[j],
        forall|p: int| #[trigger] r@.contains(p as usize) && 0 <= p <= usize::MAX <==> (scan_start(data@.len() as int) <= p
            < data@.len() - 4 && is_footer_candidate(data@, p)),
{
    let n = data.len();
    let start: usize = if n > FOOTER_SCAN { n - FOOTER_SCAN } else { HEADER_LEN };
    let end: usize = if n >= 4 { n - 4 } else { 0 };
    let mut out: Vec<usize> = Vec::new();
    let mut p: usize = start;
    while p < end
        invariant
            n == data@.len(),
            start == scan_start(n as int),
            end == (if n >= 4 { n - 4 } else { 0 }),
            start <= p || end <= p,
            forall|i: int, j: int| 0 <= i < j < out@.len() ==> out@[i] < out@[j],
            forall|i: int| 0 <= i < out@.len() ==> out@[i] < p,
            forall|q: int| #[trigger] out@.contains(q as usize) && 0 <= q <= usize::MAX <==> (start <= q < p && q < end
                && is_footer_candidate(data@, q)),
        decreases end - p,
    {
        let fl = read_u32_le(data, p) as usize;
        let ghost before = out@;
        if fl > 0 && fl < 4096 && fl == n - p - 4 {
            out.push(p);
            assert forall|q: int| #[trigger] out@.contains(q as usize) && 0 <= q <= usize::MAX <==> (start <= q < p + 1
                && q < end && is_footer_candidate(data@, q)) by {
                if 0 <= q <= usize::MAX && out@.contains(q as usize) && q != p {
                    let k = choose|k: int| 0 <= k < out@.len() && out@[k] == q as usize;
                    assert(k < before.len());
                    assert(before.contains(q as usize));
                }
                if q == p {
                    assert(out@[out@.len() - 1] == p);
                }
                if 0 <= q <= usize::MAX && before.contains(q as usize) {
                    let k = choose|k: int| 0 <= k < before.len() && before[k] == q as usize;
                    assert(out@[k] == q as usize);
                }
            }
        } else {
            assert forall|q: int| #[trigger] out@.contains(q as usize) && 0 <= q <= usize::MAX <==> (start <= q < p + 1
                && q < end && is_footer_candidate(data@, q)) by {
                if q == p && out@.contains(q as usize) {
                    let k = choose|k: int| 0 <= k < out@.len() && out@[k] == q as usize;
                }
            }
        }
        p += 1;
    }
    proof {
        assert forall|q: int| #[trigger] out@.contains(q as usize) && 0 <= q <= usize::MAX <==> (scan_start(data@.len() as int)
            <= q < data@.len() - 4 && is_footer_candidate(data@, q)) by {
            if n < 4 {
                if out@.contains(q as usize) && 0 <= q <= usize::MAX {
                }
            }
        }
    }
    out
}

/// The detail of a checksum that does not match.
pub open spec fn checksum_mismatch(expected: u32, got: u32) -> Seq<char> {
    "Segment checksum mismatch: expected "@ + decimal(expected as nat) + ", got "@ + decimal(got as nat)
}

/// Checks the CRC-32 of the sections, the bytes from the end of the header
/// up to the footer length at `footer_pos`, against the footer's.
pub fn verify_segment_checksum(data: &[u8], footer_pos: usize, expected: u32) -> (r: Result<(), HyperFindError>)
    requires
        16 <= footer_pos <= data@.len(),
    ensures
        crc32_of(data@.subrange(16, footer_pos as int)) == expected ==> r is Ok,
        crc32_of(data@.subrange(16, footer_pos as int)) != expected ==> (r matches Err(e) && is_index_error(
            e,
            checksum_mismatch(expected, crc32_of(data@.subrange(16, footer_pos as int))),
        )),
{
    let computed = crc32(&data[16..footer_pos]);
    if computed != expected {
        let mut m = String::from_str("Segment checksum mismatch: expected ");
        push_decimal(&mut m, expected as u128);
        m.append(", got ");
        push_decimal(&mut m, computed as u128);
        return Err(HyperFindError::IndexError(m));
    }
    Ok(())
}

/// The three sections that a footer names lie within the data after the
/// header.
pub open spec fn sections_fit(len: int, f: SegmentFooter) -> bool {
    16 + f.doc_store_len + f.trigram_len + f.bitmap_len <= len
}

/// Whether the sections a footer names lie within `data`.
pub fn footer_sections_fit(data: &[u8], footer: &SegmentFooter) -> (r: bool)
    ensures
        r == sections_fit(data@.len() as int, *footer),
{
    let n = data.len() as u64;
    footer.doc_store_len <= n && footer.trigram_len <= n && footer.bitmap_len <= n && n >= 16
        && footer.doc_store_len <= n - 16 && footer.trigram_len <= n - 16 - footer.doc_store_len
        && footer.bitmap_len <= n - 16 - footer.doc_store_len - footer.trigram_len
}

/// The document store, trigram and bitmap sections that a footer names,
/// read right after the header in that order.
pub fn extract_sections(data: &[u8], footer: &SegmentFooter) -> (r: (Vec<u8>, Vec<u8>, Vec<u8>))
    requires
        sections_fit(data@.len() as int, *footer),
    ensures
        ({
            let d = 16 + footer.doc_store_len;
            let t = d + footer.trigram_len;
            let b = t + footer.bitmap_len;
            &&& r.0@ == data@.subrange(16, d)
            &&& r.1@ == data@.subrange(d, t)
            &&& r.2@ == data@.subrange(t, b)
        }),
{
    // the length of `data` fits a `usize`
    let n = data.len();
    let d = HEADER_LEN + footer.doc_store_len as usize;
    let t = d + footer.trigram_len as usize;
    let b = t + footer.bitmap_len as usize;
    (bytes_to_vec(&data[HEADER_LEN..d]), bytes_to_vec(&data[d..t]), bytes_to_vec(&data[t..b]))
}

/// What reading a segment does with one footer candidate once its JSON
/// has been parsed, or has failed to parse.
pub enum FooterStep {
    /// The footer did not parse: the next candidate is tried.
    TryNext,
    /// The footer length sits inside the header.
    InsideHeader,
    /// The checksum matched but the sections do not fit in the file.
    SectionsOutside,
    /// The reading ends with the three sections, or with the checksum error.
    Done(Result<(Vec<u8>, Vec<u8>, Vec<u8>), HyperFindError>),
}

/// Decides what a footer candidate at `candidate_pos` gives: a footer that
/// did not parse sends the reading on to the next candidate; a parsed one
/// ends it, with the checksum error, or, when the checksum matches, with
/// the sections it names. A position inside the header, or sections that
/// the file cannot hold, is reported as such.
pub fn footer_step(data: &[u8], candidate_pos: usize, parsed: Option<SegmentFooter>) -> (r: FooterStep)
    requires
        candidate_pos <= data@.len(),
    ensures
        match parsed {
            None => r is TryNext,
            Some(f) => if candidate_pos < 16 {
                r is InsideHeader
            } else if crc32_of(data@.subrange(16, candidate_pos as int)) != f.checksum {
                r matches FooterStep::Done(Err(e)) && is_index_error(
                    e,
                    checksum_mismatch(f.checksum, crc32_of(data@.subrange(16, candidate_pos as int))),
                )
            } else if !sections_fit(data@.len() as int, f) {
                r is SectionsOutside
            } else {
                r matches FooterStep::Done(Ok(t)) && ({
                    let d = 16 + f.doc_store_len;
                    let t2 = d + f.trigram_len;
                    let b = t2 + f.bitmap_len;
                    &&& t.0@ == data@.subrange(16, d)
                    &&& t.1@ == data@.subrange(d, t2)
                    &&& t.2@ == data@.subrange(t2, b)
                })
            },
        },
{
    match parsed {
        None => FooterStep::TryNext,
        Some(footer) => {
            if candidate_pos < HEADER_LEN {
                return FooterStep::InsideHeader;
            }
            match verify_segment_checksum(data, candidate_pos, footer.checksum) {
                Err(e) => FooterStep::Done(Err(e)),
                Ok(()) => {
                    if !footer_sections_fit(data, &footer) {
                        return FooterStep::SectionsOutside;
                    }
                    FooterStep::Done(Ok(extract_sections(data, &footer)))
                },
            }
        },
    }
}

/// What is written is read back: in a segment file whose footer is between
/// 1 and 4095 bytes, the header holds the magic, version and document
/// count, the header checks pass, the position of the footer length is a
/// candidate, the checksum that `footer_of` records matches, and the
/// footer's sections are the three that were written.
pub proof fn lemma_segment_roundtrip(doc: Seq<u8>, tri: Seq<u8>, bmp: Seq<u8>, doc_count: u64, json: Seq<u8>)
    requires
        0 < json.len() < MAX_FOOTER_LEN,
        16 + doc.len() + tri.len() + bmp.len() + 4 + json.len() <= usize::MAX,
    ensures
        ({
            let data = segment_file_bytes(segment_body_bytes(doc, tri, bmp, doc_count), json);
            let p: int = (16 + doc.len() + tri.len() + bmp.len()) as int;
            let f = footer_of(doc, tri, bmp, doc_count);
            &&& data.subrange(0, 16) == segment_header(doc_count)
            &&& data.subrange(0, 4) == segment_magic()
            &&& data.len() >= 20
            &&& scan_start(data.len() as int) <= p < data.len() - 4
            &&& is_footer_candidate(data, p)
            &&& crc32_of(data.subrange(16, p)) == f.checksum
            &&& sections_fit(data.len() as int, f)
            &&& data.subrange(16, 16 + f.doc_store_len) == doc
            &&& data.subrange(16 + f.doc_store_len, 16 + f.doc_store_len + f.trigram_len) == tri
            &&& data.subrange(16 + f.doc_store_len + f.trigram_len, 16 + f.doc_store_len + f.trigram_len
                + f.bitmap_len) == bmp
        }),
{
    let body = segment_body_bytes(doc, tri, bmp, doc_count);
    let data = segment_file_bytes(body, json);
    let p: int = (16 + doc.len() + tri.len() + bmp.len()) as int;
    let dl: int = doc.len() as int;
    let tl: int = tri.len() as int;
    assert(body.len() == p);
    assert(data.subrange(0, 16) =~= segment_header(doc_count));
    assert(data.subrange(0, 4) =~= segment_magic());
    assert(data.subrange(p, p + 4) =~= u32_le(json.len() as u32));
    lemma_u32_le_roundtrip(json.len() as u32, data, p);
    assert(data.subrange(16, p) =~= doc + tri + bmp);
    assert(data.subrange(16, 16 + dl) =~= doc);
    assert(data.subrange(16 + dl, 16 + dl + tl) =~= tri);
    assert(data.subrange(16 + dl + tl, p) =~= bmp);
}

} // verus!
