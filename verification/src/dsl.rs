//! The query language: whitespace-separated keywords and quoted phrases,
//! with `ext:`, `path:`, `size:`, `modified:`, `type:` and `content:`
//! filters.

use vstd::prelude::*;
use vstd::string::*;
use vstd::utf8::{encode_utf8, decode_utf8, is_char_boundary};
use crate::models::{opt_text, EntryType, SearchFilters, SearchQuery, SortField, SortOrder, HyperFindError, Timestamp, texts};
use crate::stdx::{push_char, to_lowercase, unicode_lowercase};
use crate::text::{trim_whitespace, trim_ws, trim_start_ws, trim_end_ws, is_white_space, lower_byte};
use vstd::utf8::is_ascii_chars;
use crate::text::{chars_of, string_of_chars, strip_prefix_ci, eq_both_lower, prefix_cut_ok};
use crate::dates::{date_of, parse_date, next_day, add_one_day};

verus! {

// ---------------------------------------------------------------------
// Tokens
// ---------------------------------------------------------------------

/// The tokens read so far, the token being read, and whether a quote is open.
pub type TokState = (Seq<Seq<char>>, Seq<char>, bool);

/// `tokens` with `cur` appended when it is not empty.
pub open spec fn flush(tokens: Seq<Seq<char>>, cur: Seq<char>) -> Seq<Seq<char>> {
    if cur.len() == 0 {
        tokens
    } else {
        tokens.push(cur)
    }
}

/// One character of input: a quote ends the current token and opens or
/// closes a phrase; a space or tab outside a phrase ends the current
/// token; anything else extends it.
pub open spec fn tok_step(st: TokState, ch: char) -> TokState {
    if ch == '"' {
        (flush(st.0, st.1), Seq::empty(), !st.2)
    } else if (ch == ' ' || ch == '\t') && !st.2 {
        (flush(st.0, st.1), Seq::empty(), false)
    } else {
        (st.0, st.1.push(ch), st.2)
    }
}

/// The state after reading all of `cs`.
pub open spec fn tok_run(cs: Seq<char>) -> TokState
    decreases cs.len(),
{
    if cs.len() == 0 {
        (Seq::empty(), Seq::empty(), false)
    } else {
        tok_step(tok_run(cs.drop_last()), cs.last())
    }
}

/// The tokens of an input, or `None` when a quote is left open.
pub open spec fn tokens_of(cs: Seq<char>) -> Option<Seq<Seq<char>>> {
    let st = tok_run(cs);
    if st.2 {
        None
    } else {
        Some(flush(st.0, st.1))
    }
}

/// An error of the query language carrying `msg`.
pub open spec fn is_parse_error(e: HyperFindError, msg: Seq<char>) -> bool {
    e matches HyperFindError::ParseError(s) && s@ == msg
}

/// Splits a query into tokens (see `tok_step`); an unclosed quote is an error.
pub fn tokenize(input: &str) -> (r: Result<Vec<String>, HyperFindError>)
    ensures
        match r {
            Ok(v) => tokens_of(input@) == Some(texts(v@)),
            Err(e) => tokens_of(input@) is None && is_parse_error(e, "Unclosed quote in query string"@),
        },
{
    let chars = chars_of(input);
    let mut tokens: Vec<String> = Vec::new();
    let mut current = String::new();
    let mut in_quotes = false;
    let mut i: usize = 0;
    while i < chars.len()
        invariant
            chars@ == input@,
            i <= chars@.len(),
            tok_run(chars@.take(i as int)) == (texts(tokens@), current@, in_quotes),
        decreases chars@.len() - i,
    {
        let ch = chars[i];
        let ghost before = (texts(tokens@), current@, in_quotes);
        if ch == '"' || ((ch == ' ' || ch == '\t') && !in_quotes) {
            if !current.as_str().is_empty() {
                let ghost tk = texts(tokens@);
                tokens.push(current.clone());
                assert(texts(tokens@) =~= tk.push(current@));
            }
            assert(current@.len() == 0 ==> current@ =~= Seq::<char>::empty());
            current = String::new();
            if ch == '"' {
                in_quotes = !in_quotes;
            }
        } else {
            push_char(&mut current, ch);
        }
        proof {
            assert(chars@.take(i + 1).drop_last() =~= chars@.take(i as int));
            assert(tok_step(before, ch) == (texts(tokens@), current@, in_quotes));
        }
        i += 1;
    }
    assert(chars@.take(chars@.len() as int) =~= chars@);
    if in_quotes {
        proof {
            reveal_strlit("Unclosed quote in query string");
        }
        return Err(HyperFindError::ParseError(String::from_str("Unclosed quote in query string")));
    }
    if !current.as_str().is_empty() {
        let ghost tk = texts(tokens@);
        tokens.push(current);
        assert(texts(tokens@) =~= tk.push(tok_run(input@).1));
    }
    Ok(tokens)
}

// ---------------------------------------------------------------------
// Numbers
// ---------------------------------------------------------------------

/// A decimal digit.
pub open spec fn is_digit(c: char) -> bool {
    '0' <= c && c <= '9'
}

/// The value of a digit.
pub open spec fn digit_value(c: char) -> int {
    (c as int) - ('0' as int)
}

/// The value of a string of digits.
pub open spec fn digits_value(s: Seq<char>) -> int
    decreases s.len(),
{
    if s.len() == 0 {
        0
    } else {
        10 * digits_value(s.drop_last()) + digit_value(s.last())
    }
}

/// Every character is a decimal digit.
pub open spec fn all_digits(d: Seq<char>) -> bool {
    forall|i: int| 0 <= i < d.len() ==> is_digit(#[trigger] d[i])
}

/// The digits after an optional leading `+`.
pub open spec fn unsigned_digits(s: Seq<char>) -> Seq<char> {
    if s.len() > 0 && s[0] == '+' {
        s.drop_first()
    } else {
        s
    }
}

/// What `u64::from_str` reads: an optional `+`, then one or more decimal
/// digits whose value fits in a `u64`.
pub open spec fn u64_of(s: Seq<char>) -> Option<u64> {
    let d = unsigned_digits(s);
    if d.len() > 0 && all_digits(d) && digits_value(d) <= u64::MAX {
        Some(digits_value(d) as u64)
    } else {
        None
    }
}

proof fn lemma_digits_value_grows(s: Seq<char>, k: int)
    requires
        0 <= k <= s.len(),
        forall|i: int| 0 <= i < s.len() ==> is_digit(#[trigger] s[i]),
    ensures
        digits_value(s.take(k)) <= digits_value(s),
        0 <= digits_value(s.take(k)),
    decreases s.len() - k,
{
    if k < s.len() {
        lemma_digits_value_grows(s, k + 1);
        assert(s.take(k + 1).drop_last() =~= s.take(k));
    } else {
        assert(s.take(k) =~= s);
    }
    lemma_digits_nonneg(s.take(k));
}

proof fn lemma_digits_nonneg(s: Seq<char>)
    requires
        forall|i: int| 0 <= i < s.len() ==> is_digit(#[trigger] s[i]),
    ensures
        0 <= digits_value(s),
    decreases s.len(),
{
    if s.len() > 0 {
        lemma_digits_nonneg(s.drop_last());
    }
}

/// Reads a `u64` as `u64::from_str` does (see `u64_of`).
pub fn parse_u64(s: &str) -> (r: Option<u64>)
    ensures
        r == u64_of(s@),
{
    let cs = chars_of(s);
    let n = cs.len();
    let start: usize = if n > 0 && cs[0] == '+' { 1 } else { 0 };
    let ghost d = unsigned_digits(s@);
    assert(d =~= cs@.subrange(start as int, n as int));
    if start >= n {
        return None;
    }
    let mut v: u64 = 0;
    let mut i: usize = start;
    while i < n
        invariant
            n == cs@.len(),
            cs@ == s@,
            start <= i <= n,
            d == cs@.subrange(start as int, n as int),
            d == unsigned_digits(s@),
            forall|k: int| 0 <= k < i - start ==> is_digit(#[trigger] d[k]),
            v == digits_value(d.take(i - start)),
        decreases n - i,
    {
        let c = cs[i];
        if !('0' <= c && c <= '9') {
            assert(d[i - start] == c);
            assert(!is_digit(d[i - start]));
            assert(!all_digits(d));
            assert(unsigned_digits(s@) == d);
            assert(!all_digits(unsigned_digits(s@)));
            assert(u64_of(s@) is None);
            return None;
        }
        let dv = (c as u32 - '0' as u32) as u64;
        assert(d.take(i - start + 1).drop_last() =~= d.take(i - start));
        if v > (u64::MAX - dv) / 10 {
            proof {
                assert(digits_value(d.take(i - start + 1)) > u64::MAX) by (nonlinear_arith)
                    requires
                        digits_value(d.take(i - start + 1)) == 10 * v + dv,
                        v > (u64::MAX - dv) / 10,
                        dv <= 9,
                ;
                if all_digits(d) {
                    lemma_digits_value_grows(d, i - start + 1);
                    assert(digits_value(d) > u64::MAX);
                }
                assert(u64_of(s@) is None);
            }
            return None;
        }
        v = v * 10 + dv;
        i += 1;
    }
    assert(d.take(n - start) =~= d);
    Some(v)
}

// ---------------------------------------------------------------------
// Filters
// ---------------------------------------------------------------------

/// What a set of filters holds, texts as characters.
pub struct FiltersView {
    pub extension: Option<Seq<char>>,
    pub path_contains: Option<Seq<char>>,
    pub size_min: Option<u64>,
    pub size_max: Option<u64>,
    pub modified_after: Option<Timestamp>,
    pub modified_before: Option<Timestamp>,
    pub entry_type: Option<EntryType>,
}

/// The view of a set of filters.
pub open spec fn filters_view(f: SearchFilters) -> FiltersView {
    FiltersView {
        extension: opt_text(f.extension),
        path_contains: opt_text(f.path_contains),
        size_min: f.size_min,
        size_max: f.size_max,
        modified_after: f.modified_after,
        modified_before: f.modified_before,
        entry_type: f.entry_type,
    }
}

/// No filter set.
pub open spec fn no_filters() -> FiltersView {
    FiltersView {
        extension: None,
        path_contains: None,
        size_min: None,
        size_max: None,
        modified_after: None,
        modified_before: None,
        entry_type: None,
    }
}

/// The detail of a size that does not read.
pub open spec fn invalid_size(s: Seq<char>) -> Seq<char> {
    "Invalid size: '"@ + s + "'"@
}

/// The detail of a date that does not read.
pub open spec fn invalid_date(s: Seq<char>) -> Seq<char> {
    "Invalid date: '"@ + s + "'"@
}

/// The detail of an unknown entry type.
pub open spec fn unknown_type(s: Seq<char>) -> Seq<char> {
    "Unknown type filter: '"@ + s + "'. Expected 'file' or 'dir'."@
}

/// `size:` with its value: `>n` sets the minimum, `<n` the maximum, `n`
/// both; the error carries the detail.
pub open spec fn size_step(v: Seq<char>, f: FiltersView) -> Result<FiltersView, Seq<char>> {
    if v.len() > 0 && (v[0] == '>' || v[0] == '<') {
        let n = v.drop_first();
        match u64_of(n) {
            Some(x) => if v[0] == '>' {
                Ok(FiltersView { size_min: Some(x), ..f })
            } else {
                Ok(FiltersView { size_max: Some(x), ..f })
            },
            None => Err(invalid_size(n)),
        }
    } else {
        match u64_of(v) {
            Some(x) => Ok(FiltersView { size_min: Some(x), size_max: Some(x), ..f }),
            None => Err(invalid_size(v)),
        }
    }
}

/// `modified:` with its value: `>date` sets the lower bound, `<date` the
/// upper bound, `date` the whole day.
pub open spec fn modified_step(v: Seq<char>, f: FiltersView) -> Result<FiltersView, Seq<char>> {
    if v.len() > 0 && (v[0] == '>' || v[0] == '<') {
        let d = v.drop_first();
        match date_of(d) {
            Some(t) => if v[0] == '>' {
                Ok(FiltersView { modified_after: Some(t), ..f })
            } else {
                Ok(FiltersView { modified_before: Some(t), ..f })
            },
            None => Err(invalid_date(d)),
        }
    } else {
        match date_of(v) {
            Some(t) => Ok(FiltersView { modified_after: Some(t), modified_before: Some(next_day(t)), ..f }),
            None => Err(invalid_date(v)),
        }
    }
}

/// The filters other than the two date bounds are the same.
pub open spec fn same_but_dates(g: FiltersView, f: FiltersView) -> bool {
    &&& g.extension == f.extension
    &&& g.path_contains == f.path_contains
    &&& g.size_min == f.size_min
    &&& g.size_max == f.size_max
    &&& g.entry_type == f.entry_type
}

/// The filters other than the two size bounds are the same.
pub open spec fn same_but_sizes(g: FiltersView, f: FiltersView) -> bool {
    &&& g.extension == f.extension
    &&& g.path_contains == f.path_contains
    &&& g.modified_after == f.modified_after
    &&& g.modified_before == f.modified_before
    &&& g.entry_type == f.entry_type
}

/// `modified:` with `<` and a date that reads keeps files modified up to
/// that date: it sets the upper bound to the date and leaves the lower one;
/// with `>` it sets the lower bound and leaves the upper one; a bare date
/// keeps that day, from its start to the start of the next day (86400
/// seconds later, where that fits). Nothing else changes, and a date that does not read is
/// an error naming it.
pub proof fn lemma_modified_bounds(d: Seq<char>, f: FiltersView)
    ensures
        date_of(d) matches Some(t) ==> (modified_step(seq!['<'] + d, f) matches Ok(g) && g.modified_before == Some(t)
            && g.modified_after == f.modified_after && same_but_dates(g, f)),
        date_of(d) matches Some(t) ==> (modified_step(seq!['>'] + d, f) matches Ok(g) && g.modified_after == Some(t)
            && g.modified_before == f.modified_before && same_but_dates(g, f)),
        date_of(d) matches Some(t) ==> (d.len() == 0 || (d[0] != '<' && d[0] != '>')) ==> (modified_step(d, f) matches Ok(g)
            && g.modified_after == Some(t) && same_but_dates(g, f) && (g.modified_before matches Some(b)
            && (t.secs + 86400 <= i64::MAX ==> b.secs == t.secs + 86400) && b.nanos == t.nanos)),
        date_of(d) is None ==> modified_step(seq!['<'] + d, f) == Err::<FiltersView, Seq<char>>(invalid_date(d)),
        date_of(d) is None ==> modified_step(seq!['>'] + d, f) == Err::<FiltersView, Seq<char>>(invalid_date(d)),
{
    assert((seq!['<'] + d).drop_first() =~= d);
    assert((seq!['>'] + d).drop_first() =~= d);
    assert((seq!['<'] + d)[0] == '<');
    assert((seq!['>'] + d)[0] == '>');
}

/// `size:` with `>` and a number sets the minimum only, with `<` the
/// maximum only, and a bare number both, to that number; nothing else
/// changes.
pub proof fn lemma_size_bounds(n: Seq<char>, f: FiltersView)
    ensures
        u64_of(n) matches Some(x) ==> (size_step(seq!['>'] + n, f) matches Ok(g) && g.size_min == Some(x)
            && g.size_max == f.size_max && same_but_sizes(g, f)),
        u64_of(n) matches Some(x) ==> (size_step(seq!['<'] + n, f) matches Ok(g) && g.size_max == Some(x)
            && g.size_min == f.size_min && same_but_sizes(g, f)),
        u64_of(n) matches Some(x) ==> (n.len() == 0 || (n[0] != '<' && n[0] != '>')) ==> (size_step(n, f) matches Ok(g)
            && g.size_min == Some(x) && g.size_max == Some(x) && same_but_sizes(g, f)),
{
    assert((seq!['<'] + n).drop_first() =~= n);
    assert((seq!['>'] + n).drop_first() =~= n);
    assert((seq!['<'] + n)[0] == '<');
    assert((seq!['>'] + n)[0] == '>');
}

/// `s` without its leading dots.
pub open spec fn skip_dots(s: Seq<char>) -> Seq<char>
    decreases s.len(),
{
    if s.len() > 0 && s[0] == '.' {
        skip_dots(s.drop_first())
    } else {
        s
    }
}

/// The entry type a lower-cased `type:` value names.
pub open spec fn entry_type_of(v: Seq<char>) -> Option<EntryType> {
    if v == "file"@ {
        Some(EntryType::File)
    } else if v == "dir"@ || v == "directory"@ || v == "folder"@ {
        Some(EntryType::Directory)
    } else {
        None
    }
}

// ---------------------------------------------------------------------
// Queries
// ---------------------------------------------------------------------

/// Slicing a token after as many bytes as `p` has is allowed.
pub open spec fn cut_ok(t: Seq<char>, p: Seq<char>) -> bool {
    encode_utf8(t).len() >= encode_utf8(p).len() ==> is_char_boundary(encode_utf8(t), encode_utf8(p).len() as int)
}

/// The rest of token `t` after prefix `p`, when `t` starts with `p`
/// ASCII case-insensitively (compared byte-wise).
pub open spec fn ci_rest(t: Seq<char>, p: Seq<char>) -> Option<Seq<char>> {
    let tb = encode_utf8(t);
    let pb = encode_utf8(p);
    if tb.len() >= pb.len() && eq_both_lower(tb.subrange(0, pb.len() as int), pb) {
        Some(decode_utf8(tb.subrange(pb.len() as int, tb.len() as int)))
    } else {
        None
    }
}

/// The keywords, the filters and whether contents are searched, as read so far.
pub type QueryState = (Seq<Seq<char>>, FiltersView, bool);

/// What reading a token leads to: a slice at a byte that is not a
/// character boundary, an error with its detail, or the next state.
pub enum Step {
    Panic,
    Fail(Seq<char>),
    Go(QueryState),
}

/// Reading `t`, when it is a `type:`, `content:` or plain token.
pub open spec fn tail_step(st: QueryState, t: Seq<char>) -> Step {
    if !cut_ok(t, "type:"@) {
        Step::Panic
    } else if let Some(v) = ci_rest(t, "type:"@) {
        match entry_type_of(unicode_lowercase(v)) {
            Some(et) => Step::Go((st.0, FiltersView { entry_type: Some(et), ..st.1 }, st.2)),
            None => Step::Fail(unknown_type(unicode_lowercase(v))),
        }
    } else if !cut_ok(t, "content:"@) {
        Step::Panic
    } else if ci_rest(t, "content:"@) is Some {
        Step::Go((st.0, st.1, true))
    } else {
        Step::Go((st.0.push(unicode_lowercase(t)), st.1, st.2))
    }
}

/// Reading one token: the prefixes are tried in order.
pub open spec fn token_step(st: QueryState, t: Seq<char>) -> Step {
    if !cut_ok(t, "ext:"@) {
        Step::Panic
    } else if let Some(v) = ci_rest(t, "ext:"@) {
        Step::Go((st.0, FiltersView { extension: Some(skip_dots(unicode_lowercase(v))), ..st.1 }, st.2))
    } else if !cut_ok(t, "path:"@) {
        Step::Panic
    } else if let Some(v) = ci_rest(t, "path:"@) {
        Step::Go((st.0, FiltersView { path_contains: Some(v), ..st.1 }, st.2))
    } else if !cut_ok(t, "size:"@) {
        Step::Panic
    } else if let Some(v) = ci_rest(t, "size:"@) {
        match size_step(v, st.1) {
            Ok(f) => Step::Go((st.0, f, st.2)),
            Err(m) => Step::Fail(m),
        }
    } else if !cut_ok(t, "modified:"@) {
        Step::Panic
    } else if let Some(v) = ci_rest(t, "modified:"@) {
        match modified_step(v, st.1) {
            Ok(f) => Step::Go((st.0, f, st.2)),
            Err(m) => Step::Fail(m),
        }
    } else {
        tail_step(st, t)
    }
}

/// Reading tokens in order, stopping at the first that does not lead on.
pub open spec fn run_tokens(ts: Seq<Seq<char>>) -> Step
    decreases ts.len(),
{
    if ts.len() == 0 {
        Step::Go((Seq::empty(), no_filters(), false))
    } else {
        match run_tokens(ts.drop_last()) {
            Step::Go(st) => token_step(st, ts.last()),
            other => other,
        }
    }
}

/// Once reading has stopped, later tokens change nothing.
proof fn lemma_run_stops(ts: Seq<Seq<char>>, i: int)
    requires
        0 <= i <= ts.len(),
        !(run_tokens(ts.take(i)) is Go),
    ensures
        run_tokens(ts) == run_tokens(ts.take(i)),
    decreases ts.len() - i,
{
    if i < ts.len() {
        assert(ts.take(i + 1).drop_last() =~= ts.take(i));
        lemma_run_stops(ts, i + 1);
    } else {
        assert(ts.take(i) =~= ts);
    }
}

/// What a query reads as: `None` where reading would slice a token at a
/// byte that is not a character boundary, else the error detail or the
/// trimmed query with its state.
pub open spec fn query_outcome(raw: Seq<char>) -> Option<Result<(Seq<char>, QueryState), Seq<char>>> {
    let t = trim_ws(raw);
    if t.len() == 0 {
        Some(Ok((Seq::empty(), (Seq::empty(), no_filters(), false))))
    } else {
        match tokens_of(t) {
            None => Some(Err("Unclosed quote in query string"@)),
            Some(ts) => match run_tokens(ts) {
                Step::Panic => None,
                Step::Fail(m) => Some(Err(m)),
                Step::Go(st) => Some(Ok((t, st))),
            },
        }
    }
}

/// A query matches what `query_outcome` says it reads as, with no limit
/// and the relevance order.
pub open spec fn query_matches(q: SearchQuery, raw: Seq<char>, st: QueryState) -> bool {
    &&& q.raw@ == raw
    &&& texts(q.keywords@) == st.0
    &&& filters_view(q.filters) == st.1
    &&& q.search_content == st.2
    &&& q.limit is None
    &&& q.sort_by == SortField::Relevance
    &&& q.sort_order == SortOrder::Descending
}

/// The result of parsing agrees with `query_outcome`.
pub open spec fn parse_agrees(r: Result<SearchQuery, HyperFindError>, o: Result<(Seq<char>, QueryState), Seq<char>>) -> bool {
    match o {
        Ok(v) => r matches Ok(q) && query_matches(q, v.0, v.1),
        Err(m) => r matches Err(e) && is_parse_error(e, m),
    }
}

/// ASCII text encodes as one byte per character, each below 128.
proof fn lemma_ascii_bytes(t: Seq<char>)
    requires
        is_ascii_chars(t),
    ensures
        encode_utf8(t).len() == t.len(),
        forall|i: int| 0 <= i < t.len() ==> #[trigger] encode_utf8(t)[i] == t[i] as u8 && (t[i] as u8) < 128,
{
    vstd::utf8::is_ascii_chars_encode_utf8(t);
    assert forall|i: int| 0 <= i < t.len() implies (#[trigger] t[i] as u8) < 128 by {
        assert('\0' <= t[i] <= '\u{7f}');
    }
}

/// Slicing ASCII text after as many bytes as an ASCII prefix has is allowed.
proof fn lemma_ascii_cut_ok(t: Seq<char>, p: Seq<char>)
    requires
        is_ascii_chars(t),
        is_ascii_chars(p),
    ensures
        cut_ok(t, p),
{
    lemma_ascii_bytes(t);
    lemma_ascii_bytes(p);
    let tb = encode_utf8(t);
    let k = encode_utf8(p).len() as int;
    vstd::utf8::encode_utf8_valid_utf8(t);
    vstd::utf8::is_char_boundary_start_end_of_seq(tb);
    if tb.len() >= k && 0 < k < tb.len() {
        vstd::utf8::is_char_boundary_iff_not_is_continuation_byte(tb, k);
        assert(tb[k] == t[k] as u8);
    }
}

/// On ASCII text, a prefix that matches ignoring ASCII case is cut off and
/// the characters after it are given back; a first character that differs
/// ignoring case means no match.
proof fn lemma_ascii_ci_rest(t: Seq<char>, p: Seq<char>)
    requires
        is_ascii_chars(t),
        is_ascii_chars(p),
    ensures
        (p.len() <= t.len() && forall|i: int| 0 <= i < p.len() ==> lower_byte(t[i] as u8) == lower_byte(
            #[trigger] p[i] as u8,
        )) ==> ci_rest(t, p) == Some(t.subrange(p.len() as int, t.len() as int)),
        (p.len() > 0 && t.len() > 0 && lower_byte(t[0] as u8) != lower_byte(p[0] as u8)) ==> ci_rest(t, p) is None,
{
    lemma_ascii_bytes(t);
    lemma_ascii_bytes(p);
    let tb = encode_utf8(t);
    let pb = encode_utf8(p);
    let n = p.len() as int;
    if p.len() <= t.len() && forall|i: int| 0 <= i < p.len() ==> lower_byte(t[i] as u8) == lower_byte(
        #[trigger] p[i] as u8,
    ) {
        assert forall|i: int| 0 <= i < pb.len() implies lower_byte(tb.subrange(0, n)[0 + i]) == lower_byte(
            #[trigger] pb[i],
        ) by {
            assert(tb.subrange(0, n)[i] == tb[i]);
            assert(lower_byte(t[i] as u8) == lower_byte(p[i] as u8));
        }
        assert(eq_both_lower(tb.subrange(0, n), pb));
        let rest = t.subrange(n, t.len() as int);
        assert(is_ascii_chars(rest)) by {
            assert forall|i: int| 0 <= i < rest.len() implies '\0' <= #[trigger] rest[i] <= '\u{7f}' by {
                assert(rest[i] == t[n + i]);
            }
        }
        lemma_ascii_bytes(rest);
        assert(tb.subrange(n, tb.len() as int) =~= encode_utf8(rest)) by {
            assert forall|i: int| 0 <= i < rest.len() implies tb.subrange(n, tb.len() as int)[i] == encode_utf8(rest)[i] by {
                assert(rest[i] == t[n + i]);
                assert(encode_utf8(t)[n + i] == t[n + i] as u8);
            }
        }
        vstd::utf8::encode_utf8_decode_utf8(rest);
    }
    if p.len() > 0 && t.len() > 0 && lower_byte(t[0] as u8) != lower_byte(p[0] as u8) {
        if tb.len() >= pb.len() && eq_both_lower(tb.subrange(0, pb.len() as int), pb) {
            assert(tb.subrange(0, pb.len() as int)[0] == tb[0]);
            assert(lower_byte(tb.subrange(0, pb.len() as int)[0int + 0int]) == lower_byte(pb[0]));
        }
    }
}

/// A text with no space, tab or quote reads as one token.
proof fn lemma_tok_run_plain(cs: Seq<char>)
    requires
        forall|i: int| 0 <= i < cs.len() ==> #[trigger] cs[i] != ' ' && cs[i] != '\t' && cs[i] != '"',
    ensures
        tok_run(cs) == (Seq::<Seq<char>>::empty(), cs, false),
    decreases cs.len(),
{
    if cs.len() > 0 {
        lemma_tok_run_plain(cs.drop_last());
        assert(cs.drop_last().push(cs.last()) =~= cs);
        assert(cs.last() == cs[cs.len() - 1]);
    } else {
        assert(cs =~= Seq::<char>::empty());
    }
}

/// A `modified:` token with an ASCII value reads as that value applied by
/// `modified_step`: no earlier prefix takes it.
proof fn lemma_modified_token(st: QueryState, v: Seq<char>)
    requires
        is_ascii_chars(v),
    ensures
        token_step(st, "modified:"@ + v) == match modified_step(v, st.1) {
            Ok(f) => Step::Go((st.0, f, st.2)),
            Err(m) => Step::Fail(m),
        },
{
    reveal_strlit("modified:");
    reveal_strlit("ext:");
    reveal_strlit("path:");
    reveal_strlit("size:");
    let pre = "modified:"@;
    let t = pre + v;
    assert(is_ascii_chars(pre));
    assert(is_ascii_chars(t)) by {
        assert forall|i: int| 0 <= i < t.len() implies '\0' <= #[trigger] t[i] <= '\u{7f}' by {
            if i < pre.len() {
                assert(t[i] == pre[i]);
            } else {
                assert(t[i] == v[i - pre.len()]);
            }
        }
    }
    assert(is_ascii_chars("ext:"@));
    assert(is_ascii_chars("path:"@));
    assert(is_ascii_chars("size:"@));
    lemma_ascii_cut_ok(t, "ext:"@);
    lemma_ascii_cut_ok(t, "path:"@);
    lemma_ascii_cut_ok(t, "size:"@);
    lemma_ascii_cut_ok(t, pre);
    assert(t[0] == 'm');
    lemma_ascii_ci_rest(t, "ext:"@);
    lemma_ascii_ci_rest(t, "path:"@);
    lemma_ascii_ci_rest(t, "size:"@);
    lemma_ascii_ci_rest(t, pre);
    assert forall|i: int| 0 <= i < pre.len() implies lower_byte(t[i] as u8) == lower_byte(#[trigger] pre[i] as u8) by {
        assert(t[i] == pre[i]);
    }
    assert(t.subrange(pre.len() as int, t.len() as int) =~= v);
}

/// A query that is a single `modified:<d` token, `d` an ASCII date that
/// reads and holds no white space or quote, keeps the files modified up to
/// that date: it has no keyword, does not search contents, and sets only
/// the upper date bound, to that date. With `>` in place of `<` it sets
/// only the lower bound.
pub proof fn lemma_query_modified(d: Seq<char>)
    requires
        is_ascii_chars(d),
        date_of(d) is Some,
        forall|i: int| 0 <= i < d.len() ==> !is_white_space(#[trigger] d[i]) && d[i] != '"',
    ensures
        query_outcome("modified:"@ + (seq!['<'] + d)) == Some(Ok::<(Seq<char>, QueryState), Seq<char>>((
            "modified:"@ + (seq!['<'] + d),
            (Seq::<Seq<char>>::empty(), FiltersView { modified_before: date_of(d), ..no_filters() }, false),
        ))),
        query_outcome("modified:"@ + (seq!['>'] + d)) == Some(Ok::<(Seq<char>, QueryState), Seq<char>>((
            "modified:"@ + (seq!['>'] + d),
            (Seq::<Seq<char>>::empty(), FiltersView { modified_after: date_of(d), ..no_filters() }, false),
        ))),
{
    reveal_strlit("modified:");
    lemma_query_modified_op(d, '<');
    lemma_query_modified_op(d, '>');
    lemma_modified_bounds(d, no_filters());
}

proof fn lemma_query_modified_op(d: Seq<char>, op: char)
    requires
        op == '<' || op == '>',
        is_ascii_chars(d),
        forall|i: int| 0 <= i < d.len() ==> !is_white_space(#[trigger] d[i]) && d[i] != '"',
    ensures
        ({
            let q = "modified:"@ + (seq![op] + d);
            &&& trim_ws(q) == q
            &&& tokens_of(q) == Some(seq![q])
            &&& run_tokens(seq![q]) == match modified_step(seq![op] + d, no_filters()) {
                Ok(f) => Step::Go((Seq::<Seq<char>>::empty(), f, false)),
                Err(m) => Step::Fail(m),
            }
            &&& q.len() > 0
        }),
{
    reveal_strlit("modified:");
    let pre = "modified:"@;
    let v = seq![op] + d;
    let q = pre + v;
    assert(is_ascii_chars(v)) by {
        assert forall|i: int| 0 <= i < v.len() implies '\0' <= #[trigger] v[i] <= '\u{7f}' by {
            if i > 0 {
                assert(v[i] == d[i - 1]);
            }
        }
    }
    assert forall|i: int| 0 <= i < q.len() implies #[trigger] q[i] != ' ' && q[i] != '\t' && q[i] != '"'
        && !is_white_space(q[i]) by {
        if i < pre.len() {
            assert(q[i] == pre[i]);
        } else if i == pre.len() {
            assert(q[i] == op);
        } else {
            assert(q[i] == d[i - pre.len() - 1]);
        }
    }
    assert(!is_white_space(q[0]));
    assert(trim_start_ws(q) == q);
    assert(q.last() == q[q.len() - 1]);
    assert(trim_end_ws(q) == q);
    lemma_tok_run_plain(q);
    assert(flush(Seq::<Seq<char>>::empty(), q) =~= seq![q]);
    assert(seq![q].drop_last() =~= Seq::<Seq<char>>::empty());
    assert(seq![q].last() == q);
    let init: QueryState = (Seq::<Seq<char>>::empty(), no_filters(), false);
    assert(run_tokens(seq![q].drop_last()) == Step::Go(init));
    assert(run_tokens(seq![q]) == token_step(init, q));
    lemma_modified_token(init, v);
}

/// Builds `"<a>" + s + "<b>"`.
fn wrap(a: &str, s: &str, b: &str) -> (r: String)
    ensures
        r@ == a@ + s@ + b@,
{
    let mut out = String::from_str(a);
    out.append(s);
    out.append(b);
    out
}

/// Applies a `size:` value to the filters.
fn parse_size_filter(value: &str, filters: &mut SearchFilters) -> (r: Result<(), HyperFindError>)
    ensures
        match size_step(value@, filters_view(*old(filters))) {
            Ok(f) => r is Ok && filters_view(*final(filters)) == f,
            Err(m) => r matches Err(e) && is_parse_error(e, m),
        },
{
    let cs = chars_of(value);
    let n = cs.len();
    if n > 0 && (cs[0] == '>' || cs[0] == '<') {
        let num = string_of_chars(&cs, 1, n);
        assert(num@ =~= value@.drop_first());
        match parse_u64(num.as_str()) {
            Some(x) => {
                if cs[0] == '>' {
                    filters.size_min = Some(x);
                } else {
                    filters.size_max = Some(x);
                }
                Ok(())
            },
            None => Err(HyperFindError::ParseError(wrap("Invalid size: '", num.as_str(), "'"))),
        }
    } else {
        match parse_u64(value) {
            Some(x) => {
                filters.size_min = Some(x);
                filters.size_max = Some(x);
                Ok(())
            },
            None => Err(HyperFindError::ParseError(wrap("Invalid size: '", value, "'"))),
        }
    }
}

/// Applies a `modified:` value to the filters.
fn parse_modified_filter(value: &str, filters: &mut SearchFilters) -> (r: Result<(), HyperFindError>)
    ensures
        match modified_step(value@, filters_view(*old(filters))) {
            Ok(f) => r is Ok && filters_view(*final(filters)) == f,
            Err(m) => r matches Err(e) && is_parse_error(e, m),
        },
{
    let cs = chars_of(value);
    let n = cs.len();
    if n > 0 && (cs[0] == '>' || cs[0] == '<') {
        let ds = string_of_chars(&cs, 1, n);
        assert(ds@ =~= value@.drop_first());
        match parse_date(ds.as_str()) {
            Some(t) => {
                if cs[0] == '>' {
                    filters.modified_after = Some(t);
                } else {
                    filters.modified_before = Some(t);
                }
                Ok(())
            },
            None => Err(HyperFindError::ParseError(wrap("Invalid date: '", ds.as_str(), "'"))),
        }
    } else {
        match parse_date(value) {
            Some(t) => {
                filters.modified_after = Some(t);
                filters.modified_before = Some(add_one_day(t));
                Ok(())
            },
            None => Err(HyperFindError::ParseError(wrap("Invalid date: '", value, "'"))),
        }
    }
}

/// `s` without its leading dots, as a string.
fn trim_dots(s: &str) -> (r: String)
    ensures
        r@ == skip_dots(s@),
{
    let cs = chars_of(s);
    let mut i: usize = 0;
    assert(cs@.subrange(0, cs@.len() as int) =~= cs@);
    while i < cs.len() && cs[i] == '.'
        invariant
            cs@ == s@,
            i <= cs@.len(),
            skip_dots(s@) == skip_dots(cs@.subrange(i as int, cs@.len() as int)),
        decreases cs@.len() - i,
    {
        assert(cs@.subrange(i as int, cs@.len() as int).drop_first() =~= cs@.subrange(i + 1, cs@.len() as int));
        i += 1;
    }
    string_of_chars(&cs, i, cs.len())
}

/// Whether slicing `s` after as many bytes as `prefix` has is allowed.
fn can_cut(s: &str, prefix: &str) -> (r: bool)
    ensures
        r == prefix_cut_ok(s, prefix),
{
    let sl = s.as_bytes().len();
    let pl = prefix.as_bytes().len();
    sl < pl || s.is_char_boundary(pl)
}

/// The rest after a prefix, as characters.
proof fn lemma_rest_chars(s: &str, prefix: &str, rest: &str)
    requires
        rest.spec_bytes() == s.spec_bytes().subrange(prefix.spec_bytes().len() as int, s.spec_bytes().len() as int),
    ensures
        rest@ == decode_utf8(s.spec_bytes().subrange(prefix.spec_bytes().len() as int, s.spec_bytes().len() as int)),
{
    vstd::utf8::encode_utf8_decode_utf8(rest@);
}

/// The lower-cased `type:` value as an entry type.
fn entry_type_from(lower: &String) -> (r: Option<EntryType>)
    ensures
        r == entry_type_of(lower@),
{
    if *lower == String::from_str("file") {
        Some(EntryType::File)
    } else if *lower == String::from_str("dir") || *lower == String::from_str("directory")
        || *lower == String::from_str("folder") {
        Some(EntryType::Directory)
    } else {
        None
    }
}

/// Reads one token into the state; `None` where the reading
/// would slice the token at a byte that is not a character boundary.
fn read_token(token: &str, keywords: &mut Vec<String>, filters: &mut SearchFilters, content: &mut bool)
    -> (r: Option<Result<(), HyperFindError>>)
    ensures
        match token_step((texts(old(keywords)@), filters_view(*old(filters)), *old(content)), token@) {
            Step::Panic => r is None,
            Step::Fail(m) => r matches Some(Err(e)) && is_parse_error(e, m),
            Step::Go(st) => r matches Some(Ok(_)) && (texts(final(keywords)@), filters_view(*final(filters)),
                *final(content)) == st,
        },
{
    if !can_cut(token, "ext:") {
        return None;
    }
    if let Some(value) = strip_prefix_ci(token, "ext:") {
        proof { lemma_rest_chars(token, "ext:", value); }
        let lower = to_lowercase(value);
        filters.extension = Some(trim_dots(lower.as_str()));
        return Some(Ok(()));
    }
    if !can_cut(token, "path:") {
        return None;
    }
    if let Some(value) = strip_prefix_ci(token, "path:") {
        proof { lemma_rest_chars(token, "path:", value); }
        filters.path_contains = Some(String::from_str(value));
        return Some(Ok(()));
    }
    if !can_cut(token, "size:") {
        return None;
    }
    if let Some(value) = strip_prefix_ci(token, "size:") {
        proof { lemma_rest_chars(token, "size:", value); }
        return Some(parse_size_filter(value, filters));
    }
    if !can_cut(token, "modified:") {
        return None;
    }
    if let Some(value) = strip_prefix_ci(token, "modified:") {
        proof { lemma_rest_chars(token, "modified:", value); }
        return Some(parse_modified_filter(value, filters));
    }
    if !can_cut(token, "type:") {
        return None;
    }
    if let Some(value) = strip_prefix_ci(token, "type:") {
        proof { lemma_rest_chars(token, "type:", value); }
        let lower = to_lowercase(value);
        match entry_type_from(&lower) {
            Some(et) => {
                filters.entry_type = Some(et);
                return Some(Ok(()));
            },
            None => {
                return Some(Err(HyperFindError::ParseError(
                    wrap("Unknown type filter: '", lower.as_str(), "'. Expected 'file' or 'dir'."),
                )));
            },
        }
    }
    if !can_cut(token, "content:") {
        return None;
    }
    if strip_prefix_ci(token, "content:").is_some() {
        *content = true;
        return Some(Ok(()));
    }
    let ghost kw = texts(keywords@);
    keywords.push(to_lowercase(token));
    assert(texts(keywords@) =~= kw.push(unicode_lowercase(token@)));
    Some(Ok(()))
}

/// The query with nothing in it.
fn empty_query() -> (r: SearchQuery)
    ensures
        query_matches(r, Seq::empty(), (Seq::empty(), no_filters(), false)),
{
    let q = SearchQuery {
        raw: String::new(),
        keywords: Vec::new(),
        filters: SearchFilters::default(),
        limit: None,
        sort_by: SortField::default(),
        sort_order: SortOrder::default(),
        search_content: false,
    };
    assert(texts(q.keywords@) =~= Seq::<Seq<char>>::empty());
    q
}

/// Parses a query (see `query_outcome`); `None` exactly where the
/// reading would slice a token at a byte that is not a character boundary.
pub fn try_parse_query(raw: &str) -> (r: Option<Result<SearchQuery, HyperFindError>>)
    ensures
        match query_outcome(raw@) {
            None => r is None,
            Some(o) => r matches Some(x) && parse_agrees(x, o),
        },
{
    let trimmed_text = trim_whitespace(raw);
    let trimmed = trimmed_text.as_str();
    if trimmed.is_empty() {
        return Some(Ok(empty_query()));
    }
    let tokens = match tokenize(trimmed) {
        Ok(t) => t,
        Err(e) => return Some(Err(e)),
    };
    let ghost ts = texts(tokens@);
    let mut keywords: Vec<String> = Vec::new();
    let mut filters = SearchFilters::default();
    let mut content = false;
    let mut i: usize = 0;
    assert(ts.take(0) =~= Seq::<Seq<char>>::empty());
    assert(texts(keywords@) =~= Seq::<Seq<char>>::empty());
    while i < tokens.len()
        invariant
            ts == texts(tokens@),
            trimmed@ == trim_ws(raw@),
            trimmed@.len() > 0,
            tokens_of(trim_ws(raw@)) == Some(ts),
            i <= tokens@.len(),
            run_tokens(ts.take(i as int)) == Step::Go((texts(keywords@), filters_view(filters), content)),
        decreases tokens@.len() - i,
    {
        let ghost st = (texts(keywords@), filters_view(filters), content);
        assert(ts.take(i + 1).drop_last() =~= ts.take(i as int));
        assert(ts[i as int] == tokens@[i as int]@);
        match read_token(tokens[i].as_str(), &mut keywords, &mut filters, &mut content) {
            None => {
                proof { lemma_run_stops(ts, i + 1); }
                return None;
            },
            Some(Err(e)) => {
                proof { lemma_run_stops(ts, i + 1); }
                return Some(Err(e));
            },
            Some(Ok(())) => {},
        }
        i += 1;
    }
    assert(ts.take(tokens@.len() as int) =~= ts);
    Some(Ok(SearchQuery {
        raw: String::from_str(trimmed),
        keywords,
        filters,
        limit: None,
        sort_by: SortField::Relevance,
        sort_order: SortOrder::Descending,
        search_content: content,
    }))
}

/// Reading `raw` slices no token at a byte that is not a character boundary.
pub open spec fn query_sliceable(raw: Seq<char>) -> bool {
    query_outcome(raw) is Some
}

/// Parses a query: keywords are lower-cased, filters are applied in
/// order, and an error names the first token that does not read (see
/// `query_outcome`).
pub fn parse_query(raw: &str) -> (r: Result<SearchQuery, HyperFindError>)
    requires
        query_sliceable(raw@),
    ensures
        query_outcome(raw@) matches Some(o) && parse_agrees(r, o),
{
    match try_parse_query(raw) {
        Some(r) => r,
        None => {
            proof {
                assert(false);
            }
            Ok(empty_query())
        },
    }
}

} // verus!
