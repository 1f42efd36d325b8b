//! Normalising a parsed query before it is run.

use vstd::prelude::*;
use vstd::string::*;
use crate::models::{SearchQuery, texts};
use crate::stdx::{to_lowercase, unicode_lowercase};
use crate::text::{trim_whitespace, trim_ws};

verus! {

/// The result limit of a query that names none.
pub const DEFAULT_LIMIT: usize = 500;

/// Each keyword trimmed and lower-cased, the empty ones dropped.
pub open spec fn normalized_keywords(ks: Seq<Seq<char>>) -> Seq<Seq<char>>
    decreases ks.len(),
{
    if ks.len() == 0 {
        Seq::empty()
    } else {
        let k = unicode_lowercase(trim_ws(ks.last()));
        if k.len() == 0 {
            normalized_keywords(ks.drop_last())
        } else {
            normalized_keywords(ks.drop_last()).push(k)
        }
    }
}

/// Normalised keywords are never empty.
pub proof fn lemma_normalized_nonempty(ks: Seq<Seq<char>>)
    ensures
        forall|i: int| 0 <= i < normalized_keywords(ks).len() ==> (#[trigger] normalized_keywords(ks)[i]).len() > 0,
    decreases ks.len(),
{
    if ks.len() > 0 {
        lemma_normalized_nonempty(ks.drop_last());
        let rest = normalized_keywords(ks.drop_last());
        let all = normalized_keywords(ks);
        assert forall|i: int| 0 <= i < all.len() implies (#[trigger] all[i]).len() > 0 by {
            if i < rest.len() {
                assert(all[i] == rest[i]);
            }
        }
    }
}

/// Trims and lower-cases the keywords, drops the empty ones, and sets the
/// limit to 500 when the query has none; the rest is kept.
pub fn normalize_query(query: SearchQuery) -> (r: SearchQuery)
    ensures
        texts(r.keywords@) == normalized_keywords(texts(query.keywords@)),
        r.limit == (match query.limit {
            Some(l) => Some(l),
            None => Some(DEFAULT_LIMIT),
        }),
        r.raw == query.raw,
        r.filters == query.filters,
        r.sort_by == query.sort_by,
        r.sort_order == query.sort_order,
        r.search_content == query.search_content,
{
    let ghost ks = texts(query.keywords@);
    let mut out: Vec<String> = Vec::new();
    let mut i: usize = 0;
    assert(ks.take(0) =~= Seq::<Seq<char>>::empty());
    assert(texts(out@) =~= Seq::<Seq<char>>::empty());
    while i < query.keywords.len()
        invariant
            ks == texts(query.keywords@),
            i <= query.keywords@.len(),
            texts(out@) == normalized_keywords(ks.take(i as int)),
        decreases query.keywords@.len() - i,
    {
        let t = trim_whitespace(query.keywords[i].as_str());
        let k = to_lowercase(t.as_str());
        assert(ks.take(i + 1).drop_last() =~= ks.take(i as int));
        assert(ks[i as int] == query.keywords@[i as int]@);
        if !k.as_str().is_empty() {
            let ghost before = texts(out@);
            out.push(k);
            assert(texts(out@) =~= before.push(out@.last()@));
        }
        i += 1;
    }
    assert(ks.take(query.keywords@.len() as int) =~= ks);
    let limit = match query.limit {
        Some(l) => Some(l),
        None => Some(DEFAULT_LIMIT),
    };
    SearchQuery {
        raw: query.raw,
        keywords: out,
        filters: query.filters,
        limit,
        sort_by: query.sort_by,
        sort_order: query.sort_order,
        search_content: query.search_content,
    }
}

} // verus!
