//! Document ids and the metadata stored beside an index.

use vstd::prelude::*;

verus! {

/// The source of fresh document ids: the id the next document gets.
pub struct IdCounter {
    next: u64,
}

impl View for IdCounter {
    type V = u64;

    closed spec fn view(&self) -> u64 {
        self.next
    }
}

impl IdCounter {
    /// A counter whose first id is 1.
    pub fn new() -> (r: Self)
        ensures
            r@ == 1,
    {
        IdCounter { next: 1 }
    }
}

/// Makes `next` the id handed out next.
pub fn reset_id_counter(counter: &mut IdCounter, next: u64)
    ensures
        final(counter)@ == next,
{
    counter.next = next;
}

/// Hands out the current id and advances the counter, wrapping at the end
/// of the `u64` range.
pub fn next_id(counter: &mut IdCounter) -> (r: u64)
    ensures
        r == old(counter)@,
        final(counter)@ == (if old(counter)@ == u64::MAX { 0 } else { (old(counter)@ + 1) as u64 }),
        final(counter)@ == counter_after(old(counter)@, 1),
{
    let r = counter.next;
    counter.next = if r == u64::MAX { 0 } else { r + 1 };
    assert(counter_after(r, 0) == r);
    r
}

/// The id that will be handed out next.
pub fn current_id_counter(counter: &IdCounter) -> (r: u64)
    ensures
        r == counter@,
{
    counter.next
}

/// The counter after `n` ids were handed out from `start`, each call of
/// `next_id` moving it on by one and wrapping at the end of the `u64` range.
pub open spec fn counter_after(start: u64, n: nat) -> u64
    decreases n,
{
    if n == 0 {
        start
    } else {
        let c = counter_after(start, (n - 1) as nat);
        if c == u64::MAX {
            0
        } else {
            (c + 1) as u64
        }
    }
}

/// Ids handed out in a row are consecutive and distinct: without a reset
/// and without wrapping, the call numbered `i` (from 0) of `n` calls finds
/// the counter at `counter_after(start, i)` (each call of `next_id` takes
/// it one step on), returns that value, which is `start + i`; no two calls
/// return the same id; and the counter ends at `start + n`.
pub proof fn lemma_next_ids_consecutive(start: u64, n: nat)
    requires
        start + n <= u64::MAX,
    ensures
        forall|i: nat| i < n ==> counter_after(#[trigger] counter_after(start, i), 1) == counter_after(start, i + 1),
        forall|i: nat| i <= n ==> #[trigger] counter_after(start, i) == start + i,
        forall|i: nat, j: nat| i < n && j < n && i != j ==> counter_after(start, i) != counter_after(start, j),
    decreases n,
{
    assert forall|i: nat| i < n implies counter_after(#[trigger] counter_after(start, i), 1) == counter_after(start, i + 1) by {
        assert(counter_after(counter_after(start, i), 0) == counter_after(start, i));
    }
    if n > 0 {
        lemma_next_ids_consecutive(start, (n - 1) as nat);
        assert forall|i: nat| i <= n implies #[trigger] counter_after(start, i) == start + i by {
            if i == n {
                assert(counter_after(start, (n - 1) as nat) == start + n - 1);
            }
        }
    }
}

/// The version of the index format written by this library.
pub const INDEX_VERSION: u32 = 3;

/// What is stored beside an index.
#[derive(Clone, Debug)]
pub struct IndexMeta {
    pub version: u32,
    pub doc_count: u64,
    pub next_id: u64,
    pub created_at: String,
    pub segment_count: u32,
    pub trigram_count: u64,
}

/// Calls `chrono::Utc::now` and formats it with `to_rfc3339`. Nothing is
/// claimed of the text: it depends on the clock.
#[verifier::external_body]
fn now_rfc3339() -> (r: String) {
    chrono::Utc::now().to_rfc3339()
}

impl IndexMeta {
    /// The metadata of an index of the current format, created at `created_at`.
    pub fn with_created_at(doc_count: u64, next_id: u64, segment_count: u32, trigram_count: u64, created_at: String)
        -> (r: Self)
        ensures
            r.version == INDEX_VERSION,
            r.doc_count == doc_count,
            r.next_id == next_id,
            r.segment_count == segment_count,
            r.trigram_count == trigram_count,
            r.created_at@ == created_at@,
    {
        IndexMeta { version: INDEX_VERSION, doc_count, next_id, created_at, segment_count, trigram_count }
    }

    /// The metadata of an index of the current format, created now.
    pub fn new(doc_count: u64, next_id: u64, segment_count: u32, trigram_count: u64) -> (r: Self)
        ensures
            r.version == INDEX_VERSION,
            r.doc_count == doc_count,
            r.next_id == next_id,
            r.segment_count == segment_count,
            r.trigram_count == trigram_count,
    {
        IndexMeta::with_created_at(doc_count, next_id, segment_count, trigram_count, now_rfc3339())
    }
}

} // verus!
