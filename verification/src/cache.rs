//! Directory-listing cache with TTL and modification-time invalidation.
//!
//! The cache maps a directory path (keyed by its UTF-8 bytes) to a listing
//! together with the time it was cached and the directory's modification time
//! observed at that moment.  A lookup only succeeds while the entry is within
//! its time-to-live and the directory's current modification time has not
//! advanced past the stored one.  The store is bounded: when full, the entry
//! with the smallest `cached_at` is evicted first.
//!
//! Reading the clock and the directory's metadata is the caller's business:
//! `get` and `insert` take the current time and the directory's current
//! modification time (if available) as arguments, so the whole policy is
//! plain data logic.

use vstd::prelude::*;
use vstd::slice::slice_to_vec;
use vstd::string::StringSliceAdditionalSpecFns;
use crate::fs::parent_key;
use crate::fs::parent_of_str;

verus! {

/// Mathematical model of one cache entry, keyed by the path's bytes.
pub ghost struct EntryModel {
    /// UTF-8 bytes of the directory path
    pub key: Seq<u8>,
    /// The cached listing
    pub items: Seq<String>,
    /// When the entry was cached (seconds)
    pub cached_at: u64,
    /// The directory's modification time observed at caching (seconds)
    pub modified_time: u64,
}

/// Index of the first entry with key `k`, if any.
pub open spec fn lookup_idx(s: Seq<EntryModel>, k: Seq<u8>) -> Option<int>
    decreases s.len(),
{
    if s.len() == 0 {
        None
    } else if s[0].key == k {
        Some(0)
    } else {
        match lookup_idx(s.drop_first(), k) {
            None => None,
            Some(i) => Some(i + 1),
        }
    }
}

/// The first entry with key `k`, if any.
pub open spec fn lookup(s: Seq<EntryModel>, k: Seq<u8>) -> Option<EntryModel> {
    match lookup_idx(s, k) {
        None => None,
        Some(i) => Some(s[i]),
    }
}

/// No two entries share a key.
pub open spec fn distinct_keys(s: Seq<EntryModel>) -> bool {
    forall|i: int, j: int| 0 <= i < j < s.len() ==> s[i].key != s[j].key
}

/// An entry answers a lookup at time `now` only while it is within `ttl`
/// and the directory's current modification time is known and has not
/// advanced past the stored one.
pub open spec fn valid_at(e: EntryModel, ttl: u64, now: u64, dir_mtime: Option<u64>) -> bool {
    &&& e.cached_at <= now
    &&& now - e.cached_at <= ttl
    &&& dir_mtime matches Some(m) && m <= e.modified_time
}

/// What a lookup of `k` at time `now` returns.
pub open spec fn get_spec(
    s: Seq<EntryModel>,
    ttl: u64,
    k: Seq<u8>,
    now: u64,
    dir_mtime: Option<u64>,
) -> Option<Seq<String>> {
    match lookup(s, k) {
        Some(e) => if valid_at(e, ttl, now, dir_mtime) {
            Some(e.items)
        } else {
            None
        },
        None => None,
    }
}

/// Index of the entry evicted when the store is full: the first entry
/// holding the smallest `cached_at`.
pub open spec fn oldest_idx(s: Seq<EntryModel>) -> int
    decreases s.len(),
{
    if s.len() <= 1 {
        0
    } else {
        let t = oldest_idx(s.drop_first()) + 1;
        if s[0].cached_at <= s[t].cached_at {
            0
        } else {
            t
        }
    }
}

/// The entry recorded by an insert: the modification time falls back to
/// `now` when the directory's metadata was unavailable.
pub open spec fn new_entry(
    k: Seq<u8>,
    items: Seq<String>,
    now: u64,
    dir_mtime: Option<u64>,
) -> EntryModel {
    EntryModel {
        key: k,
        items: items,
        cached_at: now,
        modified_time: match dir_mtime {
            Some(m) => m,
            None => now,
        },
    }
}

/// How an insert transforms the store: evict the oldest entry when at
/// capacity, then replace the entry with the same key in place, or append.
pub open spec fn insert_spec(s: Seq<EntryModel>, cap: int, e: EntryModel) -> Seq<EntryModel> {
    let s1 = if s.len() >= cap {
        s.remove(oldest_idx(s))
    } else {
        s
    };
    match lookup_idx(s1, e.key) {
        Some(i) => s1.update(i, e),
        None => s1.push(e),
    }
}

/// Remove the entry with key `k`, if any.
pub open spec fn remove_key(s: Seq<EntryModel>, k: Seq<u8>) -> Seq<EntryModel> {
    match lookup_idx(s, k) {
        Some(i) => s.remove(i),
        None => s,
    }
}

/// How `invalidate` transforms the store: the path's entry goes, and the
/// parent directory's entry goes with it (a child's mutation changes the
/// parent's listing).
pub open spec fn invalidate_spec(s: Seq<EntryModel>, k: Seq<u8>) -> Seq<EntryModel> {
    match parent_key(k) {
        Some(p) => remove_key(remove_key(s, k), p),
        None => remove_key(s, k),
    }
}

/// `lookup_idx` finds the first index with key `k`, and `None` means no
/// entry has that key.
pub proof fn lemma_lookup_idx_props(s: Seq<EntryModel>, k: Seq<u8>)
    ensures
        match lookup_idx(s, k) {
            Some(i) => 0 <= i < s.len() && s[i].key == k && (forall|j: int|
                0 <= j < i ==> s[j].key != k),
            None => forall|j: int| 0 <= j < s.len() ==> s[j].key != k,
        },
    decreases s.len(),
{
    if s.len() != 0 && s[0].key != k {
        lemma_lookup_idx_props(s.drop_first(), k);
        assert forall|j: int| 1 <= j < s.len() implies s[j] == s.drop_first()[j - 1] by {}
    }
}

/// Converse characterization: the first index with key `k` is what
/// `lookup_idx` returns.
pub proof fn lemma_lookup_idx_of_first(s: Seq<EntryModel>, k: Seq<u8>, i: int)
    requires
        0 <= i < s.len(),
        s[i].key == k,
        forall|j: int| 0 <= j < i ==> s[j].key != k,
    ensures
        lookup_idx(s, k) == Some(i),
    decreases s.len(),
{
    if i > 0 {
        lemma_lookup_idx_of_first(s.drop_first(), k, i - 1);
    }
}

/// When no entry has key `k`, `lookup_idx` returns `None`.
pub proof fn lemma_lookup_idx_absent(s: Seq<EntryModel>, k: Seq<u8>)
    requires
        forall|j: int| 0 <= j < s.len() ==> s[j].key != k,
    ensures
        lookup_idx(s, k) is None,
    decreases s.len(),
{
    if s.len() != 0 {
        lemma_lookup_idx_absent(s.drop_first(), k);
    }
}

/// `oldest_idx` points at a minimal `cached_at`, and at the first one.
pub proof fn lemma_oldest_idx_props(s: Seq<EntryModel>)
    requires
        s.len() > 0,
    ensures
        0 <= oldest_idx(s) < s.len(),
        forall|j: int| 0 <= j < s.len() ==> s[oldest_idx(s)].cached_at <= #[trigger] s[j].cached_at,
        forall|j: int| 0 <= j < oldest_idx(s) ==> #[trigger] s[j].cached_at > s[oldest_idx(s)].cached_at,
    decreases s.len(),
{
    if s.len() > 1 {
        lemma_oldest_idx_props(s.drop_first());
        assert forall|j: int| 1 <= j < s.len() implies s[j] == s.drop_first()[j - 1] by {}
    }
}

/// Converse characterization: the first index carrying the minimal
/// `cached_at` is what `oldest_idx` returns.
pub proof fn lemma_oldest_idx_of_first(s: Seq<EntryModel>, i: int)
    requires
        0 <= i < s.len(),
        forall|j: int| 0 <= j < s.len() ==> s[i].cached_at <= s[j].cached_at,
        forall|j: int| 0 <= j < i ==> s[j].cached_at > s[i].cached_at,
    ensures
        oldest_idx(s) == i,
    decreases s.len(),
{
    if s.len() > 1 {
        let d = s.drop_first();
        assert forall|j: int| 1 <= j < s.len() implies s[j] == d[j - 1] by {}
        if i > 0 {
            lemma_oldest_idx_of_first(d, i - 1);
        } else {
            lemma_oldest_idx_props(d);
            let t = oldest_idx(d) + 1;
            assert(s[t] == d[t - 1]);
        }
    }
}

/// After `remove_key(s, k)` no entry carries key `k`, provided keys were
/// distinct.
proof fn lemma_remove_key_absent(s: Seq<EntryModel>, k: Seq<u8>)
    requires
        distinct_keys(s),
    ensures
        forall|j: int| 0 <= j < remove_key(s, k).len() ==> #[trigger] remove_key(s, k)[j].key != k,
{
    lemma_lookup_idx_props(s, k);
    match lookup_idx(s, k) {
        Some(i) => {
            let r = s.remove(i);
            assert forall|j: int| 0 <= j < r.len() implies r[j].key != k by {
                let j0 = if j < i { j } else { j + 1 };
                assert(r[j] == s[j0]);
            }
        },
        None => {},
    }
}

/// Removing one entry cannot introduce a key that was absent.
proof fn lemma_remove_key_keeps_absent(s: Seq<EntryModel>, k: Seq<u8>, k2: Seq<u8>)
    requires
        forall|j: int| 0 <= j < s.len() ==> #[trigger] s[j].key != k2,
    ensures
        forall|j: int| 0 <= j < remove_key(s, k).len() ==> #[trigger] remove_key(s, k)[j].key != k2,
{
    match lookup_idx(s, k) {
        Some(i) => {
            lemma_lookup_idx_props(s, k);
            let r = s.remove(i);
            assert forall|j: int| 0 <= j < r.len() implies r[j].key != k2 by {
                let j0 = if j < i { j } else { j + 1 };
                assert(r[j] == s[j0]);
            }
        },
        None => {},
    }
}

/// A fresh insert answers an immediate lookup: reading the same path back at
/// the same time, with the directory unchanged since the insert recorded it,
/// returns exactly the inserted listing.
pub proof fn lemma_insert_then_get(
    s: Seq<EntryModel>,
    ttl: u64,
    cap: int,
    k: Seq<u8>,
    items: Seq<String>,
    now: u64,
    dir_mtime: Option<u64>,
)
    requires
        distinct_keys(s),
        s.len() <= cap,
        cap >= 1,
    ensures
        get_spec(
            insert_spec(s, cap, new_entry(k, items, now, dir_mtime)),
            ttl,
            k,
            now,
            Some(new_entry(k, items, now, dir_mtime).modified_time),
        ) == Some(items),
{
    let e = new_entry(k, items, now, dir_mtime);
    let s1 = if s.len() >= cap {
        s.remove(oldest_idx(s))
    } else {
        s
    };
    if s.len() >= cap {
        lemma_oldest_idx_props(s);
    }
    lemma_lookup_idx_props(s1, k);
    match lookup_idx(s1, k) {
        Some(i) => {
            let r = s1.update(i, e);
            assert forall|j: int| 0 <= j < i implies r[j].key != k by {
                assert(r[j] == s1[j]);
            }
            lemma_lookup_idx_of_first(r, k, i);
        },
        None => {
            let r = s1.push(e);
            assert forall|j: int| 0 <= j < s1.len() implies r[j].key != k by {
                assert(r[j] == s1[j]);
            }
            lemma_lookup_idx_of_first(r, k, s1.len() as int);
        },
    }
}

/// Once the TTL has elapsed after an entry was cached, with no further
/// activity, a lookup of its path returns nothing.
pub proof fn lemma_expired_get(
    s: Seq<EntryModel>,
    ttl: u64,
    k: Seq<u8>,
    later: u64,
    dir_mtime: Option<u64>,
)
    requires
        lookup(s, k) matches Some(e) ==> e.cached_at + ttl < later,
    ensures
        get_spec(s, ttl, k, later, dir_mtime) is None,
{
}

/// A directory whose modification time advanced past the one recorded at
/// caching misses, even within the TTL.
pub proof fn lemma_modified_get(s: Seq<EntryModel>, ttl: u64, k: Seq<u8>, now: u64, m: u64)
    requires
        lookup(s, k) matches Some(e) ==> m > e.modified_time,
    ensures
        get_spec(s, ttl, k, now, Some(m)) is None,
{
}

/// Invalidating a path clears both the path's own entry and its parent
/// directory's: afterwards a lookup of either returns nothing.
pub proof fn lemma_invalidate_get(
    s: Seq<EntryModel>,
    ttl: u64,
    k: Seq<u8>,
    now: u64,
    dir_mtime: Option<u64>,
)
    requires
        distinct_keys(s),
    ensures
        get_spec(invalidate_spec(s, k), ttl, k, now, dir_mtime) is None,
        parent_key(k) matches Some(p) ==> get_spec(invalidate_spec(s, k), ttl, p, now, dir_mtime)
            is None,
{
    let s1 = remove_key(s, k);
    lemma_remove_key_absent(s, k);
    match parent_key(k) {
        Some(p) => {
            let s2 = remove_key(s1, p);
            lemma_remove_key_keeps_absent(s1, p, k);
            lemma_lookup_idx_absent(s2, k);
            lemma_lookup_idx_props(s, k);
            match lookup_idx(s, k) {
                Some(i) => {
                    lemma_remove_distinct(s, i);
                },
                None => {},
            }
            lemma_remove_key_absent(s1, p);
            lemma_lookup_idx_absent(s2, p);
        },
        None => {
            lemma_lookup_idx_absent(s1, k);
        },
    }
}

/// A run of inserts, applied in order.
pub open spec fn insert_all(s: Seq<EntryModel>, cap: int, es: Seq<EntryModel>) -> Seq<EntryModel>
    decreases es.len(),
{
    if es.len() == 0 {
        s
    } else {
        insert_all(insert_spec(s, cap, es[0]), cap, es.drop_first())
    }
}

/// An insert of a fresh key below capacity appends.
proof fn lemma_insert_fresh_below_cap(s: Seq<EntryModel>, cap: int, e: EntryModel)
    requires
        s.len() < cap,
        lookup(s, e.key) is None,
    ensures
        insert_spec(s, cap, e) == s.push(e),
{
}

/// Fresh, pairwise-distinct keys inserted while room remains simply fill
/// the store in order.
proof fn lemma_fill_distinct(s: Seq<EntryModel>, cap: int, es: Seq<EntryModel>)
    requires
        s.len() + es.len() <= cap,
        distinct_keys(es),
        forall|i: int| 0 <= i < es.len() ==> lookup(s, (#[trigger] es[i]).key) is None,
    ensures
        insert_all(s, cap, es) == s + es,
    decreases es.len(),
{
    if es.len() == 0 {
        assert(s + es =~= s);
    } else {
        lemma_insert_fresh_below_cap(s, cap, es[0]);
        let s1 = s.push(es[0]);
        let rest = es.drop_first();
        lemma_lookup_idx_props(s, es[0].key);
        assert forall|i: int| 0 <= i < rest.len() implies lookup(s1, (#[trigger] rest[i]).key)
            is None by {
            assert(rest[i] == es[i + 1]);
            assert(lookup(s, es[i + 1].key) is None);
            lemma_lookup_idx_props(s, es[i + 1].key);
            assert forall|j: int| 0 <= j < s1.len() implies s1[j].key != rest[i].key by {
                if j < s.len() {
                    assert(s1[j] == s[j]);
                } else {
                    assert(s1[j] == es[0]);
                }
            }
            lemma_lookup_idx_absent(s1, rest[i].key);
        }
        assert forall|i: int, j: int| 0 <= i < j < rest.len() implies rest[i].key != rest[j].key by {
            assert(rest[i] == es[i + 1]);
            assert(rest[j] == es[j + 1]);
        }
        lemma_fill_distinct(s1, cap, rest);
        assert(s1 + rest =~= s + es);
    }
}

/// A run of inserts splits at any point.
proof fn lemma_insert_all_split(s: Seq<EntryModel>, cap: int, a: Seq<EntryModel>, b: Seq<
    EntryModel,
>)
    ensures
        insert_all(s, cap, a + b) == insert_all(insert_all(s, cap, a), cap, b),
    decreases a.len(),
{
    if a.len() == 0 {
        assert(a + b =~= b);
    } else {
        assert((a + b).drop_first() =~= a.drop_first() + b);
        assert((a + b)[0] == a[0]);
        lemma_insert_all_split(insert_spec(s, cap, a[0]), cap, a.drop_first(), b);
    }
}

/// Inserting `capacity + 1` pairwise-distinct paths into an empty store, in
/// order, leaves exactly `capacity` entries: the store fills to capacity,
/// and the final insert evicts exactly one entry — the first one carrying
/// the smallest `cached_at` among the `capacity` cached so far.
pub proof fn lemma_capacity_plus_one_inserts(cap: int, es: Seq<EntryModel>)
    requires
        cap >= 1,
        es.len() == cap + 1,
        distinct_keys(es),
    ensures
        insert_all(Seq::empty(), cap, es) == es.take(cap).remove(
            oldest_idx(es.take(cap)),
        ).push(es[cap as int]),
        insert_all(Seq::empty(), cap, es).len() == cap,
        forall|j: int|
            0 <= j < cap ==> es.take(cap)[oldest_idx(es.take(cap))].cached_at <= (#[trigger] es.take(
                cap,
            )[j]).cached_at,
{
    let empty = Seq::<EntryModel>::empty();
    let first = es.take(cap);
    let last = es[cap as int];
    assert(es =~= first + seq![last]);
    lemma_insert_all_split(empty, cap, first, seq![last]);
    assert forall|i: int, j: int| 0 <= i < j < first.len() implies first[i].key != first[j].key by {
        assert(first[i] == es[i]);
        assert(first[j] == es[j]);
    }
    assert forall|i: int| 0 <= i < first.len() implies lookup(empty, (#[trigger] first[i]).key)
        is None by {}
    lemma_fill_distinct(empty, cap, first);
    assert(empty + first =~= first);
    assert forall|j: int| 0 <= j < first.len() implies first[j].key != last.key by {
        assert(first[j] == es[j]);
    }
    lemma_lookup_idx_absent(first, last.key);
    lemma_full_insert_evicts_oldest(first, cap, last);
    assert(seq![last].drop_first() =~= Seq::<EntryModel>::empty());
    assert(seq![last][0] == last);
    assert(insert_all(first, cap, seq![last]) == insert_all(
        insert_spec(first, cap, last),
        cap,
        Seq::<EntryModel>::empty(),
    ));
    assert(insert_all(insert_spec(first, cap, last), cap, Seq::<EntryModel>::empty())
        == insert_spec(first, cap, last));
    assert(insert_all(empty, cap, es) == insert_all(first, cap, seq![last]));
}

/// Inserting a fresh path into a full store evicts exactly the first entry
/// carrying the smallest `cached_at` and leaves the store at capacity.
pub proof fn lemma_full_insert_evicts_oldest(s: Seq<EntryModel>, cap: int, e: EntryModel)
    requires
        distinct_keys(s),
        s.len() == cap,
        cap >= 1,
        lookup(s, e.key) is None,
    ensures
        insert_spec(s, cap, e) == s.remove(oldest_idx(s)).push(e),
        insert_spec(s, cap, e).len() == cap,
        forall|j: int| 0 <= j < s.len() ==> s[oldest_idx(s)].cached_at <= #[trigger] s[j].cached_at,
{
    lemma_oldest_idx_props(s);
    let i = oldest_idx(s);
    let s1 = s.remove(i);
    lemma_lookup_idx_props(s, e.key);
    assert forall|j: int| 0 <= j < s1.len() implies s1[j].key != e.key by {
        let j0 = if j < i { j } else { j + 1 };
        assert(s1[j] == s[j0]);
    }
    lemma_lookup_idx_absent(s1, e.key);
}

/// Removing an entry keeps the keys distinct.
proof fn lemma_remove_distinct(s: Seq<EntryModel>, i: int)
    requires
        distinct_keys(s),
        0 <= i < s.len(),
    ensures
        distinct_keys(s.remove(i)),
{
    let r = s.remove(i);
    assert forall|a: int, b: int| 0 <= a < b < r.len() implies r[a].key != r[b].key by {
        let a0 = if a < i { a } else { a + 1 };
        let b0 = if b < i { b } else { b + 1 };
        assert(r[a] == s[a0]);
        assert(r[b] == s[b0]);
    }
}

/// Replacing an entry by one with the same key keeps the keys distinct.
proof fn lemma_update_distinct(s: Seq<EntryModel>, i: int, e: EntryModel)
    requires
        distinct_keys(s),
        0 <= i < s.len(),
        s[i].key == e.key,
    ensures
        distinct_keys(s.update(i, e)),
{
}

/// Appending an entry with a fresh key keeps the keys distinct.
proof fn lemma_push_distinct(s: Seq<EntryModel>, e: EntryModel)
    requires
        distinct_keys(s),
        forall|j: int| 0 <= j < s.len() ==> s[j].key != e.key,
    ensures
        distinct_keys(s.push(e)),
{
    let r = s.push(e);
    assert forall|a: int, b: int| 0 <= a < b < r.len() implies r[a].key != r[b].key by {
        if b < s.len() {
            assert(r[a] == s[a]);
            assert(r[b] == s[b]);
        } else {
            assert(r[a] == s[a]);
            assert(r[b] == e);
        }
    }
}

/// One stored entry: the key's bytes beside the cached listing and times.
pub struct CacheEntry {
    pub key: Vec<u8>,
    pub items: Vec<String>,
    pub cached_at: u64,
    pub modified_time: u64,
}

impl View for CacheEntry {
    type V = EntryModel;

    closed spec fn view(&self) -> EntryModel {
        EntryModel {
            key: self.key@,
            items: self.items@,
            cached_at: self.cached_at,
            modified_time: self.modified_time,
        }
    }
}

/// The models of a run of stored entries.
spec fn models(s: Seq<CacheEntry>) -> Seq<EntryModel> {
    s.map_values(|e: CacheEntry| e@)
}

/// Byte-for-byte equality of two slices.
fn eq_bytes(a: &[u8], b: &[u8]) -> (r: bool)
    ensures
        r == (a@ == b@),
{
    if a.len() != b.len() {
        return false;
    }
    let n = a.len();
    let mut i: usize = 0;
    while i < n
        invariant
            n == a@.len(),
            n == b@.len(),
            0 <= i <= n,
            forall|j: int| 0 <= j < i ==> a@[j] == b@[j],
        decreases n - i,
    {
        if *vstd::slice::slice_index_get(a, i) != *vstd::slice::slice_index_get(b, i) {
            return false;
        }
        i += 1;
    }
    proof {
        assert(a@ =~= b@);
    }
    true
}

/// Index of the first stored entry whose key is `k`, if any.
fn find_key(entries: &Vec<CacheEntry>, k: &[u8]) -> (r: Option<usize>)
    ensures
        match r {
            Some(i) => lookup_idx(models(entries@), k@) == Some(i as int) && i < entries@.len(),
            None => lookup_idx(models(entries@), k@) is None,
        },
{
    let mut i: usize = 0;
    while i < entries.len()
        invariant
            0 <= i <= entries@.len(),
            forall|j: int| 0 <= j < i ==> models(entries@)[j].key != k@,
        decreases entries@.len() - i,
    {
        if eq_bytes(entries[i].key.as_slice(), k) {
            proof {
                lemma_lookup_idx_of_first(models(entries@), k@, i as int);
            }
            return Some(i);
        }
        i += 1;
    }
    proof {
        lemma_lookup_idx_absent(models(entries@), k@);
    }
    None
}

/// Position of the first stored entry with the smallest `cached_at`.
fn oldest_pos(entries: &Vec<CacheEntry>) -> (r: usize)
    requires
        entries@.len() > 0,
    ensures
        r < entries@.len(),
        r as int == oldest_idx(models(entries@)),
{
    let mut best: usize = 0;
    let mut i: usize = 1;
    while i < entries.len()
        invariant
            0 <= best < i <= entries@.len(),
            forall|j: int| 0 <= j < i ==> entries@[best as int].cached_at <= #[trigger] entries@[j].cached_at,
            forall|j: int| 0 <= j < best ==> #[trigger] entries@[j].cached_at > entries@[best as int].cached_at,
        decreases entries@.len() - i,
    {
        if entries[i].cached_at < entries[best].cached_at {
            best = i;
        }
        i += 1;
    }
    proof {
        lemma_oldest_idx_of_first(models(entries@), best as int);
    }
    best
}

/// An owned copy of a listing.
fn clone_items(items: &Vec<String>) -> (r: Vec<String>)
    ensures
        r@ == items@,
{
    let mut r: Vec<String> = Vec::new();
    let mut i: usize = 0;
    while i < items.len()
        invariant
            0 <= i <= items@.len(),
            r@.len() == i,
            forall|j: int| 0 <= j < i ==> r@[j] == items@[j],
        decreases items@.len() - i,
    {
        r.push(items[i].clone());
        i += 1;
    }
    proof {
        assert(r@ =~= items@);
    }
    r
}

/// Directory cache with TTL and invalidation support
pub struct DirectoryCache {
    /// Cache storage
    entries: Vec<CacheEntry>,
    /// Time-to-live for cache entries, in seconds
    ttl: u64,
    /// Maximum number of cached directories
    max_entries: usize,
}

impl View for DirectoryCache {
    type V = Seq<EntryModel>;

    closed spec fn view(&self) -> Seq<EntryModel> {
        models(self.entries@)
    }
}

impl DirectoryCache {
    /// The configured time-to-live, in seconds.
    pub closed spec fn spec_ttl(&self) -> u64 {
        self.ttl
    }

    /// The configured capacity.
    pub closed spec fn spec_capacity(&self) -> usize {
        self.max_entries
    }

    /// Well-formedness: keys are distinct and the store is within its
    /// (positive) capacity.
    pub open spec fn wf(&self) -> bool {
        &&& distinct_keys(self@)
        &&& self@.len() <= self.spec_capacity()
        &&& self.spec_capacity() >= 1
    }

    /// Creates a new directory cache with the given TTL (seconds) and
    /// maximum number of entries.  A capacity of zero is invalid
    /// configuration and is excluded.
    pub fn new(ttl_seconds: u64, max_entries: usize) -> (c: Self)
        requires
            max_entries >= 1,
        ensures
            c@ == Seq::<EntryModel>::empty(),
            c.spec_ttl() == ttl_seconds,
            c.spec_capacity() == max_entries,
            c.wf(),
    {
        let c = DirectoryCache { entries: Vec::new(), ttl: ttl_seconds, max_entries };
        proof {
            assert(c@ =~= Seq::<EntryModel>::empty());
        }
        c
    }

    /// Get a cached directory listing if it exists and is still valid:
    /// within TTL and with the directory's current modification time
    /// (`dir_mtime`, `None` when unavailable) not past the stored one.
    pub fn get(&self, path: &str, now: u64, dir_mtime: Option<u64>) -> (r: Option<Vec<String>>)
        ensures
            match r {
                Some(v) => get_spec(self@, self.spec_ttl(), path.spec_bytes(), now, dir_mtime)
                    == Some(v@),
                None => get_spec(self@, self.spec_ttl(), path.spec_bytes(), now, dir_mtime) is None,
            },
    {
        let k = path.as_bytes();
        proof {
            lemma_lookup_idx_props(self@, k@);
        }
        match find_key(&self.entries, k) {
            None => None,
            Some(i) => {
                let e = &self.entries[i];
                if e.cached_at <= now && now - e.cached_at <= self.ttl {
                    match dir_mtime {
                        Some(m) => if m <= e.modified_time {
                            Some(clone_items(&e.items))
                        } else {
                            None
                        },
                        None => None,
                    }
                } else {
                    None
                }
            },
        }
    }

    /// Insert a directory listing, recorded at time `now` with the
    /// directory's current modification time (falling back to `now` when
    /// unavailable).  When the store is full, the entry with the smallest
    /// `cached_at` is evicted first.
    pub fn insert(&mut self, path: &str, items: Vec<String>, now: u64, dir_mtime: Option<u64>)
        requires
            old(self).wf(),
        ensures
            final(self).wf(),
            final(self)@ == insert_spec(
                old(self)@,
                old(self).spec_capacity() as int,
                new_entry(path.spec_bytes(), items@, now, dir_mtime),
            ),
            final(self).spec_ttl() == old(self).spec_ttl(),
            final(self).spec_capacity() == old(self).spec_capacity(),
    {
        let ghost e = new_entry(path.spec_bytes(), items@, now, dir_mtime);
        let ghost s0 = self@;
        if self.entries.len() >= self.max_entries {
            proof {
                lemma_oldest_idx_props(self@);
            }
            let p = oldest_pos(&self.entries);
            self.entries.remove(p);
            proof {
                assert(models(self.entries@) =~= s0.remove(p as int));
                lemma_remove_distinct(s0, p as int);
            }
        }
        let ghost s1 = self@;
        proof {
            lemma_lookup_idx_props(s1, e.key);
        }
        let modified_time = match dir_mtime {
            Some(m) => m,
            None => now,
        };
        let key = slice_to_vec(path.as_bytes());
        let entry = CacheEntry { key, items, cached_at: now, modified_time };
        proof {
            assert(entry@ == e);
        }
        match find_key(&self.entries, entry.key.as_slice()) {
            Some(i) => {
                self.entries.set(i, entry);
                proof {
                    assert(models(self.entries@) =~= s1.update(i as int, e));
                    lemma_update_distinct(s1, i as int, e);
                }
            },
            None => {
                self.entries.push(entry);
                proof {
                    assert(models(self.entries@) =~= s1.push(e));
                    lemma_push_distinct(s1, e);
                }
            },
        }
    }

    /// Remove the entry whose key is `k`, if any.
    fn remove_entry(&mut self, k: &[u8])
        requires
            old(self).wf(),
        ensures
            final(self).wf(),
            final(self)@ == remove_key(old(self)@, k@),
            final(self).spec_ttl() == old(self).spec_ttl(),
            final(self).spec_capacity() == old(self).spec_capacity(),
    {
        let ghost s0 = self@;
        proof {
            lemma_lookup_idx_props(s0, k@);
        }
        match find_key(&self.entries, k) {
            Some(i) => {
                self.entries.remove(i);
                proof {
                    assert(models(self.entries@) =~= s0.remove(i as int));
                    lemma_remove_distinct(s0, i as int);
                }
            },
            None => {},
        }
    }

    /// Invalidate a path: its own entry is removed, and so is the parent
    /// directory's (a child's mutation changes the parent's listing).
    /// Safe to call for paths with no entry.
    pub fn invalidate(&mut self, path: &str)
        requires
            old(self).wf(),
        ensures
            final(self).wf(),
            final(self)@ == invalidate_spec(old(self)@, path.spec_bytes()),
            final(self).spec_ttl() == old(self).spec_ttl(),
            final(self).spec_capacity() == old(self).spec_capacity(),
    {
        self.remove_entry(path.as_bytes());
        match parent_of_str(path) {
            Some(p) => {
                self.remove_entry(p.as_bytes());
            },
            None => {},
        }
    }

    /// The number of cached entries.
    pub fn len(&self) -> (n: usize)
        ensures
            n == self@.len(),
    {
        self.entries.len()
    }
}

impl Default for DirectoryCache {
    /// The default cache: 5 minute TTL, at most 100 directories.
    fn default() -> (c: Self)
        ensures
            c@ == Seq::<EntryModel>::empty(),
            c.spec_ttl() == 300,
            c.spec_capacity() == 100,
            c.wf(),
    {
        DirectoryCache::new(300, 100)
    }
}

} // verus!
