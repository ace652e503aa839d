//! Named in-memory caches with optional expiry.
//!
//! A store holds every cache of a program: under a cache's name and a key it
//! keeps a string value, some values with a deadline after which they are
//! gone. The store never reads a clock; each operation that can see a value
//! expire is told the time, in nanoseconds on any fixed scale.

use vstd::prelude::*;
use vstd::string::StringExecFns;

verus! {

/// One stored value: where it is filed, what it is, and when it expires.
struct CacheEntry {
    cache: String,
    key: String,
    value: String,
    expires: Option<u64>,
}

/// What a key holds: the value and its deadline, if it has one.
pub type Slot = (Seq<char>, Option<u64>);

/// A cache's name and a key.
pub type SlotKey = (Seq<char>, Seq<char>);

/// Every cache of a program.
pub struct CacheStore {
    entries: Vec<CacheEntry>,
}

spec fn key_of(e: CacheEntry) -> SlotKey {
    (e.cache@, e.key@)
}

spec fn slot_of(e: CacheEntry) -> Slot {
    (e.value@, e.expires)
}

/// The slots a list of entries holds, later entries over earlier ones.
spec fn entry_map(s: Seq<CacheEntry>) -> Map<SlotKey, Slot>
    decreases s.len(),
{
    if s.len() == 0 {
        Map::empty()
    } else {
        entry_map(s.drop_last()).insert(key_of(s.last()), slot_of(s.last()))
    }
}

/// No two entries share a cache and a key.
spec fn unique(s: Seq<CacheEntry>) -> bool {
    forall|i: int, j: int| 0 <= i < j < s.len() ==> key_of(#[trigger] s[i]) != key_of(#[trigger] s[j])
}

/// Whether a value is still there at time `now`.
pub open spec fn live(slot: Slot, now: u64) -> bool {
    match slot.1 {
        Some(deadline) => now < deadline,
        None => true,
    }
}

/// The keys of one cache that hold a live value at time `now`.
pub open spec fn live_keys(m: Map<SlotKey, Slot>, cache: Seq<char>, now: u64) -> Set<SlotKey> {
    m.dom().filter(|k: SlotKey| k.0 == cache && live(m[k], now))
}

/// What a sweep of one cache keeps: every key of the other caches and, when
/// `keep_live`, the keys of this cache that are live at `now`.
pub open spec fn retained(m: Map<SlotKey, Slot>, cache: Seq<char>, keep_live: bool, now: u64) -> Map<SlotKey, Slot> {
    m.restrict(m.dom().filter(|k: SlotKey| k.0 != cache || (keep_live && live(m[k], now))))
}

/// The store without one cache.
pub open spec fn without_cache(m: Map<SlotKey, Slot>, cache: Seq<char>) -> Map<SlotKey, Slot> {
    retained(m, cache, false, 0)
}

/// The error for a key with nothing live under it.
pub open spec fn missing_message(cache: Seq<char>, key: Seq<char>) -> Seq<char> {
    "cache_get: nothing stored under `"@ + key + "` in the `"@ + cache + "` cache"@
}

/// How far ahead a deadline lies: the seconds given, none if negative, in
/// nanoseconds.
pub open spec fn ttl_nanos(ttl_seconds: i64) -> int {
    if ttl_seconds > 0 { ttl_seconds * 1_000_000_000 } else { 0 }
}

impl CacheStore {
    /// What the store holds, by cache name and key.
    pub closed spec fn view(&self) -> Map<SlotKey, Slot> {
        entry_map(self.entries@)
    }

    #[verifier::type_invariant]
    spec fn entries_unique(&self) -> bool {
        unique(self.entries@)
    }

    /// A store with no caches in it.
    pub fn new() -> (r: CacheStore)
        ensures
            r@ == Map::<SlotKey, Slot>::empty(),
    {
        CacheStore { entries: Vec::new() }
    }
}

/// With keys that do not repeat, each entry's slot is in the map, and the map
/// holds nothing else.
proof fn lemma_entry_map(s: Seq<CacheEntry>)
    requires
        unique(s),
    ensures
        forall|i: int| 0 <= i < s.len() ==> #[trigger] entry_map(s).contains_key(key_of(s[i])) && entry_map(s)[key_of(s[i])] == slot_of(s[i]),
        forall|k: SlotKey| #[trigger] entry_map(s).contains_key(k) ==> exists|i: int| 0 <= i < s.len() && key_of(s[i]) == k,
    decreases s.len(),
{
    if s.len() > 0 {
        let front = s.drop_last();
        assert(unique(front)) by {
            assert forall|i: int, j: int| 0 <= i < j < front.len() implies key_of(#[trigger] front[i]) != key_of(#[trigger] front[j]) by {
                assert(front[i] == s[i] && front[j] == s[j]);
            }
        }
        lemma_entry_map(front);
        assert forall|i: int| 0 <= i < s.len() implies #[trigger] entry_map(s).contains_key(key_of(s[i])) && entry_map(s)[key_of(s[i])] == slot_of(s[i]) by {
            if i < s.len() - 1 {
                assert(front[i] == s[i]);
                assert(key_of(s[i]) != key_of(s[s.len() - 1]));
                assert(entry_map(front).contains_key(key_of(front[i])));
            } else {
                assert(s[i] == s.last());
            }
        }
        assert forall|k: SlotKey| #[trigger] entry_map(s).contains_key(k) implies exists|i: int| 0 <= i < s.len() && key_of(s[i]) == k by {
            if k != key_of(s.last()) {
                assert(entry_map(front).contains_key(k));
                let i = choose|i: int| 0 <= i < front.len() && key_of(front[i]) == k;
                assert(key_of(s[i]) == k);
            } else {
                assert(key_of(s[s.len() - 1]) == k);
            }
        }
    }
}

/// Two maps with the same keys and the same slots are the same map.
proof fn lemma_same_map(s: Seq<CacheEntry>, m: Map<SlotKey, Slot>)
    requires
        unique(s),
        forall|i: int| 0 <= i < s.len() ==> #[trigger] m.contains_key(key_of(s[i])) && m[key_of(s[i])] == slot_of(s[i]),
        forall|k: SlotKey| #[trigger] m.contains_key(k) ==> exists|i: int| 0 <= i < s.len() && key_of(s[i]) == k,
    ensures
        entry_map(s) == m,
{
    lemma_entry_map(s);
    assert forall|k: SlotKey| #[trigger] entry_map(s).contains_key(k) <==> m.contains_key(k) by {
        if entry_map(s).contains_key(k) {
            let i = choose|i: int| 0 <= i < s.len() && key_of(s[i]) == k;
        }
        if m.contains_key(k) {
            let i = choose|i: int| 0 <= i < s.len() && key_of(s[i]) == k;
        }
    }
    assert forall|k: SlotKey| #[trigger] entry_map(s).contains_key(k) implies entry_map(s)[k] == m[k] by {
        let i = choose|i: int| 0 <= i < s.len() && key_of(s[i]) == k;
    }
    assert(entry_map(s) =~= m);
}

/// Where an entry with a cache and a key is, if there is one.
fn find(entries: &Vec<CacheEntry>, cache: &String, key: &String) -> (r: Option<usize>)
    requires
        unique(entries@),
    ensures
        match r {
            Some(i) => i < entries@.len() && key_of(entries@[i as int]) == (cache@, key@),
            None => !entry_map(entries@).contains_key((cache@, key@)),
        },
{
    proof { lemma_entry_map(entries@); }
    let mut i: usize = 0;
    while i < entries.len()
        invariant
            i <= entries@.len(),
            forall|j: int| 0 <= j < i ==> key_of(#[trigger] entries@[j]) != (cache@, key@),
        decreases entries@.len() - i,
    {
        if entries[i].cache == *cache && entries[i].key == *key {
            return Some(i);
        }
        i = i + 1;
    }
    None
}

/// Files a value under a cache and a key, replacing what was there.
fn put(store: &mut CacheStore, entry: CacheEntry)
    ensures
        final(store)@ == old(store)@.insert(key_of(entry), slot_of(entry)),
{
    proof { use_type_invariant(&*store); }
    let ghost before = store.entries@;
    match find(&store.entries, &entry.cache, &entry.key) {
        Some(i) => {
            let mut entries: Vec<CacheEntry> = Vec::new();
            std::mem::swap(&mut store.entries, &mut entries);
            entries.set(i, entry);
            proof {
                let after = entries@;
                assert(after == before.update(i as int, entry));
                assert(unique(after)) by {
                    assert forall|a: int, b: int| 0 <= a < b < after.len() implies key_of(#[trigger] after[a]) != key_of(#[trigger] after[b]) by {
                        assert(key_of(after[a]) == key_of(before[a]));
                        assert(key_of(after[b]) == key_of(before[b]));
                    }
                }
                lemma_entry_map(before);
                lemma_entry_map(after);
                let m = entry_map(before).insert(key_of(entry), slot_of(entry));
                assert forall|j: int| 0 <= j < after.len() implies #[trigger] m.contains_key(key_of(after[j])) && m[key_of(after[j])] == slot_of(after[j]) by {
                    if j != i {
                        assert(after[j] == before[j]);
                    }
                }
                assert forall|k: SlotKey| #[trigger] m.contains_key(k) implies exists|j: int| 0 <= j < after.len() && key_of(after[j]) == k by {
                    if k != key_of(entry) {
                        let j = choose|j: int| 0 <= j < before.len() && key_of(before[j]) == k;
                        assert(key_of(after[j]) == k);
                    } else {
                        assert(key_of(after[i as int]) == k);
                    }
                }
                lemma_same_map(after, m);
            }
            store.entries = entries;
        },
        None => {
            let mut entries: Vec<CacheEntry> = Vec::new();
            std::mem::swap(&mut store.entries, &mut entries);
            entries.push(entry);
            proof {
                let after = entries@;
                lemma_entry_map(before);
                assert(after.drop_last() =~= before);
                assert(unique(after)) by {
                    assert forall|a: int, b: int| 0 <= a < b < after.len() implies key_of(#[trigger] after[a]) != key_of(#[trigger] after[b]) by {
                        if b == after.len() - 1 {
                            assert(after[a] == before[a]);
                            assert(entry_map(before).contains_key(key_of(before[a])));
                        } else {
                            assert(after[a] == before[a] && after[b] == before[b]);
                        }
                    }
                }
            }
            store.entries = entries;
        },
    }
}

/// Stores a value that stays until it is deleted or the store is dropped.
pub fn set(store: &mut CacheStore, cache: String, key: String, value: String)
    ensures
        final(store)@ == old(store)@.insert((cache@, key@), (value@, None)),
{
    put(store, CacheEntry { cache, key, value, expires: None });
}

/// Stores a value that disappears `ttl_seconds` after `now`; a negative
/// time to live counts as none.
pub fn set_ttl(store: &mut CacheStore, cache: String, key: String, value: String, ttl_seconds: i64, now: u64)
    requires
        now + ttl_nanos(ttl_seconds) <= u64::MAX,
    ensures
        final(store)@ == old(store)@.insert((cache@, key@), (value@, Some((now + ttl_nanos(ttl_seconds)) as u64))),
{
    let seconds: u64 = if ttl_seconds > 0 { ttl_seconds as u64 } else { 0 };
    let deadline = now + seconds * 1_000_000_000;
    put(store, CacheEntry { cache, key, value, expires: Some(deadline) });
}

/// The value under a key, if it is still there at time `now`. A value that
/// has expired is dropped on the way.
pub fn get(store: &mut CacheStore, cache: String, key: String, now: u64) -> (r: Result<String, String>)
    ensures
        old(store)@.contains_key((cache@, key@)) && live(old(store)@[(cache@, key@)], now)
            ==> (r matches Ok(v) && v@ == old(store)@[(cache@, key@)].0 && final(store)@ == old(store)@),
        old(store)@.contains_key((cache@, key@)) && !live(old(store)@[(cache@, key@)], now)
            ==> (r matches Err(e) && e@ == missing_message(cache@, key@) && final(store)@ == old(store)@.remove((cache@, key@))),
        !old(store)@.contains_key((cache@, key@))
            ==> (r matches Err(e) && e@ == missing_message(cache@, key@) && final(store)@ == old(store)@),
{
    proof { use_type_invariant(&*store); }
    let ghost before = store.entries@;
    proof { lemma_entry_map(before); }
    match find(&store.entries, &cache, &key) {
        Some(i) => {
            let expired = match store.entries[i].expires {
                Some(deadline) => now >= deadline,
                None => false,
            };
            if !expired {
                return Ok(store.entries[i].value.clone());
            }
            let mut entries: Vec<CacheEntry> = Vec::new();
            std::mem::swap(&mut store.entries, &mut entries);
            entries.remove(i);
            proof {
                let after = entries@;
                assert(after == before.remove(i as int));
                assert(unique(after)) by {
                    assert forall|a: int, b: int| 0 <= a < b < after.len() implies key_of(#[trigger] after[a]) != key_of(#[trigger] after[b]) by {
                        let a2 = if a < i { a } else { a + 1 };
                        let b2 = if b < i { b } else { b + 1 };
                        assert(after[a] == before[a2] && after[b] == before[b2]);
                    }
                }
                let m = entry_map(before).remove((cache@, key@));
                assert forall|j: int| 0 <= j < after.len() implies #[trigger] m.contains_key(key_of(after[j])) && m[key_of(after[j])] == slot_of(after[j]) by {
                    let j2 = if j < i { j } else { j + 1 };
                    assert(after[j] == before[j2]);
                    assert(key_of(before[j2]) != key_of(before[i as int]));
                    assert(entry_map(before).contains_key(key_of(before[j2])));
                }
                assert forall|k: SlotKey| #[trigger] m.contains_key(k) implies exists|j: int| 0 <= j < after.len() && key_of(after[j]) == k by {
                    let j = choose|j: int| 0 <= j < before.len() && key_of(before[j]) == k;
                    assert(j != i);
                    let j1 = if j < i { j } else { j - 1 };
                    assert(after[j1] == before[j]);
                }
                lemma_same_map(after, m);
            }
            store.entries = entries;
        },
        None => {},
    }
    let mut message = String::from_str("cache_get: nothing stored under `");
    message.append(key.as_str());
    message.append("` in the `");
    message.append(cache.as_str());
    message.append("` cache");
    Err(message)
}

/// The value under a key, or the fallback when nothing live is there.
pub fn get_or(store: &mut CacheStore, cache: String, key: String, fallback: String, now: u64) -> (r: String)
    ensures
        old(store)@.contains_key((cache@, key@)) && live(old(store)@[(cache@, key@)], now)
            ==> r@ == old(store)@[(cache@, key@)].0 && final(store)@ == old(store)@,
        old(store)@.contains_key((cache@, key@)) && !live(old(store)@[(cache@, key@)], now)
            ==> r@ == fallback@ && final(store)@ == old(store)@.remove((cache@, key@)),
        !old(store)@.contains_key((cache@, key@)) ==> r@ == fallback@ && final(store)@ == old(store)@,
{
    match get(store, cache, key, now) {
        Ok(v) => v,
        Err(_) => fallback,
    }
}

/// Whether a live value is stored under the key at time `now`.
pub fn has(store: &mut CacheStore, cache: String, key: String, now: u64) -> (r: bool)
    ensures
        r == (old(store)@.contains_key((cache@, key@)) && live(old(store)@[(cache@, key@)], now)),
        old(store)@.contains_key((cache@, key@)) && !live(old(store)@[(cache@, key@)], now)
            ==> final(store)@ == old(store)@.remove((cache@, key@)),
        !(old(store)@.contains_key((cache@, key@)) && !live(old(store)@[(cache@, key@)], now)) ==> final(store)@ == old(store)@,
{
    get(store, cache, key, now).is_ok()
}

/// Drops one key; dropping a key that is not there is fine.
pub fn delete(store: &mut CacheStore, cache: String, key: String)
    ensures
        final(store)@ == old(store)@.remove((cache@, key@)),
{
    proof { use_type_invariant(&*store); }
    let ghost before = store.entries@;
    proof { lemma_entry_map(before); }
    match find(&store.entries, &cache, &key) {
        Some(i) => {
            let mut entries: Vec<CacheEntry> = Vec::new();
            std::mem::swap(&mut store.entries, &mut entries);
            entries.remove(i);
            proof {
                let after = entries@;
                assert(after == before.remove(i as int));
                assert(unique(after)) by {
                    assert forall|a: int, b: int| 0 <= a < b < after.len() implies key_of(#[trigger] after[a]) != key_of(#[trigger] after[b]) by {
                        let a2 = if a < i { a } else { a + 1 };
                        let b2 = if b < i { b } else { b + 1 };
                        assert(after[a] == before[a2] && after[b] == before[b2]);
                    }
                }
                let m = entry_map(before).remove((cache@, key@));
                assert forall|j: int| 0 <= j < after.len() implies #[trigger] m.contains_key(key_of(after[j])) && m[key_of(after[j])] == slot_of(after[j]) by {
                    let j2 = if j < i { j } else { j + 1 };
                    assert(after[j] == before[j2]);
                    assert(key_of(before[j2]) != key_of(before[i as int]));
                    assert(entry_map(before).contains_key(key_of(before[j2])));
                }
                assert forall|k: SlotKey| #[trigger] m.contains_key(k) implies exists|j: int| 0 <= j < after.len() && key_of(after[j]) == k by {
                    let j = choose|j: int| 0 <= j < before.len() && key_of(before[j]) == k;
                    assert(j != i);
                    let j1 = if j < i { j } else { j - 1 };
                    assert(after[j1] == before[j]);
                }
                lemma_same_map(after, m);
            }
            store.entries = entries;
        },
        None => {
            proof { assert(entry_map(before).remove((cache@, key@)) =~= entry_map(before)); }
        },
    }
}

/// The map of a list of entries has finitely many keys.
proof fn lemma_entry_map_finite(s: Seq<CacheEntry>)
    ensures
        entry_map(s).dom().finite(),
    decreases s.len(),
{
    if s.len() > 0 {
        lemma_entry_map_finite(s.drop_last());
    }
}

/// Keeps the entries of the other caches and, when `keep_live`, the live
/// entries of this one; counts the entries of this cache it keeps.
fn sweep(entries: Vec<CacheEntry>, cache: &String, keep_live: bool, now: u64) -> (r: (Vec<CacheEntry>, usize))
    requires
        unique(entries@),
    ensures
        unique(r.0@),
        entry_map(r.0@) == retained(entry_map(entries@), cache@, keep_live, now),
        r.1 == retained(entry_map(entries@), cache@, keep_live, now).dom().filter(|k: SlotKey| k.0 == cache@).len(),
{
    let ghost before = entries@;
    let mut kept: Vec<CacheEntry> = Vec::new();
    let mut count: usize = 0;
    let mut i: usize = 0;
    let rest = entries;
    proof {
        assert(before.take(0) =~= Seq::<CacheEntry>::empty());
        assert(retained(entry_map(before.take(0)), cache@, keep_live, now) =~= Map::<SlotKey, Slot>::empty());
        assert(Map::<SlotKey, Slot>::empty().dom().filter(|k: SlotKey| k.0 == cache@) =~= Set::<SlotKey>::empty());
    }
    while i < rest.len()
        invariant
            i <= before.len(),
            rest@ == before,
            unique(before),
            unique(kept@),
            entry_map(kept@) == retained(entry_map(before.take(i as int)), cache@, keep_live, now),
            count == entry_map(kept@).dom().filter(|k: SlotKey| k.0 == cache@).len(),
            count <= i,
        decreases before.len() - i,
    {
        let e = &rest[i];
        let keep = if e.cache != *cache {
            true
        } else if keep_live {
            match e.expires {
                Some(deadline) => now < deadline,
                None => true,
            }
        } else {
            false
        };
        let ghost old_map = entry_map(kept@);
        let ghost prefix = before.take(i as int);
        proof {
            assert(before.take(i + 1).drop_last() =~= prefix);
            assert(before.take(i + 1).last() == before[i as int]);
            lemma_entry_map(prefix);
            lemma_entry_map(kept@);
            lemma_entry_map_finite(kept@);
            assert(!entry_map(prefix).contains_key(key_of(before[i as int]))) by {
                if entry_map(prefix).contains_key(key_of(before[i as int])) {
                    let j = choose|j: int| 0 <= j < prefix.len() && key_of(prefix[j]) == key_of(before[i as int]);
                    assert(prefix[j] == before[j]);
                }
            }
        }
        let ghost k = key_of(before[i as int]);
        let ghost v = slot_of(before[i as int]);
        let ghost big = entry_map(before.take(i + 1));
        proof {
            assert(big == entry_map(prefix).insert(k, v));
            assert(keep == (k.0 != cache@ || (keep_live && live(v, now))));
            assert(!old_map.contains_key(k));
        }
        if keep {
            let entry = CacheEntry { cache: e.cache.clone(), key: e.key.clone(), value: e.value.clone(), expires: e.expires };
            let counted = entry.cache == *cache;
            let ghost kept_before = kept@;
            kept.push(entry);
            if counted {
                count = count + 1;
            }
            proof {
                assert(kept@.drop_last() =~= kept_before);
                assert(key_of(kept@.last()) == k && slot_of(kept@.last()) == v);
                assert(entry_map(kept@) == old_map.insert(k, v));
                assert(retained(big, cache@, keep_live, now) =~= retained(entry_map(prefix), cache@, keep_live, now).insert(k, v));
                assert(unique(kept@)) by {
                    assert forall|a: int, b: int| 0 <= a < b < kept@.len() implies key_of(#[trigger] kept@[a]) != key_of(#[trigger] kept@[b]) by {
                        if b == kept@.len() - 1 {
                            assert(kept@[a] == kept_before[a]);
                            assert(old_map.contains_key(key_of(kept_before[a])));
                        } else {
                            assert(kept@[a] == kept_before[a] && kept@[b] == kept_before[b]);
                        }
                    }
                }
                let f_old = old_map.dom().filter(|x: SlotKey| x.0 == cache@);
                let f_new = old_map.insert(k, v).dom().filter(|x: SlotKey| x.0 == cache@);
                if counted {
                    assert(f_new =~= f_old.insert(k));
                    assert(!f_old.contains(k));
                } else {
                    assert(f_new =~= f_old);
                }
            }
        } else {
            proof {
                assert(retained(big, cache@, keep_live, now) =~= retained(entry_map(prefix), cache@, keep_live, now));
            }
        }
        i = i + 1;
    }
    proof { assert(before.take(before.len() as int) =~= before); }
    (kept, count)
}

/// Drops everything in one cache.
pub fn clear(store: &mut CacheStore, cache: String)
    ensures
        final(store)@ == without_cache(old(store)@, cache@),
{
    proof { use_type_invariant(&*store); }
    let mut entries: Vec<CacheEntry> = Vec::new();
    std::mem::swap(&mut store.entries, &mut entries);
    let (kept, _) = sweep(entries, &cache, false, 0);
    store.entries = kept;
}

/// How many live values a cache holds at time `now`. The values of that
/// cache that have expired are dropped on the way.
pub fn len(store: &mut CacheStore, cache: String, now: u64) -> (r: i64)
    ensures
        final(store)@ == retained(old(store)@, cache@, true, now),
        r == live_keys(old(store)@, cache@, now).len() as i64,
{
    proof { use_type_invariant(&*store); }
    let ghost m = store@;
    let mut entries: Vec<CacheEntry> = Vec::new();
    std::mem::swap(&mut store.entries, &mut entries);
    let (kept, count) = sweep(entries, &cache, true, now);
    proof {
        assert(retained(m, cache@, true, now).dom().filter(|k: SlotKey| k.0 == cache@) =~= live_keys(m, cache@, now));
    }
    store.entries = kept;
    count as i64
}

/// A value set is a value got: right after `set`, the key holds the value,
/// live at any time.
pub proof fn a_set_value_is_got(m: Map<SlotKey, Slot>, cache: Seq<char>, key: Seq<char>, value: Seq<char>, now: u64)
    ensures
        ({
            let after = m.insert((cache, key), (value, None));
            &&& after.contains_key((cache, key))
            &&& live(after[(cache, key)], now)
            &&& after[(cache, key)].0 == value
        }),
{
}

/// A value set with a time to live is gone once that time has passed: from
/// the deadline on it is not live.
pub proof fn an_expired_value_is_gone(value: Seq<char>, ttl_seconds: i64, set_at: u64, later: u64)
    requires
        set_at + ttl_nanos(ttl_seconds) <= u64::MAX,
        later >= set_at + ttl_nanos(ttl_seconds),
    ensures
        !live((value, Some((set_at + ttl_nanos(ttl_seconds)) as u64)), later),
{
}

/// Caches are separate: setting, deleting or clearing in one cache leaves
/// every key of another cache as it was, and a cleared cache holds nothing.
pub proof fn caches_are_separate_and_clearable(m: Map<SlotKey, Slot>, cache: Seq<char>, other: Seq<char>, key: Seq<char>, other_key: Seq<char>, slot: Slot)
    requires
        cache != other,
    ensures
        m.insert((cache, key), slot).contains_key((other, other_key)) == m.contains_key((other, other_key)),
        m.insert((cache, key), slot)[(other, other_key)] == m[(other, other_key)],
        m.remove((cache, key)).contains_key((other, other_key)) == m.contains_key((other, other_key)),
        m.remove((cache, key))[(other, other_key)] == m[(other, other_key)],
        without_cache(m, cache).contains_key((other, other_key)) == m.contains_key((other, other_key)),
        m.contains_key((other, other_key)) ==> without_cache(m, cache)[(other, other_key)] == m[(other, other_key)],
        !without_cache(m, cache).contains_key((cache, key)),
{
}


/// A call on the store, as its effect on what the store holds: `set` (`Put`),
/// `set_ttl` (`PutTtl`, with the deadline it computed), `get` (and `get_or` and `has`,
/// which act the same), `delete`, `clear` and `len`.
pub enum CacheCall {
    Put { cache: Seq<char>, key: Seq<char>, value: Seq<char> },
    PutTtl { cache: Seq<char>, key: Seq<char>, value: Seq<char>, deadline: u64 },
    Get { cache: Seq<char>, key: Seq<char>, now: u64 },
    Delete { cache: Seq<char>, key: Seq<char> },
    Clear { cache: Seq<char> },
    Len { cache: Seq<char>, now: u64 },
}

/// What the store holds after a call, as each function's contract says.
pub open spec fn called(m: Map<SlotKey, Slot>, call: CacheCall) -> Map<SlotKey, Slot> {
    match call {
        CacheCall::Put { cache, key, value } => m.insert((cache, key), (value, None)),
        CacheCall::PutTtl { cache, key, value, deadline } => m.insert((cache, key), (value, Some(deadline))),
        CacheCall::Get { cache, key, now } => if m.contains_key((cache, key)) && !live(m[(cache, key)], now) {
            m.remove((cache, key))
        } else {
            m
        },
        CacheCall::Delete { cache, key } => m.remove((cache, key)),
        CacheCall::Clear { cache } => without_cache(m, cache),
        CacheCall::Len { cache, now } => retained(m, cache, true, now),
    }
}

/// What the store holds after a run of calls, in order.
pub open spec fn called_all(m: Map<SlotKey, Slot>, calls: Seq<CacheCall>) -> Map<SlotKey, Slot>
    decreases calls.len(),
{
    if calls.len() == 0 {
        m
    } else {
        called(called_all(m, calls.drop_last()), calls.last())
    }
}

/// Whether a call leaves one key alone: it sets or deletes another key, or
/// clears another cache; reads and counts touch nothing live.
pub open spec fn leaves_alone(call: CacheCall, cache: Seq<char>, key: Seq<char>) -> bool {
    match call {
        CacheCall::Put { cache: c, key: k, .. } => (c, k) != (cache, key),
        CacheCall::PutTtl { cache: c, key: k, .. } => (c, k) != (cache, key),
        CacheCall::Delete { cache: c, key: k } => (c, k) != (cache, key),
        CacheCall::Clear { cache: c } => c != cache,
        _ => true,
    }
}

/// A value set without a time to live stays until it is deleted: after any
/// run of calls that set, delete or clear other things, or read and count,
/// the key still holds the value, live at any time, so `get` gives it.
pub proof fn a_value_set_stays(
    m: Map<SlotKey, Slot>,
    cache: Seq<char>,
    key: Seq<char>,
    value: Seq<char>,
    calls: Seq<CacheCall>,
    now: u64,
)
    requires
        forall|i: int| 0 <= i < calls.len() ==> leaves_alone(#[trigger] calls[i], cache, key),
    ensures
        called_all(m.insert((cache, key), (value, None)), calls).contains_key((cache, key)),
        called_all(m.insert((cache, key), (value, None)), calls)[(cache, key)] == (value, None::<u64>),
        live(called_all(m.insert((cache, key), (value, None)), calls)[(cache, key)], now),
    decreases calls.len(),
{
    if calls.len() > 0 {
        let front = calls.drop_last();
        assert forall|i: int| 0 <= i < front.len() implies leaves_alone(#[trigger] front[i], cache, key) by {
            assert(front[i] == calls[i]);
        }
        a_value_set_stays(m, cache, key, value, front, now);
        let before = called_all(m.insert((cache, key), (value, None)), front);
        assert(leaves_alone(calls[calls.len() - 1], cache, key));
        match calls.last() {
            CacheCall::Clear { cache: c } => {
                assert(before.dom().filter(|k: SlotKey| k.0 != c || (false && live(before[k], 0))).contains((cache, key)));
            },
            CacheCall::Len { cache: c, now: t } => {
                assert(before.dom().filter(|k: SlotKey| k.0 != c || (true && live(before[k], t))).contains((cache, key)));
            },
            _ => {},
        }
    }
}

} // verus!
