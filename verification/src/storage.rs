//! Bounded local key-value store with distance-dependent expiry.
//!
//! Entries live for a base lifetime of 24 hours. For keys whose XOR
//! distance to the node's own identifier has height at most
//! `EXPIRATION_DISTANCE_THRESHOLD` the full base lifetime applies; each
//! height step beyond the threshold halves the lifetime, down to a floor
//! of one minute at far distances. This decay discourages over-caching of
//! keys the node is a poor home for.

use vstd::prelude::*;
use crate::hash::{SubotaiHash, HASH_SIZE, height_of, xor_of};
use crate::clock::monotonic_time_ns;

verus! {

/// Capacity of a node's local store, in entries.
pub const MAX_STORAGE: usize = 10000;

/// Base lifetime of a stored entry: 24 hours, in nanoseconds.
pub const BASE_EXPIRATION_NS: u64 = 86_400_000_000_000;

/// Distance height after which the expiration time for a key begins to
/// drop. Prevents over-caching.
pub const EXPIRATION_DISTANCE_THRESHOLD: usize = 5;

/// Smallest lifetime, reached at far distances: one minute, in
/// nanoseconds.
pub const MIN_EXPIRATION_NS: u64 = 60_000_000_000;

/// A stored value: a pointer-style reference to another key, or an opaque
/// payload.
#[derive(Debug, PartialEq, Eq)]
pub enum StorageEntry {
    Value(SubotaiHash),
    Blob(Vec<u8>),
}

/// The mathematical content of a `StorageEntry`.
pub ghost enum EntryData {
    Value(Seq<bool>),
    Blob(Seq<u8>),
}

impl View for StorageEntry {
    type V = EntryData;

    open spec fn view(&self) -> EntryData {
        match self {
            StorageEntry::Value(h) => EntryData::Value(h@),
            StorageEntry::Blob(b) => EntryData::Blob(b@),
        }
    }
}

impl Clone for StorageEntry {
    fn clone(&self) -> (r: Self)
        ensures
            r@ == self@,
    {
        match self {
            StorageEntry::Value(h) => StorageEntry::Value(h.clone()),
            StorageEntry::Blob(b) => StorageEntry::Blob(b.clone()),
        }
    }
}

/// One stored record: key, entry, and the monotonic-clock instant at
/// which the entry lapses.
struct EntryAndExpiration {
    key: SubotaiHash,
    entry: StorageEntry,
    expiration: u64,
}

/// The mathematical content of one stored record.
pub ghost struct RecordData {
    pub key: Seq<bool>,
    pub entry: EntryData,
    pub expiration: u64,
}

impl View for EntryAndExpiration {
    type V = RecordData;

    closed spec fn view(&self) -> RecordData {
        RecordData { key: self.key@, entry: self.entry@, expiration: self.expiration }
    }
}

/// The result of a store request.
#[derive(Debug, PartialEq, Eq, Structural)]
pub enum StoreResult {
    Success,
    AlreadyPresent,
    StorageFull,
}

/// Bounded map from keys to entries with expirations, owned by a node
/// whose identifier fixes each entry's lifetime.
pub struct Storage {
    entries_and_expirations: Vec<EntryAndExpiration>,
    parent_id: SubotaiHash,
}

/// Some record in the sequence carries the given key.
pub open spec fn contains_key(s: Seq<RecordData>, key: Seq<bool>) -> bool {
    exists|j: int| 0 <= j < s.len() && s[j].key == key
}

/// The first record carrying the given key, if any.
pub open spec fn lookup_record(s: Seq<RecordData>, key: Seq<bool>) -> Option<RecordData>
    decreases s.len(),
{
    if s.len() == 0 {
        Option::None
    } else if s[0].key == key {
        Option::Some(s[0])
    } else {
        lookup_record(s.drop_first(), key)
    }
}

/// A record at index `j` whose key has no earlier occurrence is what the
/// lookup returns.
proof fn lemma_lookup_found(s: Seq<RecordData>, key: Seq<bool>, j: int)
    requires
        0 <= j < s.len(),
        s[j].key == key,
        forall|k: int| 0 <= k < j ==> s[k].key != key,
    ensures
        lookup_record(s, key) == Option::Some(s[j]),
    decreases s.len(),
{
    if j > 0 {
        lemma_lookup_found(s.drop_first(), key, j - 1);
    }
}

/// A key occurring nowhere is never returned.
proof fn lemma_lookup_none(s: Seq<RecordData>, key: Seq<bool>)
    requires
        forall|k: int| 0 <= k < s.len() ==> s[k].key != key,
    ensures
        lookup_record(s, key) is None,
    decreases s.len(),
{
    if s.len() > 0 {
        lemma_lookup_none(s.drop_first(), key);
    }
}

/// Lifetime of an entry stored at a given distance height: the base
/// lifetime up to the threshold, then halved per height step, never
/// below the one-minute floor.
pub open spec fn spec_lifetime_ns(d: int) -> int
    decreases d,
{
    if d <= EXPIRATION_DISTANCE_THRESHOLD {
        BASE_EXPIRATION_NS as int
    } else {
        let halved = spec_lifetime_ns(d - 1) / 2;
        if halved < MIN_EXPIRATION_NS {
            MIN_EXPIRATION_NS as int
        } else {
            halved
        }
    }
}

/// The lifetime stays between the floor and the base lifetime.
pub proof fn lemma_lifetime_bounds(d: int)
    requires
        0 <= d,
    ensures
        MIN_EXPIRATION_NS <= spec_lifetime_ns(d) <= BASE_EXPIRATION_NS,
    decreases d,
{
    if d > EXPIRATION_DISTANCE_THRESHOLD {
        lemma_lifetime_bounds(d - 1);
    }
}

/// Expiration monotonicity in distance: a nearer key never expires before
/// a farther one stored at the same moment.
pub proof fn lemma_lifetime_monotone(d1: int, d2: int)
    requires
        0 <= d1 <= d2,
    ensures
        spec_lifetime_ns(d1) >= spec_lifetime_ns(d2),
    decreases d2,
{
    if d1 < d2 {
        lemma_lifetime_monotone(d1, d2 - 1);
        if d2 > EXPIRATION_DISTANCE_THRESHOLD {
            lemma_lifetime_bounds(d2 - 1);
        }
    }
}

/// The expiration instant assigned when storing at monotonic time `now`
/// a key at distance height `d`: `now` plus the lifetime, saturating at
/// the clock's maximum.
pub open spec fn spec_expiration(now: u64, d: int) -> int {
    if now + spec_lifetime_ns(d) <= u64::MAX {
        now + spec_lifetime_ns(d)
    } else {
        u64::MAX as int
    }
}

/// Expiration monotonicity: keys nearer to the parent expire no earlier
/// than keys farther from it, and up to the threshold the expiration is
/// exactly the base lifetime from now.
pub proof fn lemma_expiration_monotone(now: u64, d1: int, d2: int)
    requires
        0 <= d1 <= d2,
    ensures
        spec_expiration(now, d1) >= spec_expiration(now, d2),
        d2 <= EXPIRATION_DISTANCE_THRESHOLD && now + BASE_EXPIRATION_NS <= u64::MAX
            ==> spec_expiration(now, d1) == now + BASE_EXPIRATION_NS,
{
    lemma_lifetime_monotone(d1, d2);
}

/// Computes the lifetime for a distance height.
pub fn lifetime_ns(distance_height: usize) -> (r: u64)
    requires
        distance_height <= HASH_SIZE,
    ensures
        r == spec_lifetime_ns(distance_height as int),
        MIN_EXPIRATION_NS <= r <= BASE_EXPIRATION_NS,
{
    proof {
        lemma_lifetime_bounds(distance_height as int);
    }
    if distance_height <= EXPIRATION_DISTANCE_THRESHOLD {
        return BASE_EXPIRATION_NS;
    }
    let mut l: u64 = BASE_EXPIRATION_NS;
    let mut k: usize = EXPIRATION_DISTANCE_THRESHOLD;
    while k < distance_height
        invariant
            EXPIRATION_DISTANCE_THRESHOLD <= k <= distance_height,
            distance_height <= HASH_SIZE,
            l == spec_lifetime_ns(k as int),
            MIN_EXPIRATION_NS <= l <= BASE_EXPIRATION_NS,
        decreases distance_height - k,
    {
        let halved = l / 2;
        l = if halved < MIN_EXPIRATION_NS {
            MIN_EXPIRATION_NS
        } else {
            halved
        };
        k += 1;
        proof {
            lemma_lifetime_bounds(k as int);
        }
    }
    l
}

/// Computes the expiration instant for a store at time `now` of a key at
/// a distance height.
pub fn expiration_ns(now: u64, distance_height: usize) -> (r: u64)
    requires
        distance_height <= HASH_SIZE,
    ensures
        r == spec_expiration(now, distance_height as int),
        r >= now,
{
    let life = lifetime_ns(distance_height);
    if now <= u64::MAX - life {
        now + life
    } else {
        u64::MAX
    }
}

/// How one store request at time `now` changes the record sequence and
/// what it returns: a full store refuses any request; a known key is
/// overwritten in place with a fresh expiration; a new key is appended.
pub open spec fn store_post(
    pre: Seq<RecordData>,
    post: Seq<RecordData>,
    parent: Seq<bool>,
    key: Seq<bool>,
    entry: EntryData,
    now: u64,
    r: StoreResult,
) -> bool {
    let d = height_of(xor_of(parent, key)) as int;
    let rec = RecordData { key, entry, expiration: spec_expiration(now, d) as u64 };
    match r {
        StoreResult::StorageFull => pre.len() >= MAX_STORAGE && post == pre,
        StoreResult::AlreadyPresent => pre.len() < MAX_STORAGE && (exists|j: int|
            0 <= j < pre.len() && pre[j].key == key && post == pre.update(j, rec)),
        StoreResult::Success => pre.len() < MAX_STORAGE && !contains_key(pre, key) && post
            == pre.push(rec),
    }
}

/// What a read of `key` at time `now` returns: the stored entry exactly
/// when the key is present and not yet expired.
pub open spec fn get_post(
    s: Seq<RecordData>,
    key: Seq<bool>,
    now: u64,
    r: Option<StorageEntry>,
) -> bool {
    match r {
        Option::Some(e) => (lookup_record(s, key) matches Option::Some(rec) && e@ == rec.entry
            && rec.expiration > now),
        Option::None => !(lookup_record(s, key) matches Option::Some(rec) && rec.expiration
            > now),
    }
}

/// Storage round trip: after a successful store of `entry` under `key`
/// at time `now`, any read of `key` before the assigned expiration finds
/// exactly that entry.
pub proof fn lemma_store_then_get(
    pre: Seq<RecordData>,
    post: Seq<RecordData>,
    parent: Seq<bool>,
    key: Seq<bool>,
    entry: EntryData,
    now: u64,
    later: u64,
)
    requires
        store_post(pre, post, parent, key, entry, now, StoreResult::Success),
        later < spec_expiration(now, height_of(xor_of(parent, key)) as int),
    ensures
        lookup_record(post, key) matches Option::Some(rec) && rec.entry == entry
            && rec.expiration > later,
{
    let d = height_of(xor_of(parent, key)) as int;
    let rec = RecordData { key, entry, expiration: spec_expiration(now, d) as u64 };
    assert forall|k: int| 0 <= k < pre.len() implies pre[k].key != key by {
        if pre[k].key == key {
            assert(contains_key(pre, key));
        }
    }
    lemma_lookup_found(post, key, pre.len() as int);
    assert(post[pre.len() as int] == rec);
}

impl Storage {
    /// The records held, oldest first.
    pub closed spec fn records(&self) -> Seq<RecordData> {
        self.entries_and_expirations@.map_values(|r: EntryAndExpiration| r@)
    }

    /// The owning node's identifier bits.
    pub closed spec fn parent(&self) -> Seq<bool> {
        self.parent_id@
    }

    /// Storage invariant: a well-formed parent, the capacity bound, and
    /// no key stored twice.
    pub open spec fn wf(&self) -> bool {
        &&& self.parent().len() == HASH_SIZE
        &&& self.records().len() <= MAX_STORAGE
        &&& (forall|j1: int, j2: int|
            0 <= j1 < j2 < self.records().len() ==> self.records()[j1].key
                != self.records()[j2].key)
    }

    /// Creates an empty store for a node.
    pub fn new(parent_id: SubotaiHash) -> (r: Storage)
        requires
            parent_id.wf(),
        ensures
            r.wf(),
            r.parent() == parent_id@,
            r.records().len() == 0,
    {
        Storage { entries_and_expirations: Vec::new(), parent_id }
    }

    /// How many entries are held, expired ones included.
    pub fn len(&self) -> (r: usize)
        ensures
            r == self.records().len(),
    {
        self.entries_and_expirations.len()
    }

    /// Whether the store holds no entry.
    pub fn is_empty(&self) -> (r: bool)
        ensures
            r == (self.records().len() == 0),
    {
        self.entries_and_expirations.is_empty()
    }

    /// Stores an entry under a key as of monotonic time `now`. The
    /// capacity check precedes the upsert, so a full store refuses even
    /// an overwrite of a key already present.
    #[verifier::loop_isolation(false)]
    pub fn store_at(&mut self, key: SubotaiHash, entry: StorageEntry, now: u64) -> (r:
        StoreResult)
        requires
            old(self).wf(),
            key.wf(),
        ensures
            final(self).wf(),
            final(self).parent() == old(self).parent(),
            store_post(
                old(self).records(),
                final(self).records(),
                old(self).parent(),
                key@,
                entry@,
                now,
                r,
            ),
    {
        let ghost pre = self.records();
        if self.entries_and_expirations.len() >= MAX_STORAGE {
            return StoreResult::StorageFull;
        }
        let d = self.parent_id.xor(&key).height();
        let expiration = expiration_ns(now, d);
        let ghost rec_data = RecordData {
            key: key@,
            entry: entry@,
            expiration: spec_expiration(now, d as int) as u64,
        };

        let n: usize = self.entries_and_expirations.len();
        let mut j: usize = 0;
        let mut found: Option<usize> = None;
        while j < n
            invariant
                j <= n,
                self.records() == pre,
                n == pre.len(),
                match found {
                    Some(jj) => jj < n && pre[jj as int].key == key@,
                    None => forall|k: int| 0 <= k < j ==> pre[k].key != key@,
                },
            decreases n - j,
        {
            if found.is_none() && self.entries_and_expirations[j].key == key {
                found = Some(j);
            }
            j += 1;
        }

        let record = EntryAndExpiration { key, entry, expiration };
        match found {
            Some(jj) => {
                self.entries_and_expirations.remove(jj);
                self.entries_and_expirations.insert(jj, record);
                proof {
                    assert(self.records() =~= pre.update(jj as int, rec_data));
                }
                StoreResult::AlreadyPresent
            },
            None => {
                proof {
                    assert(!contains_key(pre, key@));
                }
                self.entries_and_expirations.push(record);
                proof {
                    assert(self.records() =~= pre.push(rec_data));
                }
                StoreResult::Success
            },
        }
    }

    /// Stores an entry under a key as of the clock's current reading.
    pub fn store(&mut self, key: SubotaiHash, entry: StorageEntry) -> (r: StoreResult)
        requires
            old(self).wf(),
            key.wf(),
        ensures
            final(self).wf(),
            final(self).parent() == old(self).parent(),
            exists|now: u64|
                store_post(
                    old(self).records(),
                    final(self).records(),
                    old(self).parent(),
                    key@,
                    entry@,
                    now,
                    r,
                ),
    {
        let now = monotonic_time_ns();
        let ghost pre = self.records();
        let r = self.store_at(key, entry, now);
        proof {
            assert(store_post(pre, self.records(), self.parent(), key@, entry@, now, r));
        }
        r
    }

    /// Reads the entry under a key as of monotonic time `now`: a clone of
    /// the stored entry if it is present and not past its expiration.
    #[verifier::loop_isolation(false)]
    pub fn get_at(&self, key: &SubotaiHash, now: u64) -> (r: Option<StorageEntry>)
        requires
            self.wf(),
            key.wf(),
        ensures
            get_post(self.records(), key@, now, r),
    {
        let ghost recs = self.records();
        let n: usize = self.entries_and_expirations.len();
        let mut j: usize = 0;
        while j < n
            invariant
                j <= n,
                n == recs.len(),
                forall|k: int| 0 <= k < j ==> recs[k].key != key@,
            decreases n - j,
        {
            if self.entries_and_expirations[j].key == *key {
                proof {
                    lemma_lookup_found(recs, key@, j as int);
                }
                if self.entries_and_expirations[j].expiration > now {
                    return Some(self.entries_and_expirations[j].entry.clone());
                } else {
                    return None;
                }
            }
            j += 1;
        }
        proof {
            lemma_lookup_none(recs, key@);
        }
        None
    }

    /// The expiration instant recorded for a key, if the key is held.
    /// Exposed so the decay curve is observable by callers and tests.
    #[verifier::loop_isolation(false)]
    pub fn expiration_of(&self, key: &SubotaiHash) -> (r: Option<u64>)
        requires
            self.wf(),
            key.wf(),
        ensures
            match lookup_record(self.records(), key@) {
                Option::Some(rec) => r == Option::Some(rec.expiration),
                Option::None => r is None,
            },
    {
        let ghost recs = self.records();
        let n: usize = self.entries_and_expirations.len();
        let mut j: usize = 0;
        while j < n
            invariant
                j <= n,
                n == recs.len(),
                forall|k: int| 0 <= k < j ==> recs[k].key != key@,
            decreases n - j,
        {
            if self.entries_and_expirations[j].key == *key {
                proof {
                    lemma_lookup_found(recs, key@, j as int);
                }
                return Some(self.entries_and_expirations[j].expiration);
            }
            j += 1;
        }
        proof {
            lemma_lookup_none(recs, key@);
        }
        None
    }

    /// Reads the entry under a key as of the clock's current reading.
    pub fn get(&self, key: &SubotaiHash) -> (r: Option<StorageEntry>)
        requires
            self.wf(),
            key.wf(),
        ensures
            exists|now: u64| get_post(self.records(), key@, now, r),
    {
        let now = monotonic_time_ns();
        let r = self.get_at(key, now);
        proof {
            assert(get_post(self.records(), key@, now, r));
        }
        r
    }
}

} // verus!
