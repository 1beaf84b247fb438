use subotai_core::hash::SubotaiHash;
use subotai_core::storage::{
    lifetime_ns, Storage, StorageEntry, StoreResult, BASE_EXPIRATION_NS,
    EXPIRATION_DISTANCE_THRESHOLD, MAX_STORAGE, MIN_EXPIRATION_NS,
};

const HOUR_NS: u64 = 3_600_000_000_000;

fn hash_from_counter(counter: usize) -> SubotaiHash {
    let mut h = SubotaiHash::blank();
    for b in 0..24 {
        if (counter >> b) & 1 == 1 {
            h.set_bit(b);
        }
    }
    h
}

#[test]
fn expiration_date_calculation_below_distance_threshold() {
    let id = SubotaiHash::random();
    let mut storage = Storage::new(id.clone());

    // One key at distance 1 from our node, another at the expiration
    // distance threshold.
    let key_at_1 = id.random_at_distance(1);
    let key_at_expf = id.random_at_distance(EXPIRATION_DISTANCE_THRESHOLD);
    let dummy_entry = StorageEntry::Value(SubotaiHash::random());

    let before = time::precise_time_ns();
    storage.store(key_at_1.clone(), dummy_entry.clone());
    storage.store(key_at_expf.clone(), dummy_entry.clone());
    let after = time::precise_time_ns();

    // Both keys should have an expiration date of roughly 24 hours from
    // now.
    let exp_alpha = storage.expiration_of(&key_at_1).unwrap();
    let exp_beta = storage.expiration_of(&key_at_expf).unwrap();

    assert!(exp_alpha <= after + 24 * HOUR_NS);
    assert!(exp_alpha >= before + 23 * HOUR_NS);
    assert!(exp_beta <= after + 24 * HOUR_NS);
    assert!(exp_beta >= before + 23 * HOUR_NS);
}

#[test]
fn storage_full() {
    let parent = SubotaiHash::blank();
    let mut storage = Storage::new(parent);
    let entry = StorageEntry::Blob(vec![1, 2, 3]);
    for counter in 0..MAX_STORAGE {
        let r = storage.store_at(hash_from_counter(counter), entry.clone(), 0);
        assert_eq!(r, StoreResult::Success);
    }
    assert_eq!(storage.len(), MAX_STORAGE);

    let new_key = hash_from_counter(MAX_STORAGE);
    assert_eq!(storage.store_at(new_key, entry.clone(), 0), StoreResult::StorageFull);
    assert_eq!(storage.len(), MAX_STORAGE);

    // The capacity check precedes the upsert: even a key already present
    // is refused while the store is full.
    assert_eq!(
        storage.store_at(hash_from_counter(0), entry, 0),
        StoreResult::StorageFull
    );
}

#[test]
fn store_and_get_round_trip() {
    let parent = SubotaiHash::blank();
    let mut storage = Storage::new(parent.clone());
    let key = parent.random_at_distance(1);
    let entry = StorageEntry::Blob(vec![7, 8]);

    assert!(storage.is_empty());
    assert_eq!(storage.store_at(key.clone(), entry.clone(), 1000), StoreResult::Success);
    assert!(!storage.is_empty());
    assert_eq!(storage.len(), 1);

    // Within the lifetime the stored entry comes back.
    assert_eq!(storage.get_at(&key, 2000), Some(entry.clone()));
    // Past its expiration the entry is logically absent.
    assert_eq!(storage.get_at(&key, 1000 + BASE_EXPIRATION_NS), None);
    // A key never stored is absent.
    assert_eq!(storage.get_at(&parent.random_at_distance(2), 2000), None);

    // Overwriting a present key reports it as already present.
    let other = StorageEntry::Value(SubotaiHash::random());
    assert_eq!(
        storage.store_at(key.clone(), other.clone(), 3000),
        StoreResult::AlreadyPresent
    );
    assert_eq!(storage.len(), 1);
    assert_eq!(storage.get_at(&key, 4000), Some(other));

    // The clock-reading wrappers agree with the explicit-time variants.
    let fresh_key = parent.random_at_distance(3);
    assert_eq!(storage.store(fresh_key.clone(), entry.clone()), StoreResult::Success);
    assert_eq!(storage.get(&fresh_key), Some(entry));
}

#[test]
fn expiration_under_threshold() {
    let parent = SubotaiHash::blank();
    let mut storage = Storage::new(parent.clone());
    let entry = StorageEntry::Blob(vec![9]);
    let now: u64 = 5_000_000;

    let key_near = parent.random_at_distance(1);
    let key_at_threshold = parent.random_at_distance(EXPIRATION_DISTANCE_THRESHOLD);
    storage.store_at(key_near.clone(), entry.clone(), now);
    storage.store_at(key_at_threshold.clone(), entry, now);

    let exp_near = storage.expiration_of(&key_near).unwrap();
    let exp_threshold = storage.expiration_of(&key_at_threshold).unwrap();
    assert!(exp_near >= now + 23 * HOUR_NS && exp_near <= now + 24 * HOUR_NS);
    assert!(exp_threshold >= now + 23 * HOUR_NS && exp_threshold <= now + 24 * HOUR_NS);
    assert_eq!(exp_near, now + BASE_EXPIRATION_NS);
    assert_eq!(exp_threshold, now + BASE_EXPIRATION_NS);
}

#[test]
fn lifetime_decay_curve() {
    // Full base lifetime through the threshold.
    assert_eq!(lifetime_ns(0), BASE_EXPIRATION_NS);
    assert_eq!(lifetime_ns(1), BASE_EXPIRATION_NS);
    assert_eq!(lifetime_ns(EXPIRATION_DISTANCE_THRESHOLD), BASE_EXPIRATION_NS);
    // Halved per height step beyond it.
    assert_eq!(lifetime_ns(6), BASE_EXPIRATION_NS / 2);
    assert_eq!(lifetime_ns(7), BASE_EXPIRATION_NS / 4);
    // Monotone non-increasing all the way out.
    for d in 1..=160 {
        assert!(lifetime_ns(d) <= lifetime_ns(d - 1));
    }
    // At far distances the residual lifetime is the one-minute floor.
    assert_eq!(lifetime_ns(16), MIN_EXPIRATION_NS);
    assert_eq!(lifetime_ns(160), MIN_EXPIRATION_NS);
}
