use cachekv::{AdaptToDb, Binary, Crypted, Aes256Cipher, Db, FaultStore, LruTable, MemTable,
    SectionLruTable, Store, StoreContents, UpdateFrom, VecStore};

/// A read/modify/write step that adds a constant to the previous value.
struct AddTo(u64);

impl UpdateFrom<u64> for AddTo {
    fn update_spec(self, old: Option<u64>) -> u64 {
        match old {
            Some(v) => v + self.0,
            None => self.0,
        }
    }

    fn update_from(self, old: Option<u64>) -> u64 {
        match old {
            Some(v) => v + self.0,
            None => self.0,
        }
    }
}

fn plain_db<K: AdaptToDb>() -> Db<K, VecStore> {
    Db::open(VecStore::new())
}

#[test]
fn mirror_put_then_get_returns_value() {
    let mut t: MemTable<u64, String, VecStore> = MemTable::new(plain_db()).unwrap();
    t.put(&1, "one".to_string()).unwrap();
    t.put(&2, "two".to_string()).unwrap();
    assert_eq!(t.get(&1), Some(&"one".to_string()));
    assert_eq!(t.get(&2), Some(&"two".to_string()));
    assert_eq!(t.get(&3), None);
    t.put(&1, "uno".to_string()).unwrap();
    assert_eq!(t.get(&1), Some(&"uno".to_string()));
}

#[test]
fn mirror_loads_existing_entries() {
    let mut db: Db<u64, VecStore> = plain_db();
    db.put(&10, &"ten".to_string()).unwrap();
    db.put(&20, &"twenty".to_string()).unwrap();
    let t: MemTable<u64, String, VecStore> = MemTable::new(db).unwrap();
    assert!(t.contains_key(&10));
    assert_eq!(t.get(&20), Some(&"twenty".to_string()));
    assert_eq!(t.iter().len(), 2);
}

#[test]
fn mirror_delete_returns_previous_value() {
    let mut t: MemTable<u64, u64, VecStore> = MemTable::new(plain_db()).unwrap();
    t.put(&1, 11).unwrap();
    assert_eq!(t.delete(&1).unwrap(), Some(11));
    assert_eq!(t.delete(&1).unwrap(), None);
    assert!(!t.contains_key(&1));
}

#[test]
fn mirror_get_or_init_and_default() {
    let mut t: MemTable<u64, u64, VecStore> = MemTable::new(plain_db()).unwrap();
    assert_eq!(*t.get_or_init(&5, || 50).unwrap(), 50);
    // Already resident: the existing value wins.
    assert_eq!(*t.get_or_init(&5, || 99).unwrap(), 50);
    assert_eq!(*t.get_or_default(&6).unwrap(), 0);
    assert!(t.contains_key(&6));
}

#[test]
fn mirror_update_applies_step() {
    let mut t: MemTable<u64, u64, VecStore> = MemTable::new(plain_db()).unwrap();
    t.update(1, AddTo(5)).unwrap();
    assert_eq!(t.get(&1), Some(&5));
    t.update(1, AddTo(7)).unwrap();
    assert_eq!(t.get(&1), Some(&12));
}

#[test]
fn mirror_update_write_failure_resyncs() {
    // One successful write, then one injected failure.
    let store = FaultStore::with_plan(VecStore::new(), 1, 1);
    let db: Db<u64, FaultStore<VecStore>> = Db::open(store);
    let mut t: MemTable<u64, u64, VecStore>;
    let mut m: MemTable<u64, u64, FaultStore<VecStore>> = MemTable::new(db).unwrap();
    m.put(&1, 10).unwrap();
    // The failing write reports its error, and the mirror afterwards shows
    // what the store still durably holds: the old value.
    let r = m.update(1, AddTo(5));
    assert!(r.is_err());
    assert_eq!(m.get(&1), Some(&10));
    // Writes work again; the table is consistent from here on.
    m.update(1, AddTo(5)).unwrap();
    assert_eq!(m.get(&1), Some(&15));
    t = MemTable::new(plain_db()).unwrap();
    t.put(&1, 1).unwrap();
}

#[test]
fn mirror_update_write_failure_on_fresh_key() {
    // The failing update of an absent key leaves the mirror without it.
    let store = FaultStore::with_plan(VecStore::new(), 0, 1);
    let db: Db<u64, FaultStore<VecStore>> = Db::open(store);
    let mut m: MemTable<u64, u64, FaultStore<VecStore>> = MemTable::new(db).unwrap();
    assert!(m.update(1, AddTo(5)).is_err());
    assert_eq!(m.get(&1), None);
}

#[test]
fn lru_eviction_discards_least_recently_touched() {
    // Capacity 2: put a, b, c in order evicts a; a is still durable, and a
    // read re-admits it.
    let mut t: LruTable<String, u64, VecStore> = LruTable::with_capacity(plain_db(), 2);
    t.put(&"a".to_string(), 1).unwrap();
    t.put(&"b".to_string(), 2).unwrap();
    t.put(&"c".to_string(), 3).unwrap();
    assert_eq!(t.len(), 2);
    assert_eq!(t.get(&"a".to_string()).unwrap(), Some(&1));
    assert_eq!(t.len(), 2);
    assert!(t.contains_key(&"a".to_string()).unwrap());
}

#[test]
fn lru_get_refreshes_recency() {
    let mut t: LruTable<u64, u64, VecStore> = LruTable::with_capacity(plain_db(), 2);
    t.put(&1, 10).unwrap();
    t.put(&2, 20).unwrap();
    // Touch 1, so 2 is now the least recently touched.
    assert_eq!(t.get(&1).unwrap(), Some(&10));
    t.put(&3, 30).unwrap();
    // 2 was evicted from memory, but stays durable.
    assert_eq!(t.len(), 2);
    assert_eq!(t.get(&2).unwrap(), Some(&20));
}

#[test]
fn lru_capacity_never_exceeded() {
    let mut t: LruTable<u64, u64, VecStore> = LruTable::with_capacity(plain_db(), 3);
    for k in 0..10u64 {
        t.put(&k, k).unwrap();
        assert!(t.len() <= t.capacity());
    }
    for k in 0..10u64 {
        assert_eq!(t.get(&k).unwrap(), Some(&k));
        assert!(t.len() <= t.capacity());
    }
}

#[test]
fn lru_get_misses_without_insertion() {
    let mut t: LruTable<u64, u64, VecStore> = LruTable::with_capacity(plain_db(), 2);
    assert_eq!(t.get(&42).unwrap(), None);
    assert_eq!(t.len(), 0);
}

#[test]
fn lru_update_reads_durable_state() {
    let mut db: Db<u64, VecStore> = plain_db();
    db.put(&1, &100u64).unwrap();
    let mut t: LruTable<u64, u64, VecStore> = LruTable::with_capacity(db, 2);
    // Not resident: update starts from the durable value.
    t.update(&1, AddTo(1)).unwrap();
    assert_eq!(t.get(&1).unwrap(), Some(&101));
    // Resident: update starts from the cached value.
    t.update(&1, AddTo(1)).unwrap();
    assert_eq!(t.get(&1).unwrap(), Some(&102));
}

#[test]
fn lru_update_and_get_borrows_entry() {
    let mut t: LruTable<u64, u64, VecStore> = LruTable::with_capacity(plain_db(), 2);
    let v = t.update_and_get(&1, AddTo(5)).unwrap();
    assert_eq!(*v, 5);
    *v = 99;
    // The borrow mutated the cached entry only.
    assert_eq!(t.get(&1).unwrap(), Some(&99));
}

#[test]
fn lru_delete_removes_everywhere() {
    let mut t: LruTable<u64, u64, VecStore> = LruTable::with_capacity(plain_db(), 2);
    t.put(&1, 10).unwrap();
    t.delete(&1).unwrap();
    assert!(!t.contains_key(&1).unwrap());
    assert_eq!(t.get(&1).unwrap(), None);
}

#[test]
fn sectioned_scan_stops_at_section_boundary() {
    // Entries of one section are loaded exactly; a neighbouring section's
    // entry never appears in the loaded map.
    let mut db: Db<(String, String), VecStore> = plain_db();
    db.put(&("sec1".to_string(), "x".to_string()), &1u64).unwrap();
    db.put(&("sec1".to_string(), "y".to_string()), &2u64).unwrap();
    db.put(&("sec2".to_string(), "z".to_string()), &3u64).unwrap();
    let mut t: SectionLruTable<String, String, u64, VecStore> =
        SectionLruTable::with_capacity(db, 4);
    let m = t.get_section("sec1".to_string()).unwrap();
    assert_eq!(m.len(), 2);
    assert_eq!(m.get(&"x".to_string().to_db()), Some(&1));
    assert_eq!(m.get(&"y".to_string().to_db()), Some(&2));
    assert_eq!(m.get(&"z".to_string().to_db()), None);

    let m2 = t.get_section("sec2".to_string()).unwrap();
    assert_eq!(m2.len(), 1);
    assert_eq!(m2.get(&"z".to_string().to_db()), Some(&3));
}

#[test]
fn sectioned_get_and_put() {
    let mut t: SectionLruTable<String, u64, String, VecStore> =
        SectionLruTable::with_capacity(plain_db(), 2);
    t.put("s".to_string(), &1, "one".to_string()).unwrap();
    t.put("s".to_string(), &2, "two".to_string()).unwrap();
    assert_eq!(t.get("s".to_string(), &1).unwrap(), Some(&"one".to_string()));
    assert_eq!(t.get("s".to_string(), &2).unwrap(), Some(&"two".to_string()));
    assert_eq!(t.get("s".to_string(), &3).unwrap(), None);
    assert!(t.contains_key(&"s".to_string(), &1).unwrap());
    assert!(!t.contains_key(&"t".to_string(), &1).unwrap());
}

#[test]
fn sectioned_eviction_drops_whole_section() {
    let mut t: SectionLruTable<String, u64, u64, VecStore> =
        SectionLruTable::with_capacity(plain_db(), 1);
    t.put("a".to_string(), &1, 11).unwrap();
    t.put("a".to_string(), &2, 12).unwrap();
    assert_eq!(t.len(), 1);
    // Touching another section evicts the first one as a whole.
    t.put("b".to_string(), &1, 21).unwrap();
    assert_eq!(t.len(), 1);
    // The evicted section is still durable and reloads completely.
    let m = t.get_section("a".to_string()).unwrap();
    assert_eq!(m.len(), 2);
}

#[test]
fn sectioned_delete_writes_through() {
    let mut t: SectionLruTable<String, u64, u64, VecStore> =
        SectionLruTable::with_capacity(plain_db(), 2);
    t.put("s".to_string(), &1, 10).unwrap();
    t.delete(&"s".to_string(), &1).unwrap();
    assert_eq!(t.get("s".to_string(), &1).unwrap(), None);
    assert!(!t.contains_key(&"s".to_string(), &1).unwrap());
    // Deleting in a non-resident section still reaches the table.
    let mut u: SectionLruTable<String, u64, u64, VecStore> =
        SectionLruTable::with_capacity(plain_db(), 2);
    u.put("s".to_string(), &1, 10).unwrap();
    let mut v: SectionLruTable<String, u64, u64, VecStore> =
        SectionLruTable::with_capacity(plain_db(), 2);
    v.delete(&"s".to_string(), &7).unwrap();
    assert_eq!(v.get("s".to_string(), &7).unwrap(), None);
    let _ = u;
}

#[test]
fn binary_defers_decoding() {
    let b = Binary::with_ref(&"payload".to_string()).unwrap();
    assert_eq!(b.to_inner::<String>().unwrap(), "payload");
    // The view shares the same bytes without copying.
    let view = b.as_ref();
    assert_eq!(view.to_inner::<String>().unwrap(), "payload");
    assert_eq!(view.as_bytes(), b.as_bytes());
    // Decoding at the wrong type fails instead of inventing a value.
    assert!(b.to_inner::<u64>().is_err());
}

#[test]
fn binary_stored_as_table_value() {
    let mut db: Db<u64, VecStore> = plain_db();
    let b = Binary::with_ref(&12345u64).unwrap();
    db.put(&1, &b).unwrap();
    let loaded = db.get(&1).unwrap().unwrap();
    let back: Binary = loaded.to_inner().unwrap();
    assert_eq!(back.to_inner::<u64>().unwrap(), 12345);
}

#[test]
fn crypted_round_trip_and_tamper() {
    let cipher = Aes256Cipher::new(&[3u8; 32]);
    let c = Crypted::with_ref(&"hidden".to_string(), b"record-key", &cipher).unwrap();
    let c2 = c.to_owned();
    assert_eq!(c2.to_inner::<String, _>(b"record-key", &cipher).unwrap(), "hidden");
    // The wrong nonce (a different record's key) does not open it.
    assert!(c2.to_inner::<String, _>(b"other-key", &cipher).is_err());
}

/// A store binding implemented outside the library, as an embedding's
/// disk-backed binding would be: the ghost members of the boundary are
/// proof-time only and never called at run time.
struct ExternalStore(VecStore);

impl Store for ExternalStore {
    fn contents(&self) -> StoreContents {
        unreachable!()
    }

    fn lemma_finite(&self) {
        unreachable!()
    }

    fn get(&self, key: &[u8]) -> Result<Option<Vec<u8>>, cachekv::Error> {
        self.0.get(key)
    }

    fn put(&mut self, key: &[u8], value: &[u8]) -> Result<(), cachekv::Error> {
        self.0.put(key, value)
    }

    fn delete(&mut self, key: &[u8]) -> Result<(), cachekv::Error> {
        self.0.delete(key)
    }

    fn first_at_or_after(&self, lower: &[u8]) -> Result<Option<(Vec<u8>, Vec<u8>)>, cachekv::Error> {
        self.0.first_at_or_after(lower)
    }

    fn first_after(&self, lower: &[u8]) -> Result<Option<(Vec<u8>, Vec<u8>)>, cachekv::Error> {
        self.0.first_after(lower)
    }

    fn last_at_or_before(&self, upper: &[u8]) -> Result<Option<(Vec<u8>, Vec<u8>)>, cachekv::Error> {
        self.0.last_at_or_before(upper)
    }

    fn last_before(&self, upper: &[u8]) -> Result<Option<(Vec<u8>, Vec<u8>)>, cachekv::Error> {
        self.0.last_before(upper)
    }

    fn last(&self) -> Result<Option<(Vec<u8>, Vec<u8>)>, cachekv::Error> {
        self.0.last()
    }
}

#[test]
fn external_store_binding_drives_the_tables() {
    let db: Db<u64, ExternalStore> = Db::open(ExternalStore(VecStore::new()));
    let mut t: MemTable<u64, String, ExternalStore> = MemTable::new(db).unwrap();
    t.put(&1, "bound from outside".to_string()).unwrap();
    assert_eq!(t.get(&1), Some(&"bound from outside".to_string()));
}
