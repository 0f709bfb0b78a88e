use kamilata::db::Db;
use kamilata::memory_store::MemoryStore;
use kamilata::{KamilataConfig, PeerId};

#[test]
fn seeder_cap() {
    let mut config = KamilataConfig::default();
    config.max_seeders = 2;
    let mut db: Db<4, MemoryStore<4>> = Db::new(config, MemoryStore::new());

    let p1 = PeerId::from_bytes(vec![1]);
    let p2 = PeerId::from_bytes(vec![2]);
    let p3 = PeerId::from_bytes(vec![3]);

    assert!(db.add_seeder(p1).is_ok());
    let p1_again = PeerId::from_bytes(vec![1]);
    assert!(db.add_seeder(p1_again).is_ok());
    assert_eq!(db.seeder_count(), 1);
    assert!(db.add_seeder(p2).is_ok());
    assert_eq!(db.seeder_count(), 2);
    assert!(db.add_seeder(p3).is_err());
    assert_eq!(db.seeder_count(), 2);

    let p1_at_cap = PeerId::from_bytes(vec![1]);
    assert!(db.add_seeder(p1_at_cap).is_err());
    assert_eq!(db.seeder_count(), 2);
}

#[test]
fn leecher_cap() {
    let mut config = KamilataConfig::default();
    config.max_leechers = 1;
    let mut db: Db<4, MemoryStore<4>> = Db::new(config, MemoryStore::new());

    let p1 = PeerId::from_bytes(vec![1]);
    let p2 = PeerId::from_bytes(vec![2]);

    assert!(db.add_leecher(p1).is_ok());
    assert_eq!(db.leecher_count(), 1);
    assert!(db.add_leecher(p2).is_err());
    assert_eq!(db.leecher_count(), 1);
}

#[test]
fn remove_peer_frees_slot() {
    let mut config = KamilataConfig::default();
    config.max_seeders = 1;
    let mut db: Db<4, MemoryStore<4>> = Db::new(config, MemoryStore::new());

    let p1 = PeerId::from_bytes(vec![1]);
    let p2 = PeerId::from_bytes(vec![2]);
    assert!(db.add_seeder(p1).is_ok());
    assert!(db.add_seeder(p2).is_err());

    let p1_key = PeerId::from_bytes(vec![1]);
    db.remove_peer(&p1_key);
    assert_eq!(db.seeder_count(), 0);

    let p2_again = PeerId::from_bytes(vec![2]);
    assert!(db.add_seeder(p2_again).is_ok());
    assert_eq!(db.seeder_count(), 1);
}
