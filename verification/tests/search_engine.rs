use kamilata::control::{SearchConfig, SearchPriority};
use kamilata::search::{pop_best, ProviderInfo};
use kamilata::FixedSearchPriority;
use kamilata::db::Db;
use kamilata::memory_store::{MemoryDoc, MemoryStore};
use kamilata::packets::{LocalMatch, ResultsPacket};
use kamilata::search::run_search;
use kamilata::store::{SearchResult, Store};
use kamilata::{KamilataConfig, PeerId, SearchQueries};

fn movie(cid: &str, words: &[&str]) -> MemoryDoc {
    MemoryDoc {
        cid: cid.as_bytes().to_vec(),
        words: words.iter().map(|w| w.to_string()).collect(),
    }
}

#[test]
fn local_only_match() {
    let mut store: MemoryStore<16> = MemoryStore::new();
    store.insert_document(movie("V for Vendetta", &["freedom", "fighter", "mask"]));
    store.insert_document(movie("Other", &["unrelated", "words"]));
    let db: Db<16, MemoryStore<16>> = Db::new(KamilataConfig::default(), store);
    let our = PeerId::from_bytes(vec![9]);
    let queries = SearchQueries::from_raw_text("freedom fighter");
    let config = SearchConfig::new(SearchPriority::speed(), 10, 1_000);
    let oracle: Vec<(PeerId, ResultsPacket)> = Vec::new();

    let r = run_search(&db, &our, &queries, config, &oracle);
    assert_eq!(r.hits.len(), 1);
    assert_eq!(r.hits[0].0.cid, b"V for Vendetta".to_vec());
    assert_eq!(r.hits[0].1, 0);
    assert_eq!(r.hits[0].2.bytes, vec![9]);
    assert_eq!(r.queried_peers, 0);
    assert_eq!(r.final_peers, 0);
}

#[test]
fn two_node_dial() {
    // Node A holds the document; node B holds A's filter stack and
    // queries A through the response oracle.
    let mut store_a: MemoryStore<32> = MemoryStore::new();
    let doc = movie("The Hunger Games", &["Hunger", "Games", "dystopia"]);
    store_a.insert_document(doc);
    let filter_a = store_a.get_filter();

    let store_b: MemoryStore<32> = MemoryStore::new();
    let mut db_b: Db<32, MemoryStore<32>> = Db::new(KamilataConfig::default(), store_b);
    let peer_a = PeerId::from_bytes(vec![1]);
    assert!(db_b.add_seeder(peer_a).is_ok());
    db_b.set_remote_filter(PeerId::from_bytes(vec![1]), vec![filter_a]);

    let answer = ResultsPacket {
        distant_matches: Vec::new(),
        matches: vec![
            LocalMatch {
                query: 0,
                result: movie("The Hunger Games", &["Hunger", "Games", "dystopia"]).into_bytes(),
            },
        ],
    };
    let oracle = vec![(PeerId::from_bytes(vec![1]), answer)];

    let our = PeerId::from_bytes(vec![2]);
    let queries = SearchQueries::from_raw_text("Hunger");
    let config = SearchConfig::new(SearchPriority::speed(), 10, 1_000);
    let r = run_search(&db_b, &our, &queries, config, &oracle);

    assert_eq!(r.queried_peers, 1);
    assert_eq!(r.final_peers, 1);
    assert_eq!(r.hits.len(), 1);
    assert_eq!(r.hits[0].0.cid, b"The Hunger Games".to_vec());
    assert_eq!(r.hits[0].2.bytes, vec![1]);
}

#[test]
fn unresponsive_peer_counts_queried_only() {
    let mut store_a: MemoryStore<32> = MemoryStore::new();
    store_a.insert_document(movie("Silent", &["quiet", "movie"]));
    let filter_a = store_a.get_filter();

    let store_b: MemoryStore<32> = MemoryStore::new();
    let mut db_b: Db<32, MemoryStore<32>> = Db::new(KamilataConfig::default(), store_b);
    assert!(db_b.add_seeder(PeerId::from_bytes(vec![7])).is_ok());
    db_b.set_remote_filter(PeerId::from_bytes(vec![7]), vec![filter_a]);

    let our = PeerId::from_bytes(vec![2]);
    let queries = SearchQueries::from_raw_text("quiet movie");
    let config = SearchConfig::new(SearchPriority::speed(), 10, 1_000);
    let oracle: Vec<(PeerId, ResultsPacket)> = Vec::new();
    let r = run_search(&db_b, &our, &queries, config, &oracle);

    assert_eq!(r.queried_peers, 1);
    assert_eq!(r.final_peers, 0);
    assert!(r.hits.is_empty());
}

#[test]
fn priority_ordering() {
    // Provider 1 matches query 1 at distance 1; provider 2 matches
    // query 0 at distance 2. Speed prefers the smaller distance,
    // relevance the earlier query.
    let make = |id: u8, queries: Vec<Option<usize>>| ProviderInfo {
        peer_id: PeerId::from_bytes(vec![id]),
        queries,
        addresses: Vec::new(),
    };
    let mut frontier = vec![make(1, vec![None, Some(1)]), make(2, vec![Some(2), None])];
    let best = pop_best(&mut frontier, FixedSearchPriority::Speed).expect("frontier not empty");
    assert_eq!(best.peer_id.bytes, vec![1]);

    let mut frontier = vec![make(1, vec![None, Some(1)]), make(2, vec![Some(2), None])];
    let best = pop_best(&mut frontier, FixedSearchPriority::Relevance).expect(
        "frontier not empty",
    );
    assert_eq!(best.peer_id.bytes, vec![2]);
}

#[test]
fn cross_peer_deduplication() {
    // Our own store and the remote peer hold the same document; it is
    // emitted once, from the local scan.
    let mut store: MemoryStore<32> = MemoryStore::new();
    store.insert_document(movie("Twin", &["shared", "plot"]));
    let filter_remote = {
        let mut s: MemoryStore<32> = MemoryStore::new();
        s.insert_document(movie("Twin", &["shared", "plot"]));
        s.get_filter()
    };
    let mut db: Db<32, MemoryStore<32>> = Db::new(KamilataConfig::default(), store);
    assert!(db.add_seeder(PeerId::from_bytes(vec![5])).is_ok());
    db.set_remote_filter(PeerId::from_bytes(vec![5]), vec![filter_remote]);

    let answer = ResultsPacket {
        distant_matches: Vec::new(),
        matches: vec![
            LocalMatch { query: 0, result: movie("Twin", &["shared", "plot"]).into_bytes() },
        ],
    };
    let oracle = vec![(PeerId::from_bytes(vec![5]), answer)];

    let our = PeerId::from_bytes(vec![2]);
    let queries = SearchQueries::from_raw_text("shared plot");
    let config = SearchConfig::new(SearchPriority::speed(), 10, 1_000);
    let r = run_search(&db, &our, &queries, config, &oracle);

    assert_eq!(r.hits.len(), 1);
    assert_eq!(r.hits[0].2.bytes, vec![2]);
    assert_eq!(r.queried_peers, 1);
    assert_eq!(r.final_peers, 1);
}
