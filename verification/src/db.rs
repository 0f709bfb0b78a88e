//! The routing database: the node's mutable shared state. It keeps
//! the configuration, the application store, the filter stacks
//! received from seeders, the set of leechers, and the known
//! addresses of peers — with the admission caps enforced at all
//! times.

use vstd::prelude::*;
use crate::config::KamilataConfig;
use crate::filter::{bits_of_bytes, or_bits, Filter};
use crate::peer::{bytes_eq, clone_bytes, contains_peer, contains_string, clone_strings, peer_eq, PeerId};
use crate::store::Store;

verus! {

/// Error returned when a peer asks to seed filters to us but the
/// seeder cap is reached.
#[derive(Clone, Copy, Debug)]
pub struct TooManySeeders {}

/// Error returned when a peer asks to leech our filters but the
/// leecher cap is reached.
#[derive(Clone, Copy, Debug)]
pub struct TooManyOutRoutingPeers {}

/// The peer ids of a list, in order.
pub open spec fn peer_ids(s: Seq<PeerId>) -> Seq<Seq<u8>> {
    s.map_values(|p: PeerId| p@)
}

/// True when no peer id repeats.
pub open spec fn distinct_peers(s: Seq<PeerId>) -> bool {
    forall|i: int, j: int| 0 <= i < j < s.len() ==> s[i]@ != s[j]@
}

/// True when no key repeats among the pairs.
pub open spec fn distinct_keys<X>(s: Seq<(PeerId, X)>) -> bool {
    forall|i: int, j: int| 0 <= i < j < s.len() ==> s[i].0@ != s[j].0@
}

/// True when some pair carries the key.
pub open spec fn has_key<X>(s: Seq<(PeerId, X)>, key: Seq<u8>) -> bool {
    exists|i: int| 0 <= i < s.len() && (#[trigger] s[i]).0@ == key
}

/// The pairs whose key differs from `key`, in order.
pub open spec fn drop_key<X>(s: Seq<(PeerId, X)>, key: Seq<u8>) -> Seq<(PeerId, X)> {
    s.filter(|e: (PeerId, X)| e.0@ != key)
}

/// The peers whose id differs from `key`, in order.
pub open spec fn drop_peer(s: Seq<PeerId>, key: Seq<u8>) -> Seq<PeerId> {
    s.filter(|p: PeerId| p@ != key)
}

/// A filtered sequence whose predicate holds everywhere is the
/// sequence itself.
proof fn lemma_filter_all<T>(s: Seq<T>, pred: spec_fn(T) -> bool)
    requires
        forall|i: int| 0 <= i < s.len() ==> pred(#[trigger] s[i]),
    ensures
        s.filter(pred) == s,
    decreases s.len(),
{
    reveal(Seq::filter);
    if s.len() > 0 {
        lemma_filter_all(s.drop_last(), pred);
        assert(s.drop_last().push(s.last()) =~= s);
    }
}

/// What survives dropping a peer id from a peer list: everything with
/// another id, nothing with that id, all drawn from the original.
pub(crate) proof fn lemma_drop_peer_props(s: Seq<PeerId>, key: Seq<u8>)
    ensures
        drop_peer(s, key).len() <= s.len(),
        forall|i: int|
            0 <= i < drop_peer(s, key).len() ==> s.contains(#[trigger] drop_peer(s, key)[i])
                && drop_peer(s, key)[i]@ != key,
        forall|p: PeerId| s.contains(p) && p@ != key ==> drop_peer(s, key).contains(p),
    decreases s.len(),
{
    reveal(Seq::filter);
    let pred = |p: PeerId| p@ != key;
    if s.len() == 0 {
        assert(s.filter(pred) =~= Seq::<PeerId>::empty());
    } else {
        let dl = s.drop_last();
        lemma_drop_peer_props(dl, key);
        assert forall|i: int|
            0 <= i < drop_peer(s, key).len() implies s.contains(#[trigger] drop_peer(s, key)[i])
            && drop_peer(s, key)[i]@ != key by {
            if pred(s.last()) && i == drop_peer(s, key).len() - 1 {
                assert(drop_peer(s, key)[i] == s.last());
                assert(s[s.len() - 1] == s.last());
            } else {
                assert(drop_peer(s, key)[i] == drop_peer(dl, key)[i]);
                assert(dl.contains(drop_peer(dl, key)[i]));
                let j = choose|j: int| 0 <= j < dl.len() && dl[j] == drop_peer(dl, key)[i];
                assert(s[j] == dl[j]);
            }
        }
        assert forall|p: PeerId| s.contains(p) && p@ != key implies drop_peer(s, key).contains(
            p,
        ) by {
            let j = choose|j: int| 0 <= j < s.len() && s[j] == p;
            if j == s.len() - 1 {
                assert(drop_peer(s, key) == drop_peer(dl, key).push(s.last()));
                assert(drop_peer(s, key)[drop_peer(s, key).len() - 1] == p);
            } else {
                assert(dl[j] == p);
                assert(dl.contains(p));
                assert(drop_peer(dl, key).contains(p));
                let t = choose|t: int|
                    0 <= t < drop_peer(dl, key).len() && drop_peer(dl, key)[t] == p;
                assert(drop_peer(s, key)[t] == p);
            }
        }
    }
}

/// What survives dropping a key from a keyed table: everything with
/// another key, nothing with that key, all drawn from the original.
pub(crate) proof fn lemma_drop_key_props<X>(s: Seq<(PeerId, X)>, key: Seq<u8>)
    ensures
        drop_key(s, key).len() <= s.len(),
        forall|i: int|
            0 <= i < drop_key(s, key).len() ==> s.contains(#[trigger] drop_key(s, key)[i])
                && drop_key(s, key)[i].0@ != key,
    decreases s.len(),
{
    reveal(Seq::filter);
    let pred = |e: (PeerId, X)| e.0@ != key;
    if s.len() == 0 {
        assert(s.filter(pred) =~= Seq::<(PeerId, X)>::empty());
    } else {
        let dl = s.drop_last();
        lemma_drop_key_props::<X>(dl, key);
        assert forall|i: int|
            0 <= i < drop_key(s, key).len() implies s.contains(#[trigger] drop_key(s, key)[i])
            && drop_key(s, key)[i].0@ != key by {
            if pred(s.last()) && i == drop_key(s, key).len() - 1 {
                assert(drop_key(s, key)[i] == s.last());
                assert(s[s.len() - 1] == s.last());
            } else {
                assert(drop_key(s, key)[i] == drop_key(dl, key)[i]);
                assert(dl.contains(drop_key(dl, key)[i]));
                let j = choose|j: int| 0 <= j < dl.len() && dl[j] == drop_key(dl, key)[i];
                assert(s[j] == dl[j]);
            }
        }
    }
}

/// The index of the pair carrying `key`, if any.
fn find_key<X>(v: &Vec<(PeerId, X)>, key: &PeerId) -> (r: Option<usize>)
    ensures
        r matches Some(i) ==> i < v@.len() && v@[i as int].0@ == key@,
        r is None ==> forall|i: int| 0 <= i < v@.len() ==> (#[trigger] v@[i]).0@ != key@,
{
    let mut i: usize = 0;
    while i < v.len()
        invariant
            i <= v@.len(),
            forall|j: int| 0 <= j < i ==> (#[trigger] v@[j]).0@ != key@,
        decreases v@.len() - i,
    {
        if peer_eq(&v[i].0, key) {
            return Some(i);
        }
        i += 1;
    }
    None
}

/// The index of the peer with the given id, if any.
fn find_peer(v: &Vec<PeerId>, key: &PeerId) -> (r: Option<usize>)
    ensures
        r matches Some(i) ==> i < v@.len() && v@[i as int]@ == key@,
        r is None ==> forall|i: int| 0 <= i < v@.len() ==> (#[trigger] v@[i])@ != key@,
{
    let mut i: usize = 0;
    while i < v.len()
        invariant
            i <= v@.len(),
            forall|j: int| 0 <= j < i ==> (#[trigger] v@[j])@ != key@,
        decreases v@.len() - i,
    {
        if peer_eq(&v[i], key) {
            return Some(i);
        }
        i += 1;
    }
    None
}

/// Removes the pair carrying `key`, if any; the rest keep their
/// order.
fn remove_key_entry<X>(v: &mut Vec<(PeerId, X)>, key: &PeerId)
    requires
        distinct_keys(old(v)@),
    ensures
        final(v)@ == drop_key(old(v)@, key@),
        distinct_keys(final(v)@),
{
    match find_key(v, key) {
        None => {
            proof {
                reveal(Seq::filter);
                lemma_filter_all(v@, |e: (PeerId, X)| e.0@ != key@);
            }
        },
        Some(i) => {
            v.remove(i);
            proof {
                reveal(Seq::filter);
                let olds = old(v)@;
                let a = olds.subrange(0, i as int);
                let mid = olds.subrange(i as int, i + 1);
                let b = olds.subrange(i + 1, olds.len() as int);
                let pred = |e: (PeerId, X)| e.0@ != key@;
                assert(olds =~= a + mid + b);
                Seq::filter_distributes_over_add(a + mid, b, pred);
                Seq::filter_distributes_over_add(a, mid, pred);
                assert(mid.len() == 1 && mid.last() == olds[i as int]);
                assert(!pred(mid.last()));
                assert(mid.drop_last() =~= Seq::<(PeerId, X)>::empty());
                assert(mid.drop_last().filter(pred) =~= Seq::<(PeerId, X)>::empty());
                assert(mid.filter(pred) =~= Seq::<(PeerId, X)>::empty());
                assert forall|j: int| 0 <= j < a.len() implies pred(#[trigger] a[j]) by {
                    assert(a[j] == olds[j]);
                }
                assert forall|j: int| 0 <= j < b.len() implies pred(#[trigger] b[j]) by {
                    assert(b[j] == olds[i + 1 + j]);
                }
                lemma_filter_all(a, pred);
                lemma_filter_all(b, pred);
                assert(olds.filter(pred) == (a + mid).filter(pred) + b.filter(pred));
                assert((a + mid).filter(pred) =~= a);
                assert(v@ =~= a + b);
                assert(olds.filter(pred) =~= a + b);
                assert forall|x: int, y: int| 0 <= x < y < v@.len() implies v@[x].0@ != v@[y].0@ by {
                    let ox = if x < i { x } else { x + 1 };
                    let oy = if y < i { y } else { y + 1 };
                    assert(v@[x] == olds[ox] && v@[y] == olds[oy]);
                }
            }
        },
    }
}

/// Removes the peer carrying `key`, if any; the rest keep their
/// order.
pub(crate) fn remove_peer_entry(v: &mut Vec<PeerId>, key: &PeerId)
    requires
        distinct_peers(old(v)@),
    ensures
        final(v)@ == drop_peer(old(v)@, key@),
        distinct_peers(final(v)@),
{
    match find_peer(v, key) {
        None => {
            proof {
                reveal(Seq::filter);
                lemma_filter_all(v@, |p: PeerId| p@ != key@);
            }
        },
        Some(i) => {
            v.remove(i);
            proof {
                reveal(Seq::filter);
                let olds = old(v)@;
                let a = olds.subrange(0, i as int);
                let mid = olds.subrange(i as int, i + 1);
                let b = olds.subrange(i + 1, olds.len() as int);
                let pred = |p: PeerId| p@ != key@;
                assert(olds =~= a + mid + b);
                Seq::filter_distributes_over_add(a + mid, b, pred);
                Seq::filter_distributes_over_add(a, mid, pred);
                assert(mid.len() == 1 && mid.last() == olds[i as int]);
                assert(!pred(mid.last()));
                assert(mid.drop_last() =~= Seq::<PeerId>::empty());
                assert(mid.drop_last().filter(pred) =~= Seq::<PeerId>::empty());
                assert(mid.filter(pred) =~= Seq::<PeerId>::empty());
                assert forall|j: int| 0 <= j < a.len() implies pred(#[trigger] a[j]) by {
                    assert(a[j] == olds[j]);
                }
                assert forall|j: int| 0 <= j < b.len() implies pred(#[trigger] b[j]) by {
                    assert(b[j] == olds[i + 1 + j]);
                }
                lemma_filter_all(a, pred);
                lemma_filter_all(b, pred);
                assert(olds.filter(pred) == (a + mid).filter(pred) + b.filter(pred));
                assert((a + mid).filter(pred) =~= a);
                assert(v@ =~= a + b);
                assert(olds.filter(pred) =~= a + b);
                assert forall|x: int, y: int| 0 <= x < y < v@.len() implies v@[x]@ != v@[y]@ by {
                    let ox = if x < i { x } else { x + 1 };
                    let oy = if y < i { y } else { y + 1 };
                    assert(v@[x] == olds[ox] && v@[y] == olds[oy]);
                }
            }
        },
    }
}

/// The node's routing database.
pub struct Db<const N: usize, S: Store<N>> {
    /// The node's configuration.
    pub config: KamilataConfig,
    /// The application-supplied document store.
    pub store: S,
    /// Peers that send us their filters.
    pub seeders: Vec<PeerId>,
    /// Peers we send our filters to.
    pub leechers: Vec<PeerId>,
    /// The last filter stack received from each seeder.
    pub filters: Vec<(PeerId, Vec<Filter<N>>)>,
    /// Known addresses of peers, best first.
    pub addresses: Vec<(PeerId, Vec<String>)>,
}

impl<const N: usize, S: Store<N>> Db<N, S> {
    /// The database invariant: caps respected, no duplicate entries,
    /// every stored stack well sized, stacks only from seeders.
    pub open spec fn wf(&self) -> bool {
        &&& 1 <= N <= usize::MAX / 8
        &&& self.config.wf()
        &&& self.store.inv()
        &&& distinct_peers(self.seeders@)
        &&& distinct_peers(self.leechers@)
        &&& distinct_keys(self.filters@)
        &&& distinct_keys(self.addresses@)
        &&& self.seeders@.len() <= self.config.max_seeders
        &&& self.leechers@.len() <= self.config.max_leechers
        &&& forall|i: int|
            0 <= i < self.filters@.len() ==> peer_ids(self.seeders@).contains(
                (#[trigger] self.filters@[i]).0@,
            )
        &&& forall|i: int|
            0 <= i < self.filters@.len() ==> (#[trigger] self.filters@[i]).1@.len()
                <= self.config.filter_count
        &&& forall|i: int, l: int|
            0 <= i < self.filters@.len() && 0 <= l < self.filters@[i].1@.len() ==> (
            #[trigger] self.filters@[i].1@[l]).wf()
    }

    /// A fresh database under the given configuration and store.
    pub fn new(config: KamilataConfig, store: S) -> (r: Self)
        requires
            1 <= N <= usize::MAX / 8,
            config.wf(),
            store.inv(),
        ensures
            r.wf(),
            r.config == config,
            r.store == store,
            r.seeders@.len() == 0,
            r.leechers@.len() == 0,
            r.filters@.len() == 0,
            r.addresses@.len() == 0,
    {
        Db {
            config,
            store,
            seeders: Vec::new(),
            leechers: Vec::new(),
            filters: Vec::new(),
            addresses: Vec::new(),
        }
    }

    /// The current configuration.
    pub fn get_config(&self) -> (r: KamilataConfig)
        ensures
            r == self.config,
    {
        self.config
    }

    /// Replaces the configuration. The invariant survives when the new
    /// caps still cover the current membership.
    pub fn set_config(&mut self, config: KamilataConfig)
        ensures
            final(self).config == config,
            final(self).store == old(self).store,
            final(self).seeders == old(self).seeders,
            final(self).leechers == old(self).leechers,
            final(self).filters == old(self).filters,
            final(self).addresses == old(self).addresses,
            old(self).wf() && config.wf() && old(self).seeders@.len() <= config.max_seeders && old(
                self,
            ).leechers@.len() <= config.max_leechers && (forall|i: int|
                0 <= i < old(self).filters@.len() ==> (#[trigger] old(self).filters@[i]).1@.len()
                    <= config.filter_count) ==> final(self).wf(),
    {
        self.config = config;
    }

    /// A reference to the application store.
    pub fn store(&self) -> (r: &S)
        ensures
            r == &self.store,
    {
        &self.store
    }

    /// How many peers currently seed filters to us.
    pub fn seeder_count(&self) -> (r: usize)
        ensures
            r == self.seeders@.len(),
    {
        self.seeders.len()
    }

    /// How many peers we currently send filters to.
    pub fn leecher_count(&self) -> (r: usize)
        ensures
            r == self.leechers@.len(),
    {
        self.leechers.len()
    }

    /// Admits a peer as a seeder: succeeds exactly when the cap still
    /// has room, whether or not the peer already seeds.
    pub fn add_seeder(&mut self, peer: PeerId) -> (r: Result<(), TooManySeeders>)
        requires
            old(self).wf(),
        ensures
            final(self).wf(),
            final(self).config == old(self).config,
            final(self).store == old(self).store,
            final(self).leechers == old(self).leechers,
            final(self).filters == old(self).filters,
            final(self).addresses == old(self).addresses,
            r is Ok <==> old(self).seeders@.len() < old(self).config.max_seeders,
            r is Ok && peer_ids(old(self).seeders@).contains(peer@) ==> final(self).seeders
                == old(self).seeders,
            r is Ok && !peer_ids(old(self).seeders@).contains(peer@) ==> final(self).seeders@
                == old(self).seeders@.push(peer),
            r is Err ==> final(self).seeders == old(self).seeders,
            r is Ok ==> peer_ids(final(self).seeders@).contains(peer@),
    {
        if self.seeders.len() >= self.config.max_seeders {
            return Err(TooManySeeders {  });
        }
        proof {
            assert(peer_ids(self.seeders@).len() == self.seeders@.len());
            assert forall|i: int| 0 <= i < self.seeders@.len() implies #[trigger] peer_ids(
                self.seeders@,
            )[i] == self.seeders@[i]@ by {}
        }
        if contains_peer(&self.seeders, &peer) {
            proof {
                let i = choose|i: int|
                    0 <= i < self.seeders.deep_view().len() && self.seeders.deep_view()[i] == peer@;
                assert(peer_ids(self.seeders@)[i] == peer@);
            }
            return Ok(());
        }
        proof {
            if peer_ids(self.seeders@).contains(peer@) {
                let i = choose|i: int|
                    0 <= i < peer_ids(self.seeders@).len() && peer_ids(self.seeders@)[i] == peer@;
                assert(self.seeders.deep_view()[i] == peer@);
            }
        }
        if self.seeders.len() < self.config.max_seeders {
            let ghost olds = self.seeders@;
            self.seeders.push(peer);
            proof {
                assert forall|i: int, j: int|
                    0 <= i < j < self.seeders@.len() implies self.seeders@[i]@
                    != self.seeders@[j]@ by {
                    if j == self.seeders@.len() - 1 {
                        assert(self.seeders.deep_view()[i] != peer@) by {
                            if olds[i]@ == peer@ {
                                assert(peer_ids(olds)[i] == peer@);
                            }
                        }
                    }
                }
                assert(peer_ids(self.seeders@)[self.seeders@.len() - 1] == peer@);
                assert forall|i: int| 0 <= i < self.filters@.len() implies peer_ids(
                    self.seeders@,
                ).contains((#[trigger] self.filters@[i]).0@) by {
                    let k = choose|k: int|
                        0 <= k < peer_ids(olds).len() && peer_ids(olds)[k] == self.filters@[i].0@;
                    assert(peer_ids(self.seeders@)[k] == self.filters@[i].0@);
                }
            }
            Ok(())
        } else {
            Err(TooManySeeders {  })
        }
    }

    /// Admits a peer as a leecher: succeeds exactly when the cap still
    /// has room, whether or not the peer already leeches.
    pub fn add_leecher(&mut self, peer: PeerId) -> (r: Result<(), TooManyOutRoutingPeers>)
        requires
            old(self).wf(),
        ensures
            final(self).wf(),
            final(self).config == old(self).config,
            final(self).store == old(self).store,
            final(self).seeders == old(self).seeders,
            final(self).filters == old(self).filters,
            final(self).addresses == old(self).addresses,
            r is Ok <==> old(self).leechers@.len() < old(self).config.max_leechers,
            r is Ok && peer_ids(old(self).leechers@).contains(peer@) ==> final(self).leechers
                == old(self).leechers,
            r is Ok && !peer_ids(old(self).leechers@).contains(peer@) ==> final(self).leechers@
                == old(self).leechers@.push(peer),
            r is Err ==> final(self).leechers == old(self).leechers,
            r is Ok ==> peer_ids(final(self).leechers@).contains(peer@),
    {
        if self.leechers.len() >= self.config.max_leechers {
            return Err(TooManyOutRoutingPeers {  });
        }
        proof {
            assert forall|i: int| 0 <= i < self.leechers@.len() implies #[trigger] peer_ids(
                self.leechers@,
            )[i] == self.leechers@[i]@ by {}
        }
        if contains_peer(&self.leechers, &peer) {
            proof {
                let i = choose|i: int|
                    0 <= i < self.leechers.deep_view().len() && self.leechers.deep_view()[i]
                        == peer@;
                assert(peer_ids(self.leechers@)[i] == peer@);
            }
            return Ok(());
        }
        proof {
            if peer_ids(self.leechers@).contains(peer@) {
                let i = choose|i: int|
                    0 <= i < peer_ids(self.leechers@).len() && peer_ids(self.leechers@)[i]
                        == peer@;
                assert(self.leechers.deep_view()[i] == peer@);
            }
        }
        if self.leechers.len() < self.config.max_leechers {
            let ghost olds = self.leechers@;
            self.leechers.push(peer);
            proof {
                assert forall|i: int, j: int|
                    0 <= i < j < self.leechers@.len() implies self.leechers@[i]@
                    != self.leechers@[j]@ by {
                    if j == self.leechers@.len() - 1 {
                        assert(self.leechers.deep_view()[i] != peer@) by {
                            if olds[i]@ == peer@ {
                                assert(peer_ids(olds)[i] == peer@);
                            }
                        }
                    }
                }
                assert(peer_ids(self.leechers@)[self.leechers@.len() - 1] == peer@);
            }
            Ok(())
        } else {
            Err(TooManyOutRoutingPeers {  })
        }
    }

    /// Forgets a peer entirely: its seeder and leecher slots, its
    /// filter stack and its addresses.
    pub fn remove_peer(&mut self, peer: &PeerId)
        requires
            old(self).wf(),
        ensures
            final(self).wf(),
            final(self).config == old(self).config,
            final(self).store == old(self).store,
            final(self).seeders@ == drop_peer(old(self).seeders@, peer@),
            final(self).leechers@ == drop_peer(old(self).leechers@, peer@),
            final(self).filters@ == drop_key(old(self).filters@, peer@),
            final(self).addresses@ == drop_key(old(self).addresses@, peer@),
            !peer_ids(final(self).seeders@).contains(peer@),
            !has_key(final(self).filters@, peer@),
    {
        remove_peer_entry(&mut self.seeders, peer);
        remove_peer_entry(&mut self.leechers, peer);
        remove_key_entry(&mut self.filters, peer);
        remove_key_entry(&mut self.addresses, peer);
        proof {
            lemma_drop_peer_props(old(self).seeders@, peer@);
            lemma_drop_peer_props(old(self).leechers@, peer@);
            lemma_drop_key_props::<Vec<Filter<N>>>(old(self).filters@, peer@);
            lemma_drop_key_props::<Vec<String>>(old(self).addresses@, peer@);
            if peer_ids(self.seeders@).contains(peer@) {
                let i = choose|i: int|
                    0 <= i < peer_ids(self.seeders@).len() && peer_ids(self.seeders@)[i] == peer@;
                assert(self.seeders@[i]@ == peer@);
            }
            if has_key(self.filters@, peer@) {
                let i = choose|i: int|
                    0 <= i < self.filters@.len() && (#[trigger] self.filters@[i]).0@ == peer@;
            }
            assert forall|i: int| 0 <= i < self.filters@.len() implies peer_ids(
                self.seeders@,
            ).contains((#[trigger] self.filters@[i]).0@) && self.filters@[i].1@.len()
                <= self.config.filter_count by {
                assert(old(self).filters@.contains(self.filters@[i]));
                let j = choose|j: int|
                    0 <= j < old(self).filters@.len() && old(self).filters@[j] == self.filters@[i];
                assert(peer_ids(old(self).seeders@).contains(old(self).filters@[j].0@));
                let k = choose|k: int|
                    0 <= k < peer_ids(old(self).seeders@).len() && peer_ids(old(self).seeders@)[k]
                        == old(self).filters@[j].0@;
                assert(old(self).seeders@[k]@ == self.filters@[i].0@);
                let sp = old(self).seeders@[k];
                assert(old(self).seeders@.contains(sp));
                assert(sp@ != peer@);
                assert(self.seeders@.contains(sp));
                let t = choose|t: int| 0 <= t < self.seeders@.len() && self.seeders@[t] == sp;
                assert(peer_ids(self.seeders@)[t] == self.filters@[i].0@);
            }
            assert forall|i: int, l: int|
                0 <= i < self.filters@.len() && 0 <= l < self.filters@[i].1@.len() implies (
            #[trigger] self.filters@[i].1@[l]).wf() by {
                assert(old(self).filters@.contains(self.filters@[i]));
                let j = choose|j: int|
                    0 <= j < old(self).filters@.len() && old(self).filters@[j] == self.filters@[i];
                assert(old(self).filters@[j].1@[l].wf());
            }
        }
    }

    /// Stores the filter stack a seeder sent us, truncated to the
    /// configured level cap; only admitted seeders may store one.
    pub fn set_remote_filter(&mut self, peer: PeerId, filters: Vec<Filter<N>>)
        requires
            old(self).wf(),
            peer_ids(old(self).seeders@).contains(peer@),
            forall|l: int| 0 <= l < filters@.len() ==> (#[trigger] filters@[l]).wf(),
        ensures
            final(self).wf(),
            final(self).config == old(self).config,
            final(self).store == old(self).store,
            final(self).seeders == old(self).seeders,
            final(self).leechers == old(self).leechers,
            final(self).addresses == old(self).addresses,
            has_key(final(self).filters@, peer@),
            final(self).filters@.len() == drop_key(old(self).filters@, peer@).len() + 1,
            final(self).filters@.drop_last() == drop_key(old(self).filters@, peer@),
            final(self).filters@.last().0 == peer,
            final(self).filters@.last().1@ == filters_truncated(
                filters@,
                old(self).config.filter_count,
            ),
    {
        let mut filters = filters;
        let ghost orig = filters@;
        if filters.len() > self.config.filter_count {
            filters.truncate(self.config.filter_count);
        }
        proof {
            assert(filters@ =~= filters_truncated(orig, self.config.filter_count));
        }
        remove_key_entry(&mut self.filters, &peer);
        let ghost dropped = self.filters@;
        self.filters.push((peer, filters));
        proof {
            lemma_drop_key_props::<Vec<Filter<N>>>(old(self).filters@, peer@);
            assert(self.filters@[self.filters@.len() - 1].0@ == peer@);
            assert(has_key(self.filters@, peer@));
            assert(self.filters@.drop_last() =~= dropped);
            assert forall|i: int, j: int|
                0 <= i < j < self.filters@.len() implies self.filters@[i].0@
                != self.filters@[j].0@ by {
                if j == self.filters@.len() - 1 {
                    assert(self.filters@[i] == dropped[i]);
                    assert(dropped[i].0@ != peer@);
                }
            }
            assert forall|i: int| 0 <= i < self.filters@.len() implies peer_ids(
                self.seeders@,
            ).contains((#[trigger] self.filters@[i]).0@) && self.filters@[i].1@.len()
                <= self.config.filter_count by {
                if i < self.filters@.len() - 1 {
                    assert(self.filters@[i] == dropped[i]);
                    assert(old(self).filters@.contains(dropped[i]));
                    let j = choose|j: int|
                        0 <= j < old(self).filters@.len() && old(self).filters@[j] == dropped[i];
                    assert(peer_ids(old(self).seeders@).contains(old(self).filters@[j].0@));
                }
            }
            assert forall|i: int, l: int|
                0 <= i < self.filters@.len() && 0 <= l < self.filters@[i].1@.len() implies (
            #[trigger] self.filters@[i].1@[l]).wf() by {
                if i < self.filters@.len() - 1 {
                    assert(self.filters@[i] == dropped[i]);
                    assert(old(self).filters@.contains(dropped[i]));
                    let j = choose|j: int|
                        0 <= j < old(self).filters@.len() && old(self).filters@[j] == dropped[i];
                    assert(old(self).filters@[j].1@[l].wf());
                }
            }
        }
    }
}


/// The address list recorded for `key`, empty when none is.
pub open spec fn addrs_of(s: Seq<(PeerId, Vec<String>)>, key: Seq<u8>) -> Seq<Seq<char>> {
    if has_key(s, key) {
        let i = choose|i: int| 0 <= i < s.len() && (#[trigger] s[i]).0@ == key;
        s[i].1.deep_view()
    } else {
        Seq::empty()
    }
}

/// True when a contributor exists at `level`: a seeder outside
/// `ignore` whose stack reaches level `level - 1`.
pub open spec fn level_present<const N: usize>(
    table: Seq<(PeerId, Vec<Filter<N>>)>,
    ignore: Seq<Seq<u8>>,
    level: int,
) -> bool {
    exists|i: int|
        0 <= i < table.len() && !ignore.contains((#[trigger] table[i]).0@) && level - 1
            < table[i].1@.len()
}

/// True when some contributor at `level` has bit `b` set at level
/// `level - 1` of its stack.
pub open spec fn level_covers<const N: usize>(
    table: Seq<(PeerId, Vec<Filter<N>>)>,
    ignore: Seq<Seq<u8>>,
    level: int,
    b: int,
) -> bool {
    exists|i: int|
        0 <= i < table.len() && !ignore.contains((#[trigger] table[i]).0@) && 0 <= level - 1
            < table[i].1@.len() && table[i].1@[level - 1]@[b]
}

/// Law: aggregation is monotone in the seeder table. A table extended
/// by one more stack covers at every level at least the bits the
/// smaller table covered.
pub proof fn lemma_get_filters_monotone<const N: usize>(
    table: Seq<(PeerId, Vec<Filter<N>>)>,
    entry: (PeerId, Vec<Filter<N>>),
    ignore: Seq<Seq<u8>>,
    level: int,
    b: int,
)
    requires
        level_covers(table, ignore, level, b),
    ensures
        level_covers(table.push(entry), ignore, level, b),
{
    let i = choose|i: int|
        0 <= i < table.len() && !ignore.contains((#[trigger] table[i]).0@) && 0 <= level - 1
            < table[i].1@.len() && table[i].1@[level - 1]@[b];
    assert(table.push(entry)[i] == table[i]);
    assert(!ignore.contains((table.push(entry)[i]).0@) && 0 <= level - 1 < table.push(
        entry,
    )[i].1@.len() && table.push(entry)[i].1@[level - 1]@[b]);
}

impl<const N: usize, S: Store<N>> Db<N, S> {
    /// Records an address for a peer. An address already on file is
    /// kept once; a newly verified address may go to the front.
    pub fn insert_address(&mut self, peer: PeerId, addr: String, front: bool)
        requires
            old(self).wf(),
        ensures
            final(self).wf(),
            final(self).config == old(self).config,
            final(self).store == old(self).store,
            final(self).seeders == old(self).seeders,
            final(self).leechers == old(self).leechers,
            final(self).filters == old(self).filters,
            addrs_of(final(self).addresses@, peer@) == ({
                let l = addrs_of(old(self).addresses@, peer@);
                if l.contains(addr@) {
                    l
                } else if front {
                    seq![addr@] + l
                } else {
                    l.push(addr@)
                }
            }),
            forall|k: Seq<u8>|
                k != peer@ ==> addrs_of(final(self).addresses@, k) == addrs_of(
                    old(self).addresses@,
                    k,
                ),
    {
        let ghost olda = self.addresses@;
        let found = find_key(&self.addresses, &peer);
        match found {
            None => {
                proof {
                    if has_key(olda, peer@) {
                        let i = choose|i: int|
                            0 <= i < olda.len() && (#[trigger] olda[i]).0@ == peer@;
                    }
                }
                let mut list: Vec<String> = Vec::new();
                let ghost av = addr@;
                list.push(addr);
                self.addresses.push((peer, list));
                proof {
                    assert(self.addresses@.last().0@ == peer@);
                    assert(has_key(self.addresses@, peer@));
                    assert forall|x: int, y: int|
                        0 <= x < y < self.addresses@.len() implies self.addresses@[x].0@
                        != self.addresses@[y].0@ by {
                        if y == self.addresses@.len() - 1 {
                            if olda[x].0@ == peer@ {
                                assert(has_key(olda, peer@));
                            }
                        }
                    }
                    let i = choose|i: int|
                        0 <= i < self.addresses@.len() && (#[trigger] self.addresses@[i]).0@
                            == peer@;
                    assert(i == self.addresses@.len() - 1);
                    assert(self.addresses@[i].1.deep_view() =~= Seq::<Seq<char>>::empty().push(
                        av,
                    ));
                    assert(addrs_of(olda, peer@) =~= Seq::<Seq<char>>::empty());
                    assert(addrs_of(self.addresses@, peer@) =~= addrs_of(olda, peer@).push(av));
                    assert(seq![av] + addrs_of(olda, peer@) =~= addrs_of(olda, peer@).push(av));
                    assert forall|k: Seq<u8>| k != peer@ implies addrs_of(self.addresses@, k)
                        == addrs_of(olda, k) by {
                        lemma_addrs_other(olda, self.addresses@, k, self.addresses@.len() - 1);
                    }
                }
            },
            Some(i) => {
                let pair = self.addresses.remove(i);
                let (p0, mut list) = pair;
                let ghost lv = list.deep_view();
                let ghost av = addr@;
                let already = contains_string(&list, &addr);
                if !already {
                    if front {
                        list.insert(0, addr);
                        proof {
                            assert(list.deep_view() =~= seq![av] + lv);
                        }
                    } else {
                        list.push(addr);
                        proof {
                            assert(list.deep_view() =~= lv.push(av));
                        }
                    }
                }
                let ghost mid = self.addresses@;
                self.addresses.push((p0, list));
                proof {
                    assert(olda[i as int].0@ == peer@);
                    assert(addrs_of(olda, peer@) == lv) by {
                        assert(has_key(olda, peer@));
                        let t = choose|t: int|
                            0 <= t < olda.len() && (#[trigger] olda[t]).0@ == peer@;
                        assert(t == i);
                    }
                    assert(mid =~= olda.subrange(0, i as int) + olda.subrange(
                        i + 1,
                        olda.len() as int,
                    ));
                    assert forall|x: int| 0 <= x < mid.len() implies (#[trigger] mid[x]).0@
                        != peer@ by {
                        let ox = if x < i { x } else { x + 1 };
                        assert(mid[x] == olda[ox]);
                    }
                    assert forall|x: int, y: int|
                        0 <= x < y < self.addresses@.len() implies self.addresses@[x].0@
                        != self.addresses@[y].0@ by {
                        if y == self.addresses@.len() - 1 {
                            assert(self.addresses@[x] == mid[x]);
                        } else {
                            let ox = if x < i { x } else { x + 1 };
                            let oy = if y < i { y } else { y + 1 };
                            assert(self.addresses@[x] == olda[ox] && self.addresses@[y]
                                == olda[oy]);
                        }
                    }
                    assert(self.addresses@.last().0@ == peer@);
                    assert(has_key(self.addresses@, peer@));
                    let t = choose|t: int|
                        0 <= t < self.addresses@.len() && (#[trigger] self.addresses@[t]).0@
                            == peer@;
                    assert(t == self.addresses@.len() - 1) by {
                        if t < self.addresses@.len() - 1 {
                            assert(self.addresses@[t] == mid[t]);
                        }
                    }
                    assert(addrs_of(self.addresses@, peer@) == list.deep_view());
                    assert forall|k: Seq<u8>| k != peer@ implies addrs_of(self.addresses@, k)
                        == addrs_of(olda, k) by {
                        lemma_addrs_reindex(olda, self.addresses@, k, i as int);
                    }
                }
            },
        }
    }

    /// The addresses we know for a peer, best first.
    pub fn get_addresses(&self, peer: &PeerId) -> (r: Vec<String>)
        requires
            self.wf(),
        ensures
            r.deep_view() == addrs_of(self.addresses@, peer@),
    {
        match find_key(&self.addresses, peer) {
            None => {
                proof {
                    if has_key(self.addresses@, peer@) {
                        let i = choose|i: int|
                            0 <= i < self.addresses@.len() && (#[trigger] self.addresses@[i]).0@
                                == peer@;
                    }
                }
                Vec::new()
            },
            Some(i) => {
                proof {
                    assert(has_key(self.addresses@, peer@));
                    let t = choose|t: int|
                        0 <= t < self.addresses@.len() && (#[trigger] self.addresses@[t]).0@
                            == peer@;
                    assert(t == i);
                }
                clone_strings(&self.addresses[i].1)
            },
        }
    }

    /// Aggregates the filters to send to a peer: level 0 is the
    /// store's own filter; level `k` is the union, over every seeder
    /// outside `ignore`, of that seeder's level `k - 1` filter; the
    /// stack stops at the first empty level or at the configured cap.
    pub fn get_filters(&self, ignore: &Vec<PeerId>) -> (r: Vec<Filter<N>>)
        requires
            self.wf(),
        ensures
            1 <= r@.len() <= self.config.filter_count + 1,
            forall|k: int| 0 <= k < r@.len() ==> (#[trigger] r@[k]).wf(),
            r@[0]@ == self.store.filter_spec(),
            forall|k: int, b: int|
                1 <= k < r@.len() && 0 <= b < 8 * N && (#[trigger] r@[k]@[b]) ==> level_covers(
                    self.filters@,
                    ignore.deep_view(),
                    k,
                    b,
                ),
            forall|k: int, b: int|
                1 <= k < r@.len() && 0 <= b < 8 * N && level_covers(
                    self.filters@,
                    ignore.deep_view(),
                    k,
                    b,
                ) ==> r@[k]@[b],
            forall|k: int|
                1 <= k < r@.len() ==> level_present(self.filters@, ignore.deep_view(), k),
            r@.len() <= self.config.filter_count ==> !level_present(
                self.filters@,
                ignore.deep_view(),
                r@.len() as int,
            ),
    {
        let mut result: Vec<Filter<N>> = Vec::new();
        let f0 = self.store.get_filter();
        result.push(f0);
        let mut level: usize = 1;
        let mut stopped = false;
        while !stopped && level <= self.config.filter_count
            invariant
                self.wf(),
                1 <= level <= self.config.filter_count + 1,
                result@.len() == level,
                forall|k: int| 0 <= k < result@.len() ==> (#[trigger] result@[k]).wf(),
                result@[0]@ == self.store.filter_spec(),
                forall|k: int, b: int|
                    1 <= k < result@.len() && 0 <= b < 8 * N && (#[trigger] result@[k]@[b])
                        ==> level_covers(self.filters@, ignore.deep_view(), k, b),
                forall|k: int, b: int|
                    1 <= k < result@.len() && 0 <= b < 8 * N && level_covers(
                        self.filters@,
                        ignore.deep_view(),
                        k,
                        b,
                    ) ==> result@[k]@[b],
                forall|k: int|
                    1 <= k < result@.len() ==> level_present(
                        self.filters@,
                        ignore.deep_view(),
                        k,
                    ),
                stopped ==> !level_present(self.filters@, ignore.deep_view(), level as int),
            decreases self.config.filter_count + 1 - level + (if stopped {
                0int
            } else {
                1int
            }),
        {
            let mut u = Filter::<N>::new();
            let mut any = false;
            let mut i: usize = 0;
            while i < self.filters.len()
                invariant
                    self.wf(),
                    level >= 1,
                    i <= self.filters@.len(),
                    u.wf(),
                    u@.len() == 8 * N,
                    forall|b: int|
                        0 <= b < 8 * N && (#[trigger] u@[b]) ==> exists|t: int|
                            0 <= t < i && !ignore.deep_view().contains(
                                (#[trigger] self.filters@[t]).0@,
                            ) && level - 1 < self.filters@[t].1@.len()
                                && self.filters@[t].1@[level - 1]@[b],
                    forall|t: int, b: int|
                        0 <= t < i && 0 <= b < 8 * N && !ignore.deep_view().contains(
                            (#[trigger] self.filters@[t]).0@,
                        ) && level - 1 < self.filters@[t].1@.len()
                            && (#[trigger] self.filters@[t].1@[level - 1]@[b]) ==> u@[b],
                    any ==> exists|t: int|
                        0 <= t < i && !ignore.deep_view().contains(
                            (#[trigger] self.filters@[t]).0@,
                        ) && level - 1 < self.filters@[t].1@.len(),
                    !any ==> forall|t: int|
                        0 <= t < i ==> !(!ignore.deep_view().contains(
                            (#[trigger] self.filters@[t]).0@,
                        ) && level - 1 < self.filters@[t].1@.len()),
                decreases self.filters@.len() - i,
            {
                let entry = &self.filters[i];
                let skip_entry = contains_peer(ignore, &entry.0);
                if !skip_entry && entry.1.len() >= level {
                    let ghost ub = u@;
                    u.bitor_assign_ref(&entry.1[level - 1]);
                    any = true;
                    proof {
                        assert forall|b: int| 0 <= b < 8 * N && (#[trigger] u@[b]) implies exists|
                            t: int,
                        |
                            0 <= t < i + 1 && !ignore.deep_view().contains(
                                (#[trigger] self.filters@[t]).0@,
                            ) && level - 1 < self.filters@[t].1@.len()
                                && self.filters@[t].1@[level - 1]@[b] by {
                            if !ub[b] {
                                assert(self.filters@[i as int].1@[level - 1]@[b]);
                                assert(!ignore.deep_view().contains(
                                    self.filters@[i as int].0@,
                                ));
                            }
                        }
                    }
                }
                i += 1;
            }
            if any {
                result.push(u);
                proof {
                    assert forall|k: int, b: int|
                        1 <= k < result@.len() && 0 <= b < 8 * N && (#[trigger] result@[k]@[b])
                        implies level_covers(self.filters@, ignore.deep_view(), k, b) by {
                        if k == result@.len() - 1 {
                            assert(result@[k] == u);
                        }
                    }
                    assert forall|k: int, b: int|
                        1 <= k < result@.len() && 0 <= b < 8 * N && level_covers(
                            self.filters@,
                            ignore.deep_view(),
                            k,
                            b,
                        ) implies result@[k]@[b] by {
                        if k == result@.len() - 1 {
                            let t = choose|t: int|
                                0 <= t < self.filters@.len() && !ignore.deep_view().contains(
                                    (#[trigger] self.filters@[t]).0@,
                                ) && 0 <= k - 1 < self.filters@[t].1@.len()
                                    && self.filters@[t].1@[k - 1]@[b];
                            assert(result@[k] == u);
                        }
                    }
                    assert forall|k: int| 1 <= k < result@.len() implies level_present(
                        self.filters@,
                        ignore.deep_view(),
                        k,
                    ) by {
                        if k == result@.len() - 1 {
                            let t = choose|t: int|
                                0 <= t < self.filters@.len() && !ignore.deep_view().contains(
                                    (#[trigger] self.filters@[t]).0@,
                                ) && level - 1 < self.filters@[t].1@.len();
                        }
                    }
                }
                level += 1;
            } else {
                stopped = true;
                proof {
                    if level_present(self.filters@, ignore.deep_view(), level as int) {
                        let t = choose|t: int|
                            0 <= t < self.filters@.len() && !ignore.deep_view().contains(
                                (#[trigger] self.filters@[t]).0@,
                            ) && level - 1 < self.filters@[t].1@.len();
                    }
                }
            }
        }
        result
    }

    /// The aggregated filters as raw byte buffers, ready for the
    /// wire: buffer `k` serialises level `k` of exactly what
    /// `get_filters` aggregates.
    pub fn get_filters_bytes(&self, ignore: &Vec<PeerId>) -> (r: Vec<Vec<u8>>)
        requires
            self.wf(),
        ensures
            1 <= r@.len() <= self.config.filter_count + 1,
            forall|k: int| 0 <= k < r@.len() ==> (#[trigger] r@[k])@.len() == N,
            bits_of_bytes(r@[0]@) == self.store.filter_spec(),
            forall|k: int, b: int|
                1 <= k < r@.len() && 0 <= b < 8 * N ==> ((#[trigger] bits_of_bytes(r@[k]@)[b])
                    <==> level_covers(self.filters@, ignore.deep_view(), k, b)),
            forall|k: int|
                1 <= k < r@.len() ==> level_present(self.filters@, ignore.deep_view(), k),
            r@.len() <= self.config.filter_count ==> !level_present(
                self.filters@,
                ignore.deep_view(),
                r@.len() as int,
            ),
    {
        let filters = self.get_filters(ignore);
        let mut r: Vec<Vec<u8>> = Vec::new();
        let mut i: usize = 0;
        while i < filters.len()
            invariant
                i <= filters@.len(),
                filters@.len() >= 1,
                forall|k: int| 0 <= k < filters@.len() ==> (#[trigger] filters@[k]).wf(),
                r@.len() == i,
                forall|k: int| 0 <= k < i ==> (#[trigger] r@[k])@ == filters@[k].byte_view(),
                forall|k: int| 0 <= k < i ==> (#[trigger] r@[k])@.len() == N,
            decreases filters@.len() - i,
        {
            r.push(filters[i].to_bytes());
            i += 1;
        }
        proof {
            assert forall|k: int| 0 <= k < r@.len() implies bits_of_bytes(
                (#[trigger] r@[k])@,
            ) == filters@[k]@ by {
                assert(r@[k]@ == filters@[k].byte_view());
            }
            assert forall|k: int, b: int|
                1 <= k < r@.len() && 0 <= b < 8 * N && level_covers(
                    self.filters@,
                    ignore.deep_view(),
                    k,
                    b,
                ) implies #[trigger] bits_of_bytes(r@[k]@)[b] by {
                assert(filters@[k]@[b]);
            }
        }
        r
    }
}

/// Entries other than the changed one keep their recorded addresses:
/// helper for a table that gained one entry at the end.
proof fn lemma_addrs_other(
    olda: Seq<(PeerId, Vec<String>)>,
    newa: Seq<(PeerId, Vec<String>)>,
    k: Seq<u8>,
    added: int,
)
    requires
        newa.len() == olda.len() + 1,
        added == newa.len() - 1,
        forall|x: int| 0 <= x < olda.len() ==> newa[x] == olda[x],
        newa[added].0@ != k,
        distinct_keys(olda),
    ensures
        addrs_of(newa, k) == addrs_of(olda, k),
{
    if has_key(newa, k) {
        let i = choose|i: int| 0 <= i < newa.len() && (#[trigger] newa[i]).0@ == k;
        assert(i != added);
        assert(olda[i].0@ == k);
        assert(has_key(olda, k));
        let j = choose|j: int| 0 <= j < olda.len() && (#[trigger] olda[j]).0@ == k;
        assert(j == i);
        assert(addrs_of(newa, k) == newa[i].1.deep_view());
        assert(addrs_of(olda, k) == olda[j].1.deep_view());
        assert(newa[i] == olda[j]);
    } else {
        if has_key(olda, k) {
            let j = choose|j: int| 0 <= j < olda.len() && (#[trigger] olda[j]).0@ == k;
            assert(newa[j].0@ == k);
        }
    }
}

/// Entries other than the changed one keep their recorded addresses:
/// helper for a table whose entry `i` moved to the end with a new
/// list.
proof fn lemma_addrs_reindex(
    olda: Seq<(PeerId, Vec<String>)>,
    newa: Seq<(PeerId, Vec<String>)>,
    k: Seq<u8>,
    i: int,
)
    requires
        0 <= i < olda.len(),
        newa.len() == olda.len(),
        forall|x: int| 0 <= x < i ==> newa[x] == olda[x],
        forall|x: int| i <= x < olda.len() - 1 ==> newa[x] == olda[x + 1],
        newa[newa.len() - 1].0@ == olda[i].0@,
        k != olda[i].0@,
        distinct_keys(olda),
    ensures
        addrs_of(newa, k) == addrs_of(olda, k),
{
    if has_key(newa, k) {
        let t = choose|t: int| 0 <= t < newa.len() && (#[trigger] newa[t]).0@ == k;
        assert(t != newa.len() - 1);
        let ot = if t < i {
            t
        } else {
            t + 1
        };
        assert(olda[ot].0@ == k);
        assert(has_key(olda, k));
        let j = choose|j: int| 0 <= j < olda.len() && (#[trigger] olda[j]).0@ == k;
        assert(j == ot);
        assert(newa[t] == olda[ot]);
        assert(addrs_of(newa, k) == newa[t].1.deep_view());
        assert(addrs_of(olda, k) == olda[j].1.deep_view());
    } else {
        if has_key(olda, k) {
            let j = choose|j: int| 0 <= j < olda.len() && (#[trigger] olda[j]).0@ == k;
            assert(j != i);
            let nt = if j < i {
                j
            } else {
                j - 1
            };
            assert(newa[nt].0@ == k);
        }
    }
}


/// How many of the hashed word positions are set in the filter.
pub open spec fn set_count(f: Seq<bool>, words: Seq<usize>) -> nat {
    words.filter(|w: usize| w < f.len() && f[w as int]).len()
}

/// True when the filter at level `l` of the stack covers at least
/// `min_matching` of the hashed words.
pub open spec fn stack_matches_at<const N: usize>(
    stack: Seq<Filter<N>>,
    words: Seq<usize>,
    min_matching: usize,
    l: int,
) -> bool
    recommends
        0 <= l < stack.len(),
{
    set_count(stack[l]@, words) >= min_matching
}

/// The closest level at or above `l` whose filter matches the query;
/// nothing when no level does.
pub open spec fn first_match_from<const N: usize>(
    stack: Seq<Filter<N>>,
    words: Seq<usize>,
    min_matching: usize,
    l: int,
) -> Option<usize>
    decreases stack.len() - l,
{
    if l < 0 || l >= stack.len() {
        None
    } else if stack_matches_at(stack, words, min_matching, l) {
        Some(l as usize)
    } else {
        first_match_from(stack, words, min_matching, l + 1)
    }
}

/// The per-query distances of one stack.
pub open spec fn route_dists<const N: usize>(
    stack: Seq<Filter<N>>,
    queries: Seq<(Seq<usize>, usize)>,
) -> Seq<Option<usize>> {
    Seq::new(queries.len(), |q: int| first_match_from(stack, queries[q].0, queries[q].1, 0))
}

/// The model of the hashed queries handed to the router.
pub open spec fn hq_model(s: Seq<(Vec<usize>, usize)>) -> Seq<(Seq<usize>, usize)> {
    s.map_values(|e: (Vec<usize>, usize)| (e.0@, e.1))
}

/// The model of a routing result.
pub open spec fn routes_model(s: Seq<(PeerId, Vec<Option<usize>>)>) -> Seq<
    (Seq<u8>, Seq<Option<usize>>),
> {
    s.map_values(|e: (PeerId, Vec<Option<usize>>)| (e.0@, e.1@))
}

/// The routing hints of a whole table: each seeder's id with its
/// per-query distances, keeping only seeders for which some query
/// matched at some level.
pub open spec fn routes_spec<const N: usize>(
    table: Seq<(PeerId, Vec<Filter<N>>)>,
    queries: Seq<(Seq<usize>, usize)>,
) -> Seq<(Seq<u8>, Seq<Option<usize>>)> {
    table.map_values(|e: (PeerId, Vec<Filter<N>>)| (e.0@, route_dists(e.1@, queries))).filter(
        |rm: (Seq<u8>, Seq<Option<usize>>)|
            exists|q: int| 0 <= q < rm.1.len() && (#[trigger] rm.1[q]) is Some,
    )
}

/// Counts the hashed word positions set in the filter.
fn count_set_words<const N: usize>(f: &Filter<N>, words: &Vec<usize>) -> (c: usize)
    requires
        f.wf(),
    ensures
        c == set_count(f@, words@),
{
    let mut c: usize = 0;
    let mut j: usize = 0;
    proof {
        reveal(Seq::filter);
        assert(words@.take(0int) =~= Seq::<usize>::empty());
        assert(set_count(f@, words@.take(0int)) == 0);
    }
    while j < words.len()
        invariant
            f.wf(),
            j <= words@.len(),
            c == set_count(f@, words@.take(j as int)),
            c <= j,
        decreases words@.len() - j,
    {
        let ghost prefix = words@.take(j as int);
        let set_here = f.get_bit(words[j]);
        proof {
            reveal(Seq::filter);
            let ext = words@.take(j + 1);
            assert(ext.drop_last() =~= prefix);
            assert(ext.last() == words@[j as int]);
            prefix.lemma_filter_len(|w: usize| w < f@.len() && f@[w as int]);
        }
        if set_here {
            c += 1;
        }
        j += 1;
    }
    proof {
        assert(words@.take(words@.len() as int) =~= words@);
    }
    c
}

/// The closest level of the stack that matches the query, if any.
fn query_distance<const N: usize>(
    stack: &Vec<Filter<N>>,
    words: &Vec<usize>,
    min_matching: usize,
) -> (r: Option<usize>)
    requires
        forall|l: int| 0 <= l < stack@.len() ==> (#[trigger] stack@[l]).wf(),
    ensures
        r == first_match_from(stack@, words@, min_matching, 0),
{
    let mut l: usize = 0;
    while l < stack.len()
        invariant
            forall|t: int| 0 <= t < stack@.len() ==> (#[trigger] stack@[t]).wf(),
            l <= stack@.len(),
            first_match_from(stack@, words@, min_matching, 0) == first_match_from(
                stack@,
                words@,
                min_matching,
                l as int,
            ),
        decreases stack@.len() - l,
    {
        let c = count_set_words(&stack[l], words);
        if c >= min_matching {
            return Some(l);
        }
        l += 1;
    }
    None
}

impl<const N: usize, S: Store<N>> Db<N, S> {
    /// The routing hints of the current table: every seeder for which
    /// some query matches at some level, with its per-query
    /// distances.
    pub fn search_routes(&self, hashed_queries: &Vec<(Vec<usize>, usize)>) -> (r: Vec<
        (PeerId, Vec<Option<usize>>),
    >)
        requires
            self.wf(),
        ensures
            routes_model(r@) == routes_spec(self.filters@, hq_model(hashed_queries@)),
    {
        let ghost qm = hq_model(hashed_queries@);
        let mut r: Vec<(PeerId, Vec<Option<usize>>)> = Vec::new();
        let mut i: usize = 0;
        proof {
            reveal(Seq::filter);
            assert(routes_model(r@) =~= Seq::<(Seq<u8>, Seq<Option<usize>>)>::empty());
            assert(self.filters@.take(0int) =~= Seq::<(PeerId, Vec<Filter<N>>)>::empty());
            assert(self.filters@.take(0int).map_values(
                |e: (PeerId, Vec<Filter<N>>)| (e.0@, route_dists(e.1@, qm)),
            ) =~= Seq::<(Seq<u8>, Seq<Option<usize>>)>::empty());
            assert(routes_model(r@) =~= routes_spec(self.filters@.take(0int), qm));
        }
        while i < self.filters.len()
            invariant
                self.wf(),
                i <= self.filters@.len(),
                qm == hq_model(hashed_queries@),
                routes_model(r@) == routes_spec(self.filters@.take(i as int), qm),
            decreases self.filters@.len() - i,
        {
            let entry = &self.filters[i];
            let mut dists: Vec<Option<usize>> = Vec::new();
            let mut any = false;
            let mut q: usize = 0;
            while q < hashed_queries.len()
                invariant
                    self.wf(),
                    i < self.filters@.len(),
                    entry == &self.filters@[i as int],
                    qm == hq_model(hashed_queries@),
                    qm.len() == hashed_queries@.len(),
                    q <= hashed_queries@.len(),
                    dists@.len() == q,
                    forall|t: int|
                        0 <= t < q ==> dists@[t] == first_match_from(
                            entry.1@,
                            qm[t].0,
                            qm[t].1,
                            0,
                        ),
                    any ==> exists|t: int| 0 <= t < q && (#[trigger] dists@[t]) is Some,
                    !any ==> forall|t: int| 0 <= t < q ==> !((#[trigger] dists@[t]) is Some),
                decreases hashed_queries@.len() - q,
            {
                proof {
                    assert(qm[q as int] == (hashed_queries@[q as int].0@, hashed_queries@[
                        q as int].1));
                }
                let ghost dists_before = dists@;
                let ghost any_before = any;
                let d = query_distance(&entry.1, &hashed_queries[q].0, hashed_queries[q].1);
                if d.is_some() {
                    any = true;
                }
                dists.push(d);
                proof {
                    if any {
                        if d is Some {
                            assert(dists@[q as int] is Some);
                        } else {
                            assert(any_before);
                            let t = choose|t: int|
                                0 <= t < q && (#[trigger] dists_before[t]) is Some;
                            assert(dists@[t] is Some);
                        }
                    }
                }
                q += 1;
            }
            proof {
                assert(dists@ =~= route_dists(entry.1@, qm));
            }
            let ghost before = r@;
            if any {
                let peer = entry.0.clone();
                r.push((peer, dists));
            }
            proof {
                reveal(Seq::filter);
                let mapped = self.filters@.take(i + 1).map_values(
                    |e: (PeerId, Vec<Filter<N>>)| (e.0@, route_dists(e.1@, qm)),
                );
                let mapped_prefix = self.filters@.take(i as int).map_values(
                    |e: (PeerId, Vec<Filter<N>>)| (e.0@, route_dists(e.1@, qm)),
                );
                let em = (entry.0@, route_dists(entry.1@, qm));
                assert(mapped.drop_last() =~= mapped_prefix);
                assert(mapped.last() == em);
                let pred = |rm: (Seq<u8>, Seq<Option<usize>>)|
                    exists|t: int| 0 <= t < rm.1.len() && (#[trigger] rm.1[t]) is Some;
                if any {
                    assert(pred(em)) by {
                        let t = choose|t: int| 0 <= t < dists@.len() && (#[trigger] dists@[t]) is Some;
                        assert(em.1[t] is Some);
                    }
                    assert(mapped.filter(pred) == mapped_prefix.filter(pred).push(em));
                    assert(routes_model(r@) =~= routes_model(before).push(em));
                } else {
                    assert(!pred(em)) by {
                        if pred(em) {
                            let t = choose|t: int|
                                0 <= t < em.1.len() && (#[trigger] em.1[t]) is Some;
                            assert(dists@[t] is Some);
                        }
                    }
                    assert(mapped.filter(pred) == mapped_prefix.filter(pred));
                }
            }
            i += 1;
        }
        proof {
            assert(self.filters@.take(self.filters@.len() as int) =~= self.filters@);
        }
        r
    }
}

/// The stack cut down to at most `cap` levels.
pub open spec fn filters_truncated<const N: usize>(s: Seq<Filter<N>>, cap: usize) -> Seq<
    Filter<N>,
> {
    if s.len() <= cap {
        s
    } else {
        s.take(cap as int)
    }
}

} // verus!
