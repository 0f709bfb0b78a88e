//! The network core's control state: which peers are connected, which
//! control messages wait for a connection, and what the embedder must
//! do after each event. The transport and the runtime live with the
//! embedder; the steps here decide, over plain values, how the
//! connected set, the stash of undelivered messages and the outbound
//! queue change, and which single action follows. The handler's
//! pending-task admission policy lives here too.

use vstd::prelude::*;
use crate::counter::Counter;
use crate::db::{
    distinct_peers, drop_key, drop_peer, lemma_drop_key_props, lemma_drop_peer_props, peer_ids,
    remove_peer_entry, Db,
};
use crate::handler::HandlerInEvent;
use crate::peer::{clone_bytes, contains_peer, peer_eq, PeerId};
use crate::store::Store;

verus! {

/// The control messages whose peer differs from `key`, in order.
pub open spec fn drop_msgs(s: Seq<(PeerId, HandlerInEvent)>, key: Seq<u8>) -> Seq<
    (PeerId, HandlerInEvent),
> {
    s.filter(|e: (PeerId, HandlerInEvent)| e.0@ != key)
}

/// The control messages addressed to `key`, in order.
pub open spec fn msgs_for(s: Seq<(PeerId, HandlerInEvent)>, key: Seq<u8>) -> Seq<
    (PeerId, HandlerInEvent),
> {
    s.filter(|e: (PeerId, HandlerInEvent)| e.0@ == key)
}

/// What the embedder must do after a behaviour step, beyond the state
/// change itself.
pub enum BehaviourAction {
    /// Hand the event to the peer's connection handler.
    NotifyHandler(PeerId, HandlerInEvent),
    /// Dial the peer at the given addresses.
    Dial(PeerId, Vec<String>),
    /// Purge the peer from the routing database (`Db::remove_peer`).
    RemovePeer(PeerId),
    /// Record the dialled address at the front of the peer's address
    /// list (`Db::insert_address` with `front`).
    AddAddressFront(PeerId, String),
    /// Nothing beyond the state change.
    Nothing,
}

/// The behaviour's control state.
pub struct BehaviourState {
    /// Peers with a live connection, each once.
    pub connected: Vec<PeerId>,
    /// Control messages stashed until their peer connects.
    pub pending: Vec<(PeerId, HandlerInEvent)>,
    /// Control messages ready for a connected peer's handler.
    pub queue: Vec<(PeerId, HandlerInEvent)>,
}

/// Keeps only the messages addressed to other peers.
fn retain_other(v: &mut Vec<(PeerId, HandlerInEvent)>, peer: &PeerId)
    ensures
        final(v)@ == drop_msgs(old(v)@, peer@),
{
    let ghost full = v@;
    let n0 = v.len();
    let mut kept: Vec<(PeerId, HandlerInEvent)> = Vec::new();
    let mut k: usize = 0;
    proof {
        assert(full.len() == n0);
        reveal(Seq::filter);
        assert(full.take(0int) =~= Seq::<(PeerId, HandlerInEvent)>::empty());
        assert(kept@ =~= drop_msgs(full.take(0int), peer@));
    }
    while v.len() > 0
        invariant
            k == full.len() - v@.len(),
            0 <= k <= full.len(),
            full.len() <= usize::MAX,
            v@ =~= full.skip(k as int),
            kept@ == drop_msgs(full.take(k as int), peer@),
        decreases v@.len(),
    {
        let e = v.remove(0);
        proof {
            assert(full[k as int] == e);
            assert(v@ =~= full.skip(k as int + 1));
        }
        let other = !peer_eq(&e.0, peer);
        let ghost kept_before = kept@;
        if other {
            kept.push(e);
        }
        proof {
            reveal(Seq::filter);
            let ext = full.take(k as int + 1);
            assert(ext.drop_last() =~= full.take(k as int));
            assert(ext.last() == full[k as int]);
            if other {
                assert(kept@ =~= kept_before.push(full[k as int]));
            }
            assert(kept@ =~= drop_msgs(ext, peer@));
        }
        k += 1;
    }
    proof {
        assert(full.take(full.len() as int) =~= full);
    }
    *v = kept;
}

impl BehaviourState {
    /// No peer is connected twice.
    pub open spec fn wf(&self) -> bool {
        distinct_peers(self.connected@)
    }

    /// A fresh state: nobody connected, nothing stashed or queued.
    pub fn new() -> (r: Self)
        ensures
            r.wf(),
            r.connected@.len() == 0,
            r.pending@.len() == 0,
            r.queue@.len() == 0,
    {
        BehaviourState { connected: Vec::new(), pending: Vec::new(), queue: Vec::new() }
    }

    /// A new connection: the peer joins the connected set, its stashed
    /// messages move to the outbound queue in order, and — when we
    /// were the dialer — the embedder records the dialled address at
    /// the front of the peer's list.
    pub fn on_connection_established(&mut self, peer: PeerId, dialed_addr: Option<String>) -> (act:
        BehaviourAction)
        requires
            old(self).wf(),
        ensures
            final(self).wf(),
            peer_ids(final(self).connected@).contains(peer@),
            !peer_ids(old(self).connected@).contains(peer@) ==> final(self).connected@ == old(
                self,
            ).connected@.push(peer),
            peer_ids(old(self).connected@).contains(peer@) ==> final(self).connected == old(
                self,
            ).connected,
            final(self).pending@ == drop_msgs(old(self).pending@, peer@),
            final(self).queue@ == old(self).queue@ + msgs_for(old(self).pending@, peer@),
            dialed_addr matches Some(ad) ==> act matches BehaviourAction::AddAddressFront(p, a)
                && p@ == peer@ && a@ == ad@,
            dialed_addr is None ==> act is Nothing,
    {
        let ghost full = self.pending@;
        let n0 = self.pending.len();
        let mut kept: Vec<(PeerId, HandlerInEvent)> = Vec::new();
        let mut flushed: Vec<(PeerId, HandlerInEvent)> = Vec::new();
        let mut k: usize = 0;
        proof {
            assert(full.len() == n0);
            reveal(Seq::filter);
            assert(full.take(0int) =~= Seq::<(PeerId, HandlerInEvent)>::empty());
            assert(kept@ =~= drop_msgs(full.take(0int), peer@));
            assert(flushed@ =~= msgs_for(full.take(0int), peer@));
        }
        while self.pending.len() > 0
            invariant
                k == full.len() - self.pending@.len(),
                0 <= k <= full.len(),
                full.len() <= usize::MAX,
                self.pending@ =~= full.skip(k as int),
                kept@ == drop_msgs(full.take(k as int), peer@),
                flushed@ == msgs_for(full.take(k as int), peer@),
                self.connected == old(self).connected,
                self.queue == old(self).queue,
            decreases self.pending@.len(),
        {
            let e = self.pending.remove(0);
            proof {
                assert(full[k as int] == e);
                assert(self.pending@ =~= full.skip(k as int + 1));
            }
            let mine = peer_eq(&e.0, &peer);
            let ghost kept_before = kept@;
            let ghost flushed_before = flushed@;
            if mine {
                flushed.push(e);
            } else {
                kept.push(e);
            }
            proof {
                reveal(Seq::filter);
                let ext = full.take(k as int + 1);
                assert(ext.drop_last() =~= full.take(k as int));
                assert(ext.last() == full[k as int]);
                if mine {
                    assert(flushed@ =~= flushed_before.push(full[k as int]));
                } else {
                    assert(kept@ =~= kept_before.push(full[k as int]));
                }
                assert(kept@ =~= drop_msgs(ext, peer@));
                assert(flushed@ =~= msgs_for(ext, peer@));
            }
            k += 1;
        }
        proof {
            assert(full.take(full.len() as int) =~= full);
        }
        self.pending = kept;
        let ghost queue_before = self.queue@;
        let ghost flushed_v = flushed@;
        self.queue.append(&mut flushed);
        proof {
            assert(self.queue@ =~= queue_before + flushed_v);
        }
        let peer_act = PeerId { bytes: clone_bytes(&peer.bytes) };
        proof {
            assert(self.connected.deep_view() =~= peer_ids(self.connected@));
        }
        let known = contains_peer(&self.connected, &peer);
        if !known {
            let ghost c_before = self.connected@;
            self.connected.push(peer);
            proof {
                if peer_ids(c_before).contains(peer@) {
                    let t = choose|t: int|
                        0 <= t < peer_ids(c_before).len() && peer_ids(c_before)[t] == peer@;
                    assert(c_before[t]@ == peer@);
                    assert(self.connected.deep_view()[t] == peer@);
                }
                assert forall|x: int, y: int|
                    0 <= x < y < self.connected@.len() implies self.connected@[x]@
                    != self.connected@[y]@ by {
                    if y == self.connected@.len() - 1 {
                        if c_before[x]@ == peer@ {
                            assert(peer_ids(c_before)[x] == peer@);
                        }
                    }
                }
                assert(peer_ids(self.connected@)[self.connected@.len() - 1] == peer@);
            }
        } else {
            proof {
                let t = choose|t: int|
                    0 <= t < self.connected.deep_view().len() && self.connected.deep_view()[t]
                        == peer@;
                assert(peer_ids(self.connected@)[t] == peer@);
            }
        }
        match dialed_addr {
            Some(a) => BehaviourAction::AddAddressFront(peer_act, a),
            None => BehaviourAction::Nothing,
        }
    }

    /// A closed connection: the peer leaves the connected set, its
    /// stashed and queued messages are discarded, and the embedder
    /// purges it from the routing database.
    pub fn on_connection_closed(&mut self, peer: &PeerId) -> (act: BehaviourAction)
        requires
            old(self).wf(),
        ensures
            final(self).wf(),
            !peer_ids(final(self).connected@).contains(peer@),
            final(self).connected@ == drop_peer(old(self).connected@, peer@),
            final(self).pending@ == drop_msgs(old(self).pending@, peer@),
            final(self).queue@ == drop_msgs(old(self).queue@, peer@),
            act matches BehaviourAction::RemovePeer(p) && p@ == peer@,
    {
        remove_peer_entry(&mut self.connected, peer);
        retain_other(&mut self.pending, peer);
        retain_other(&mut self.queue, peer);
        proof {
            lemma_drop_peer_props(old(self).connected@, peer@);
            if peer_ids(self.connected@).contains(peer@) {
                let t = choose|t: int|
                    0 <= t < peer_ids(self.connected@).len() && peer_ids(self.connected@)[t]
                        == peer@;
                assert(self.connected@[t]@ == peer@);
            }
        }
        BehaviourAction::RemovePeer(PeerId { bytes: clone_bytes(&peer.bytes) })
    }

    /// A failed dial: the messages stashed for the peer are discarded;
    /// nothing else changes.
    pub fn on_dial_failure(&mut self, peer: &PeerId)
        ensures
            final(self).connected == old(self).connected,
            final(self).queue == old(self).queue,
            final(self).pending@ == drop_msgs(old(self).pending@, peer@),
    {
        retain_other(&mut self.pending, peer);
    }

    /// Queues a control message for a peer's handler.
    pub fn message_handler(&mut self, peer: PeerId, ev: HandlerInEvent)
        ensures
            final(self).connected == old(self).connected,
            final(self).pending == old(self).pending,
            final(self).queue@ == old(self).queue@.push((peer, ev)),
    {
        self.queue.push((peer, ev));
    }

    /// Reaches a peer wherever it is: a connected peer's handler is
    /// notified at once; otherwise the embedder dials and the message
    /// waits for the connection.
    pub fn on_dial_peer_and_message(
        &mut self,
        peer: PeerId,
        addrs: Vec<String>,
        ev: HandlerInEvent,
    ) -> (act: BehaviourAction)
        ensures
            final(self).connected == old(self).connected,
            final(self).queue == old(self).queue,
            peer_ids(old(self).connected@).contains(peer@) ==> final(self).pending == old(
                self,
            ).pending && (act matches BehaviourAction::NotifyHandler(p, e) && p@ == peer@ && e
                == ev),
            !peer_ids(old(self).connected@).contains(peer@) ==> final(self).pending@ == old(
                self,
            ).pending@.push((peer, ev)) && (act matches BehaviourAction::Dial(p, a) && p@ == peer@
                && a == addrs),
    {
        proof {
            assert(self.connected.deep_view() =~= peer_ids(self.connected@));
        }
        if contains_peer(&self.connected, &peer) {
            BehaviourAction::NotifyHandler(peer, ev)
        } else {
            let peer_act = PeerId { bytes: clone_bytes(&peer.bytes) };
            self.pending.push((peer, ev));
            BehaviourAction::Dial(peer_act, addrs)
        }
    }

    /// The oldest queued control message, if any.
    pub fn next_message(&mut self) -> (r: Option<(PeerId, HandlerInEvent)>)
        ensures
            final(self).connected == old(self).connected,
            final(self).pending == old(self).pending,
            r is Some <==> old(self).queue@.len() > 0,
            r matches Some(m) ==> m == old(self).queue@[0] && final(self).queue@ == old(
                self,
            ).queue@.skip(1),
            r is None ==> final(self).queue == old(self).queue,
    {
        if self.queue.len() == 0 {
            None
        } else {
            let m = self.queue.remove(0);
            proof {
                assert(self.queue@ =~= old(self).queue@.skip(1));
            }
            Some(m)
        }
    }
}

/// True when `id` is among the occupied task ids.
fn contains_id(v: &Vec<u32>, id: u32) -> (r: bool)
    ensures
        r == v@.contains(id),
{
    let mut i: usize = 0;
    while i < v.len()
        invariant
            i <= v@.len(),
            forall|j: int| 0 <= j < i ==> v@[j] != id,
        decreases v@.len() - i,
    {
        if v[i] == id {
            return true;
        }
        i += 1;
    }
    proof {
        if v@.contains(id) {
            let j = choose|j: int| 0 <= j < v@.len() && v@[j] == id;
            assert(false);
        }
    }
    false
}

/// The handler's pending-task admission: a task preferring an
/// occupied id is dropped when it does not replace, keeps the id when
/// it does, and takes the id when it is free; a task with no
/// preference draws a fresh id from the counter.
pub fn admit_task(tasks: &mut Vec<u32>, preferred: Option<(u32, bool)>, counter: &mut Counter) -> (r:
    Option<u32>)
    ensures
        match preferred {
            Option::Some((id, replacing)) => {
                &&& final(counter).value == old(counter).value
                &&& old(tasks)@.contains(id) && !replacing ==> r is None && final(tasks)@
                    == old(tasks)@
                &&& old(tasks)@.contains(id) && replacing ==> r == Some(id) && final(tasks)@
                    == old(tasks)@
                &&& !old(tasks)@.contains(id) ==> r == Some(id) && final(tasks)@ == old(
                    tasks,
                )@.push(id)
            },
            Option::None => {
                &&& r == Some(old(counter).value)
                &&& final(tasks)@ == old(tasks)@.push(old(counter).value)
                &&& final(counter).value == (if old(counter).value == u32::MAX {
                    0u32
                } else {
                    (old(counter).value + 1) as u32
                })
            },
        },
{
    match preferred {
        Some((id, replacing)) => {
            if contains_id(tasks, id) {
                if replacing {
                    Some(id)
                } else {
                    None
                }
            } else {
                tasks.push(id);
                Some(id)
            }
        },
        None => {
            let id = counter.next();
            tasks.push(id);
            Some(id)
        },
    }
}

/// The routing tables reference only connected peers: every peer id
/// among the seeders, the leechers and the stored filter stacks is in
/// the connected set.
pub open spec fn routes_connected<const N: usize, S: Store<N>>(
    db: Db<N, S>,
    connected: Seq<PeerId>,
) -> bool {
    &&& forall|i: int|
        0 <= i < db.seeders@.len() ==> peer_ids(connected).contains((#[trigger] db.seeders@[i])@)
    &&& forall|i: int|
        0 <= i < db.leechers@.len() ==> peer_ids(connected).contains(
            (#[trigger] db.leechers@[i])@,
        )
    &&& forall|i: int|
        0 <= i < db.filters@.len() ==> peer_ids(connected).contains(
            (#[trigger] db.filters@[i]).0@,
        )
}

/// A peer of the list is found among its ids, and conversely.
proof fn lemma_peer_ids_index(connected: Seq<PeerId>, id: Seq<u8>)
    requires
        peer_ids(connected).contains(id),
    ensures
        exists|t: int| 0 <= t < connected.len() && (#[trigger] connected[t])@ == id,
{
    let t = choose|t: int| 0 <= t < peer_ids(connected).len() && peer_ids(connected)[t] == id;
    assert(connected[t]@ == id);
}

/// Law: closing a connection preserves the coverage invariant. When
/// every routed peer was connected and the embedder both drops the
/// peer from the connected set and purges it from the database (as
/// `on_connection_closed` and `Db::remove_peer` state), every routed
/// peer is still connected.
pub proof fn lemma_routes_connected_after_close<const N: usize, S: Store<N>>(
    db1: Db<N, S>,
    db2: Db<N, S>,
    connected: Seq<PeerId>,
    key: Seq<u8>,
)
    requires
        routes_connected(db1, connected),
        db2.seeders@ == drop_peer(db1.seeders@, key),
        db2.leechers@ == drop_peer(db1.leechers@, key),
        db2.filters@ == drop_key(db1.filters@, key),
    ensures
        routes_connected(db2, drop_peer(connected, key)),
{
    lemma_drop_peer_props(db1.seeders@, key);
    lemma_drop_peer_props(db1.leechers@, key);
    lemma_drop_key_props::<Vec<crate::filter::Filter<N>>>(db1.filters@, key);
    lemma_drop_peer_props(connected, key);
    let rest = drop_peer(connected, key);
    assert forall|i: int| 0 <= i < db2.seeders@.len() implies peer_ids(rest).contains(
        (#[trigger] db2.seeders@[i])@,
    ) by {
        assert(db1.seeders@.contains(db2.seeders@[i]) && db2.seeders@[i]@ != key);
        let j = choose|j: int| 0 <= j < db1.seeders@.len() && db1.seeders@[j] == db2.seeders@[i];
        lemma_peer_ids_index(connected, db1.seeders@[j]@);
        let t = choose|t: int| 0 <= t < connected.len() && (#[trigger] connected[t])@ == db1.seeders@[j]@;
        assert(rest.contains(connected[t]));
        let u = choose|u: int| 0 <= u < rest.len() && rest[u] == connected[t];
        assert(peer_ids(rest)[u] == db2.seeders@[i]@);
    }
    assert forall|i: int| 0 <= i < db2.leechers@.len() implies peer_ids(rest).contains(
        (#[trigger] db2.leechers@[i])@,
    ) by {
        assert(db1.leechers@.contains(db2.leechers@[i]) && db2.leechers@[i]@ != key);
        let j = choose|j: int| 0 <= j < db1.leechers@.len() && db1.leechers@[j] == db2.leechers@[i];
        lemma_peer_ids_index(connected, db1.leechers@[j]@);
        let t = choose|t: int| 0 <= t < connected.len() && (#[trigger] connected[t])@ == db1.leechers@[j]@;
        assert(rest.contains(connected[t]));
        let u = choose|u: int| 0 <= u < rest.len() && rest[u] == connected[t];
        assert(peer_ids(rest)[u] == db2.leechers@[i]@);
    }
    assert forall|i: int| 0 <= i < db2.filters@.len() implies peer_ids(rest).contains(
        (#[trigger] db2.filters@[i]).0@,
    ) by {
        assert(db1.filters@.contains(db2.filters@[i]) && db2.filters@[i].0@ != key);
        let j = choose|j: int| 0 <= j < db1.filters@.len() && db1.filters@[j] == db2.filters@[i];
        lemma_peer_ids_index(connected, db1.filters@[j].0@);
        let t = choose|t: int|
            0 <= t < connected.len() && (#[trigger] connected[t])@ == db1.filters@[j].0@;
        assert(rest.contains(connected[t]));
        let u = choose|u: int| 0 <= u < rest.len() && rest[u] == connected[t];
        assert(peer_ids(rest)[u] == db2.filters@[i].0@);
    }
}

/// Law: admitting a connected peer preserves the coverage invariant.
/// `Db::add_seeder` and `Db::add_leecher` leave the tables unchanged
/// or extend one of them by the admitted peer; when that peer is
/// connected, every routed peer is still connected.
pub proof fn lemma_routes_connected_after_admit<const N: usize, S: Store<N>>(
    db1: Db<N, S>,
    db2: Db<N, S>,
    connected: Seq<PeerId>,
    peer: PeerId,
)
    requires
        routes_connected(db1, connected),
        peer_ids(connected).contains(peer@),
        db2.seeders@ == db1.seeders@ || db2.seeders@ == db1.seeders@.push(peer),
        db2.leechers@ == db1.leechers@ || db2.leechers@ == db1.leechers@.push(peer),
        db2.filters@ == db1.filters@,
    ensures
        routes_connected(db2, connected),
{
    assert forall|i: int| 0 <= i < db2.seeders@.len() implies peer_ids(connected).contains(
        (#[trigger] db2.seeders@[i])@,
    ) by {
        if i < db1.seeders@.len() {
            assert(db2.seeders@[i] == db1.seeders@[i]);
        } else {
            assert(db2.seeders@[i] == peer);
        }
    }
    assert forall|i: int| 0 <= i < db2.leechers@.len() implies peer_ids(connected).contains(
        (#[trigger] db2.leechers@[i])@,
    ) by {
        if i < db1.leechers@.len() {
            assert(db2.leechers@[i] == db1.leechers@[i]);
        } else {
            assert(db2.leechers@[i] == peer);
        }
    }
}

/// Law: storing a seeder's filter stack preserves the coverage
/// invariant. `Db::set_remote_filter` replaces the stack of an
/// admitted seeder; since every seeder is connected, every stack's
/// key remains connected.
pub proof fn lemma_routes_connected_after_filter<const N: usize, S: Store<N>>(
    db1: Db<N, S>,
    db2: Db<N, S>,
    connected: Seq<PeerId>,
    key: Seq<u8>,
)
    requires
        routes_connected(db1, connected),
        db2.seeders@ == db1.seeders@,
        db2.leechers@ == db1.leechers@,
        db2.filters@.len() >= 1,
        db2.filters@.drop_last() == drop_key(db1.filters@, key),
        db2.filters@.last().0@ == key,
        peer_ids(db1.seeders@).contains(key),
    ensures
        routes_connected(db2, connected),
{
    lemma_drop_key_props::<Vec<crate::filter::Filter<N>>>(db1.filters@, key);
    assert forall|i: int| 0 <= i < db2.filters@.len() implies peer_ids(connected).contains(
        (#[trigger] db2.filters@[i]).0@,
    ) by {
        if i < db2.filters@.len() - 1 {
            assert(db2.filters@[i] == db2.filters@.drop_last()[i]);
            assert(db1.filters@.contains(db2.filters@[i]));
            let j = choose|j: int|
                0 <= j < db1.filters@.len() && db1.filters@[j] == db2.filters@[i];
            assert(peer_ids(connected).contains(db1.filters@[j].0@));
        } else {
            assert(db2.filters@[i] == db2.filters@.last());
            lemma_peer_ids_index(db1.seeders@, key);
            let t = choose|t: int|
                0 <= t < db1.seeders@.len() && (#[trigger] db1.seeders@[t])@ == key;
            assert(peer_ids(connected).contains(db1.seeders@[t]@));
        }
    }
}

} // verus!
