//! The distributed search engine: a priority-ordered frontier of
//! candidate providers, counters shared with the caller, result
//! de-duplication, and the driver that fans queries out until the
//! frontier and the in-flight requests are both exhausted.

use vstd::prelude::*;
use vstd::multiset::Multiset;
use crate::control::{FixedSearchPriority, SearchConfig, SearchResults};
use crate::db::{peer_ids, distinct_peers, routes_spec, Db};
use crate::packets::{DistantMatch, DistantMatchV, LocalMatch, LocalMatchV, ResultsPacket};
use crate::peer::{bytes_eq, clone_bytes, clone_strings, contains_peer, peer_eq, PeerId};
use crate::queries::SearchQueries;
use crate::store::{SearchResult, Store};

verus! {

/// Model of a provider: its id, its distance per query, and how to
/// reach it.
pub struct ProviderV {
    pub peer_id: Seq<u8>,
    pub queries: Seq<Option<usize>>,
    pub addresses: Seq<Seq<char>>,
}

/// A candidate provider: a peer id, the distance at which each query
/// matched, and addresses to dial it at.
#[derive(Debug)]
pub struct ProviderInfo {
    /// The provider.
    pub peer_id: PeerId,
    /// Distance per query; nothing when a query matched at no level.
    pub queries: Vec<Option<usize>>,
    /// Addresses the provider may be dialled at.
    pub addresses: Vec<String>,
}

impl View for ProviderInfo {
    type V = ProviderV;

    open spec fn view(&self) -> ProviderV {
        ProviderV {
            peer_id: self.peer_id@,
            queries: self.queries@,
            addresses: self.addresses.deep_view(),
        }
    }
}

impl DeepView for ProviderInfo {
    type V = ProviderV;

    open spec fn deep_view(&self) -> ProviderV {
        self.view()
    }
}

/// The best (query, distance) pair by distance, from position `i`
/// onward, starting from `acc`: ties keep the earlier query.
pub open spec fn nearest_from(
    qs: Seq<Option<usize>>,
    i: int,
    acc: Option<(usize, usize)>,
) -> Option<(usize, usize)>
    decreases qs.len() - i,
{
    if i < 0 || i >= qs.len() {
        acc
    } else {
        let acc2 = match qs[i] {
            None => acc,
            Some(d) => match acc {
                None => Some((i as usize, d)),
                Some((q0, d0)) => if d < d0 {
                    Some((i as usize, d))
                } else {
                    acc
                },
            },
        };
        nearest_from(qs, i + 1, acc2)
    }
}

/// The query with the smallest distance, earliest query first on
/// ties.
pub open spec fn nearest_spec(qs: Seq<Option<usize>>) -> Option<(usize, usize)> {
    nearest_from(qs, 0, None)
}

/// The first query with any distance.
pub open spec fn best_from(qs: Seq<Option<usize>>, i: int) -> Option<(usize, usize)>
    decreases qs.len() - i,
{
    if i < 0 || i >= qs.len() {
        None
    } else {
        match qs[i] {
            Some(d) => Some((i as usize, d)),
            None => best_from(qs, i + 1),
        }
    }
}

/// The first (thus best) query with any distance, and that distance.
pub open spec fn best_spec(qs: Seq<Option<usize>>) -> Option<(usize, usize)> {
    best_from(qs, 0)
}

/// True when `a` ranks at least as high as `b` under the given
/// priority. Speed prefers the smallest distance anywhere, breaking
/// ties toward the earlier query; relevance prefers the earliest
/// matching query, breaking ties toward the smaller distance.
/// Providers with no distance at all rank last.
pub open spec fn ranks_at_least(
    p: FixedSearchPriority,
    a: Seq<Option<usize>>,
    b: Seq<Option<usize>>,
) -> bool {
    match p {
        FixedSearchPriority::Speed => {
            match (nearest_spec(a), nearest_spec(b)) {
                (Option::None, Option::None) => true,
                (Option::None, Option::Some(_)) => false,
                (Option::Some(_), Option::None) => true,
                (Option::Some((qa, da)), Option::Some((qb, db))) => da < db || (da == db && qa
                    <= qb),
            }
        },
        FixedSearchPriority::Relevance => {
            match (best_spec(a), best_spec(b)) {
                (Option::None, Option::None) => true,
                (Option::None, Option::Some(_)) => false,
                (Option::Some(_), Option::None) => true,
                (Option::Some((qa, da)), Option::Some((qb, db))) => qa < qb || (qa == qb && da
                    <= db),
            }
        },
    }
}

impl ProviderInfo {
    /// The query with the smallest distance; mirrors `nearest_spec`.
    pub fn nearest(&self) -> (r: Option<(usize, usize)>)
        ensures
            r == nearest_spec(self.queries@),
    {
        let mut acc: Option<(usize, usize)> = None;
        let mut i: usize = 0;
        while i < self.queries.len()
            invariant
                i <= self.queries@.len(),
                nearest_spec(self.queries@) == nearest_from(self.queries@, i as int, acc),
            decreases self.queries@.len() - i,
        {
            match self.queries[i] {
                None => {},
                Some(d) => {
                    match acc {
                        None => {
                            acc = Some((i, d));
                        },
                        Some((q0, d0)) => {
                            if d < d0 {
                                acc = Some((i, d));
                            }
                        },
                    }
                },
            }
            i += 1;
        }
        acc
    }

    /// The first query with any distance; mirrors `best_spec`.
    pub fn best(&self) -> (r: Option<(usize, usize)>)
        ensures
            r == best_spec(self.queries@),
    {
        let mut i: usize = 0;
        while i < self.queries.len()
            invariant
                i <= self.queries@.len(),
                best_spec(self.queries@) == best_from(self.queries@, i as int),
            decreases self.queries@.len() - i,
        {
            match self.queries[i] {
                Some(d) => {
                    return Some((i, d));
                },
                None => {},
            }
            i += 1;
        }
        None
    }

    /// True when this provider ranks at least as high as `other`;
    /// mirrors `ranks_at_least`.
    pub fn ranks_at_least_exec(&self, priority: FixedSearchPriority, other: &ProviderInfo) -> (r:
        bool)
        ensures
            r == ranks_at_least(priority, self.queries@, other.queries@),
    {
        match priority {
            FixedSearchPriority::Speed => {
                match (self.nearest(), other.nearest()) {
                    (Option::None, Option::None) => true,
                    (Option::None, Option::Some(_)) => false,
                    (Option::Some(_), Option::None) => true,
                    (Option::Some((qa, da)), Option::Some((qb, db))) => da < db || (da == db && qa
                        <= qb),
                }
            },
            FixedSearchPriority::Relevance => {
                match (self.best(), other.best()) {
                    (Option::None, Option::None) => true,
                    (Option::None, Option::Some(_)) => false,
                    (Option::Some(_), Option::None) => true,
                    (Option::Some((qa, da)), Option::Some((qb, db))) => qa < qb || (qa == qb && da
                        <= db),
                }
            },
        }
    }
}

/// Removes and returns a provider of the frontier that ranks at least
/// as high as every other under the given priority; nothing when the
/// frontier is empty.
pub fn pop_best(frontier: &mut Vec<ProviderInfo>, priority: FixedSearchPriority) -> (r: Option<
    ProviderInfo,
>)
    ensures
        r is Some <==> old(frontier)@.len() > 0,
        old(frontier)@.len() == 0 ==> final(frontier)@ == old(frontier)@,
        r matches Some(p) ==> {
            &&& exists|i: int|
                0 <= i < old(frontier)@.len() && old(frontier)@[i] == p && final(frontier)@ == old(
                    frontier,
                )@.remove(i)
            &&& forall|j: int|
                0 <= j < final(frontier)@.len() ==> ranks_at_least(
                    priority,
                    p.queries@,
                    (#[trigger] final(frontier)@[j]).queries@,
                )
        },
{
    if frontier.len() == 0 {
        return None;
    }
    let mut best_idx: usize = 0;
    let mut i: usize = 1;
    while i < frontier.len()
        invariant
            frontier@.len() > 0,
            best_idx < i <= frontier@.len(),
            forall|j: int|
                0 <= j < i ==> ranks_at_least(
                    priority,
                    frontier@[best_idx as int].queries@,
                    (#[trigger] frontier@[j]).queries@,
                ),
        decreases frontier@.len() - i,
    {
        if !frontier[best_idx].ranks_at_least_exec(priority, &frontier[i]) {
            proof {
                lemma_ranks_total(
                    priority,
                    frontier@[best_idx as int].queries@,
                    frontier@[i as int].queries@,
                );
                lemma_ranks_trans_all(priority, frontier@, i as int, best_idx as int);
            }
            best_idx = i;
        }
        i += 1;
    }
    let p = frontier.remove(best_idx);
    proof {
        assert(frontier@ == old(frontier)@.remove(best_idx as int));
        assert forall|j: int| 0 <= j < frontier@.len() implies ranks_at_least(
            priority,
            p.queries@,
            (#[trigger] frontier@[j]).queries@,
        ) by {
            let oj = if j < best_idx {
                j
            } else {
                j + 1
            };
            assert(frontier@[j] == old(frontier)@[oj]);
        }
    }
    Some(p)
}

/// The ranking is total: of any two providers, one ranks at least as
/// high as the other.
pub proof fn lemma_ranks_total(
    p: FixedSearchPriority,
    a: Seq<Option<usize>>,
    b: Seq<Option<usize>>,
)
    ensures
        ranks_at_least(p, a, b) || ranks_at_least(p, b, a),
{
}

/// The ranking is transitive.
pub proof fn lemma_ranks_trans(
    p: FixedSearchPriority,
    a: Seq<Option<usize>>,
    b: Seq<Option<usize>>,
    c: Seq<Option<usize>>,
)
    requires
        ranks_at_least(p, a, b),
        ranks_at_least(p, b, c),
    ensures
        ranks_at_least(p, a, c),
{
}

/// A provider that outranks the current best outranks everything the
/// best outranked.
proof fn lemma_ranks_trans_all(
    p: FixedSearchPriority,
    fr: Seq<ProviderInfo>,
    winner: int,
    loser: int,
)
    requires
        0 <= winner < fr.len(),
        0 <= loser < fr.len(),
        ranks_at_least(p, fr[winner].queries@, fr[loser].queries@),
        forall|j: int|
            0 <= j < winner ==> ranks_at_least(
                p,
                fr[loser].queries@,
                (#[trigger] fr[j]).queries@,
            ),
    ensures
        forall|j: int|
            0 <= j <= winner ==> ranks_at_least(
                p,
                fr[winner].queries@,
                (#[trigger] fr[j]).queries@,
            ),
{
    assert forall|j: int| 0 <= j <= winner implies ranks_at_least(
        p,
        fr[winner].queries@,
        (#[trigger] fr[j]).queries@,
    ) by {
        if j < winner {
            lemma_ranks_trans(p, fr[winner].queries@, fr[loser].queries@, fr[j].queries@);
        }
    }
}


/// True when `list` holds a byte string equal to `b`.
pub fn contains_bytes(list: &Vec<Vec<u8>>, b: &Vec<u8>) -> (r: bool)
    ensures
        r == list.deep_view().contains(b@),
{
    let mut i: usize = 0;
    while i < list.len()
        invariant
            i <= list@.len(),
            list.deep_view().len() == list@.len(),
            forall|j: int| 0 <= j < i ==> list.deep_view()[j] != b@,
        decreases list@.len() - i,
    {
        if bytes_eq(&list[i], b) {
            proof {
                assert(list.deep_view()[i as int] =~= list@[i as int]@);
            }
            return true;
        }
        proof {
            assert(list.deep_view()[i as int] =~= list@[i as int]@);
        }
        i += 1;
    }
    proof {
        if list.deep_view().contains(b@) {
            let j = choose|j: int| 0 <= j < list.deep_view().len() && list.deep_view()[j] == b@;
            assert(false);
        }
    }
    false
}

/// The models of decoded results paired with their query index.
pub open spec fn hit_models<T: SearchResult>(s: Seq<(T, usize)>) -> Seq<(T::V, usize)> {
    s.map_values(|e: (T, usize)| (e.0.deep_view(), e.1))
}

/// Results that decode, paired with their query index, in order.
pub open spec fn decode_matches<T: SearchResult>(ms: Seq<LocalMatchV>) -> Seq<(T::V, usize)>
    decreases ms.len(),
{
    if ms.len() == 0 {
        Seq::empty()
    } else {
        let rest = decode_matches::<T>(ms.skip(1));
        match T::of_bytes(ms[0].result) {
            Option::None => rest,
            Option::Some(v) => seq![(v, ms[0].query as usize)] + rest,
        }
    }
}

/// Splits results into the fresh ones — whose content id was not yet
/// seen — and the content ids seen afterwards.
pub open spec fn dedup_results<T: SearchResult>(
    rs: Seq<(T::V, usize)>,
    seen: Seq<Seq<u8>>,
) -> (Seq<(T::V, usize)>, Seq<Seq<u8>>)
    decreases rs.len(),
{
    if rs.len() == 0 {
        (Seq::empty(), seen)
    } else {
        let cid = T::cid_of(rs[0].0);
        if seen.contains(cid) {
            dedup_results::<T>(rs.skip(1), seen)
        } else {
            let rec = dedup_results::<T>(rs.skip(1), seen.push(cid));
            (seq![rs[0]] + rec.0, rec.1)
        }
    }
}

/// The peer ids of a list of providers, in order.
pub open spec fn provider_ids(s: Seq<ProviderInfo>) -> Seq<Seq<u8>> {
    s.map_values(|p: ProviderInfo| p.peer_id@)
}

/// The routes worth following: providers with at least one address
/// whose peer has not been queried yet.
pub open spec fn eligible_routes(
    routes: Seq<ProviderInfo>,
    queried_ids: Seq<Seq<u8>>,
) -> Seq<ProviderInfo> {
    routes.filter(
        |p: ProviderInfo| p.addresses@.len() > 0 && !queried_ids.contains(p.peer_id@),
    )
}

/// Reads the results of a response back into typed hits; entries
/// that do not decode are dropped.
pub fn decode_results<T: SearchResult>(matches: Vec<LocalMatch>) -> (r: Vec<(T, usize)>)
    ensures
        hit_models::<T>(r@) == decode_matches::<T>(matches.deep_view()),
{
    let mut matches = matches;
    let ghost full = matches.deep_view();
    let mut r: Vec<(T, usize)> = Vec::new();
    proof {
        assert(hit_models::<T>(r@) =~= Seq::<(T::V, usize)>::empty());
    }
    while matches.len() > 0
        invariant
            decode_matches::<T>(full) == hit_models::<T>(r@) + decode_matches::<T>(
                matches.deep_view(),
            ),
        decreases matches@.len(),
    {
        let ghost pre = matches.deep_view();
        let m = matches.remove(0);
        let ghost rest = matches.deep_view();
        let ghost before = hit_models::<T>(r@);
        proof {
            assert(pre =~= seq![m.deep_view()] + rest);
        }
        match T::from_bytes(&m.result) {
            None => {
                proof {
                    assert(pre.skip(1) =~= rest);
                    assert(pre[0] == m.deep_view());
                    assert(decode_matches::<T>(pre) == decode_matches::<T>(rest));
                }
            },
            Some(v) => {
                let q = m.query as usize;
                let ghost vm = v.deep_view();
                r.push((v, q));
                proof {
                    assert(pre.skip(1) =~= rest);
                    assert(pre[0] == m.deep_view());
                    assert(decode_matches::<T>(pre) == seq![(vm, q)] + decode_matches::<T>(rest));
                    assert(hit_models::<T>(r@) =~= before.push((vm, q)));
                    assert(before + (seq![(vm, q)] + decode_matches::<T>(rest)) =~= hit_models::<
                        T,
                    >(r@) + decode_matches::<T>(rest));
                }
            },
        }
    }
    proof {
        assert(decode_matches::<T>(matches.deep_view()) =~= Seq::<(T::V, usize)>::empty());
        assert(hit_models::<T>(r@) + Seq::<(T::V, usize)>::empty() =~= hit_models::<T>(r@));
    }
    r
}


/// Keeps the results whose content id is not yet in `seen`, marking
/// their ids as seen, in order.
pub fn dedup_fresh<T: SearchResult>(seen: &mut Vec<Vec<u8>>, results: Vec<(T, usize)>) -> (fresh:
    Vec<(T, usize)>)
    ensures
        ({
            let d = dedup_results::<T>(hit_models::<T>(results@), old(seen).deep_view());
            &&& final(seen).deep_view() == d.1
            &&& hit_models::<T>(fresh@) == d.0
        }),
{
    let mut results = results;
    let ghost full = hit_models::<T>(results@);
    let ghost seen0 = seen.deep_view();
    let mut fresh: Vec<(T, usize)> = Vec::new();
    while results.len() > 0
        invariant
            ({
                let d = dedup_results::<T>(full, seen0);
                let rec = dedup_results::<T>(hit_models::<T>(results@), seen.deep_view());
                &&& d.1 == rec.1
                &&& d.0.len() == fresh@.len() + rec.0.len()
                &&& forall|i: int|
                    0 <= i < fresh@.len() ==> #[trigger] d.0[i] == hit_models::<T>(fresh@)[i]
                &&& forall|i: int|
                    0 <= i < rec.0.len() ==> #[trigger] d.0[fresh@.len() + i] == rec.0[i]
            }),
        decreases results@.len(),
    {
        let ghost pre_exec = results@;
        let entry = results.remove(0);
        let ghost rest_models = hit_models::<T>(results@);
        let ghost entry_model = (entry.0.deep_view(), entry.1);
        let ghost pre_models = hit_models::<T>(pre_exec);
        proof {
            assert(pre_exec =~= seq![entry] + results@);
            assert(pre_models =~= seq![entry_model] + rest_models);
            assert(pre_models[0] == entry_model);
            assert(pre_models.skip(1) =~= rest_models);
        }
        let cid = entry.0.cid();
        let ghost seen_now = seen.deep_view();
        let already = contains_bytes(seen, &cid);
        proof {
            assert(cid@ == T::cid_of(entry_model.0));
        }
        if already {
            proof {
                assert(seen_now.contains(T::cid_of(pre_models[0].0)));
                assert(dedup_results::<T>(pre_models, seen_now) == dedup_results::<T>(
                    rest_models,
                    seen_now,
                ));
            }
        } else {
            let ghost fb = fresh@;
            seen.push(cid);
            fresh.push((entry.0, entry.1));
            proof {
                assert(!seen_now.contains(T::cid_of(pre_models[0].0)));
                assert(seen.deep_view() =~~= seen_now.push(T::cid_of(entry_model.0)));
                let rec = dedup_results::<T>(rest_models, seen_now.push(T::cid_of(entry_model.0)));
                assert(dedup_results::<T>(pre_models, seen_now) == (
                    seq![entry_model] + rec.0,
                    rec.1,
                ));
                let d = dedup_results::<T>(full, seen0);
                let rec_pre = dedup_results::<T>(pre_models, seen_now);
                assert(rec_pre.0[0] == entry_model);
                let i0: int = 0;
                assert(d.0[fb.len() + i0] == rec_pre.0[i0]);
                assert(hit_models::<T>(fresh@) =~= hit_models::<T>(fb).push(entry_model));
                assert forall|i: int| 0 <= i < rec.0.len() implies #[trigger] d.0[fresh@.len()
                    + i] == rec.0[i] by {
                    assert(d.0[fb.len() + (i + 1)] == rec_pre.0[i + 1]);
                    assert(rec_pre.0[i + 1] == (seq![entry_model] + rec.0)[i + 1]);
                }
                assert forall|i: int| 0 <= i < fresh@.len() implies #[trigger] d.0[i]
                    == hit_models::<T>(fresh@)[i] by {
                    if i < fb.len() {
                        assert(d.0[i] == hit_models::<T>(fb)[i]);
                    } else {
                        assert(d.0[fb.len() + i0] == entry_model);
                    }
                }
            }
        }
    }
    proof {
        let d = dedup_results::<T>(full, seen0);
        assert(hit_models::<T>(results@) =~= Seq::<(T::V, usize)>::empty());
        assert(hit_models::<T>(fresh@) =~= d.0);
    }
    fresh
}

/// The running state of one search: the frontier, who has been
/// queried, which documents were already emitted, and the counters
/// the caller watches.
pub struct SearchEngine {
    /// Candidate providers not yet queried, ordered on demand.
    pub frontier: Vec<ProviderInfo>,
    /// Peers already queried, in order.
    pub queried: Vec<PeerId>,
    /// Content ids already emitted to the caller.
    pub seen_cids: Vec<Vec<u8>>,
    /// Peers that returned at least one document.
    pub final_peers: usize,
    /// Documents received from peers so far.
    pub documents_found: usize,
    /// Requests currently in flight.
    pub ongoing: usize,
    /// The live search configuration.
    pub config: SearchConfig,
    /// True once the caller has gone away; no further work is
    /// started.
    pub halted: bool,
}

impl SearchEngine {
    /// A fresh engine over the given frontier seed.
    pub fn new(config: SearchConfig, seed: Vec<ProviderInfo>) -> (r: SearchEngine)
        ensures
            r.frontier == seed,
            r.queried@.len() == 0,
            r.seen_cids@.len() == 0,
            r.final_peers == 0,
            r.documents_found == 0,
            r.ongoing == 0,
            r.config == config,
            !r.halted,
    {
        SearchEngine {
            frontier: seed,
            queried: Vec::new(),
            seen_cids: Vec::new(),
            final_peers: 0,
            documents_found: 0,
            ongoing: 0,
            config,
            halted: false,
        }
    }

    /// True when no work remains: the frontier is empty and nothing
    /// is in flight.
    pub fn is_finished(&self) -> (r: bool)
        ensures
            r == (self.frontier@.len() == 0 && self.ongoing == 0),
    {
        self.frontier.len() == 0 && self.ongoing == 0
    }

    /// Pops the best providers until the concurrency limit is filled
    /// or the frontier runs dry, marking each as queried; providers
    /// already queried are discarded. Returns the batch to contact.
    pub fn start_requests(&mut self) -> (batch: Vec<ProviderInfo>)
        ensures
            final(self).config == old(self).config,
            final(self).seen_cids == old(self).seen_cids,
            final(self).final_peers == old(self).final_peers,
            final(self).documents_found == old(self).documents_found,
            final(self).halted == old(self).halted,
            final(self).ongoing == old(self).ongoing + batch@.len(),
            final(self).frontier@.len() <= old(self).frontier@.len(),
            forall|x: ProviderInfo|
                final(self).frontier@.contains(x) ==> old(self).frontier@.contains(x),
            forall|i: int|
                0 <= i < batch@.len() ==> old(self).frontier@.contains(#[trigger] batch@[i]),
            peer_ids(final(self).queried@) == peer_ids(old(self).queried@) + provider_ids(
                batch@,
            ),
            distinct_peers(old(self).queried@) ==> distinct_peers(final(self).queried@),
            forall|i: int|
                0 <= i < batch@.len() ==> !peer_ids(old(self).queried@).contains(
                    (#[trigger] batch@[i]).peer_id@,
                ),
            old(self).halted ==> batch@.len() == 0 && final(self).frontier == old(self).frontier
                && final(self).queried == old(self).queried,
            !old(self).halted && old(self).ongoing < old(self).config.req_limit && old(
                self,
            ).frontier@.len() > 0 ==> batch@.len() > 0 || final(self).frontier@.len() < old(
                self,
            ).frontier@.len(),
            exists|dropped: Multiset<ProviderInfo>|
                (#[trigger] final(self).frontier@.to_multiset().add(batch@.to_multiset()).add(
                    dropped,
                )) == old(self).frontier@.to_multiset() && (forall|x: ProviderInfo|
                    dropped.count(x) > 0 ==> peer_ids(final(self).queried@).contains(x.peer_id@)),
            forall|i: int, j: int|
                0 <= i < batch@.len() && 0 <= j < final(self).frontier@.len() ==> ranks_at_least(
                    old(self).config.priority.priority_at(old(self).documents_found),
                    (#[trigger] batch@[i]).queries@,
                    (#[trigger] final(self).frontier@[j]).queries@,
                ),
    {
        proof {
            broadcast use vstd::seq_lib::group_to_multiset_ensures;

        }
        let mut batch: Vec<ProviderInfo> = Vec::new();
        let ghost dropped_ms: Multiset<ProviderInfo> = Multiset::empty();
        if self.halted {
            proof {
                assert(provider_ids(batch@) =~= Seq::<Seq<u8>>::empty());
                assert(peer_ids(self.queried@) + provider_ids(batch@) =~= peer_ids(
                    self.queried@,
                ));
                assert(batch@.to_multiset() =~= Multiset::<ProviderInfo>::empty());
                assert(self.frontier@.to_multiset().add(batch@.to_multiset()).add(dropped_ms)
                    =~= old(self).frontier@.to_multiset());
            }
            return batch;
        }
        let priority = self.config.priority.get_priority(self.documents_found);
        proof {
            assert(provider_ids(batch@) =~= Seq::<Seq<u8>>::empty());
            assert(peer_ids(self.queried@) + provider_ids(batch@) =~= peer_ids(self.queried@));
            assert(batch@.to_multiset() =~= Multiset::<ProviderInfo>::empty());
            assert(self.frontier@.to_multiset().add(batch@.to_multiset()).add(dropped_ms)
                =~= old(self).frontier@.to_multiset());
        }
        let ghost mut dropped_ms = dropped_ms;
        while self.ongoing + batch.len() < self.config.req_limit && self.frontier.len() > 0
            invariant
                !self.halted,
                self.ongoing == old(self).ongoing,
                self.config == old(self).config,
                self.seen_cids == old(self).seen_cids,
                self.final_peers == old(self).final_peers,
                self.documents_found == old(self).documents_found,
                priority == old(self).config.priority.priority_at(old(self).documents_found),
                self.ongoing + batch@.len() <= self.config.req_limit || batch@.len() == 0,
                self.frontier@.len() <= old(self).frontier@.len(),
                forall|x: ProviderInfo|
                    self.frontier@.contains(x) ==> old(self).frontier@.contains(x),
                forall|i: int|
                    0 <= i < batch@.len() ==> old(self).frontier@.contains(#[trigger] batch@[i]),
                peer_ids(self.queried@) == peer_ids(old(self).queried@) + provider_ids(
                    batch@,
                ),
                distinct_peers(old(self).queried@) ==> distinct_peers(self.queried@),
                forall|i: int|
                    0 <= i < batch@.len() ==> !peer_ids(old(self).queried@).contains(
                        (#[trigger] batch@[i]).peer_id@,
                    ),
                forall|i: int, j: int|
                    0 <= i < j < batch@.len() ==> (#[trigger] batch@[i]).peer_id@ != (
                    #[trigger] batch@[j]).peer_id@,
                self.frontier@.to_multiset().add(batch@.to_multiset()).add(dropped_ms) == old(
                    self,
                ).frontier@.to_multiset(),
                forall|x: ProviderInfo|
                    dropped_ms.count(x) > 0 ==> peer_ids(self.queried@).contains(x.peer_id@),
                forall|i: int, j: int|
                    0 <= i < batch@.len() && 0 <= j < self.frontier@.len() ==> ranks_at_least(
                        priority,
                        (#[trigger] batch@[i]).queries@,
                        (#[trigger] self.frontier@[j]).queries@,
                    ),
            decreases self.frontier@.len(),
        {
            let ghost fr_before = self.frontier@;
            let popped = pop_best(&mut self.frontier, priority);
            let p = match popped {
                None => {
                    proof {
                        assert(false);
                    }
                    return batch;
                },
                Some(p) => p,
            };
            proof {
                broadcast use vstd::seq_lib::group_to_multiset_ensures;

                let i = choose|i: int|
                    0 <= i < fr_before.len() && fr_before[i] == p && self.frontier@ == fr_before.remove(
                        i,
                    );
                assert(fr_before.contains(p));
                assert forall|x: ProviderInfo| self.frontier@.contains(x) implies fr_before.contains(
                    x,
                ) by {
                    let j = choose|j: int| 0 <= j < self.frontier@.len() && self.frontier@[j] == x;
                    let oj = if j < i {
                        j
                    } else {
                        j + 1
                    };
                    assert(fr_before[oj] == x);
                }
                assert(self.frontier@.to_multiset() =~= fr_before.to_multiset().remove(p));
                assert(fr_before.to_multiset().count(p) > 0);
                assert(self.frontier@.to_multiset().insert(p) =~= fr_before.to_multiset());
                assert forall|bi: int, j: int|
                    0 <= bi < batch@.len() && 0 <= j < self.frontier@.len() implies ranks_at_least(
                    priority,
                    (#[trigger] batch@[bi]).queries@,
                    (#[trigger] self.frontier@[j]).queries@,
                ) by {
                    let oj = if j < i {
                        j
                    } else {
                        j + 1
                    };
                    assert(self.frontier@[j] == fr_before[oj]);
                }
            }
            proof {
                assert(self.queried.deep_view() =~= peer_ids(self.queried@));
            }
            let fresh = !contains_peer(&self.queried, &p.peer_id);
            if fresh {
                let ghost q_before = self.queried@;
                let ghost batch_before = batch@;
                let ghost pid = p.peer_id@;
                proof {
                    if peer_ids(old(self).queried@).contains(pid) {
                        let k = choose|k: int|
                            0 <= k < peer_ids(old(self).queried@).len() && peer_ids(
                                old(self).queried@,
                            )[k] == pid;
                        assert(peer_ids(q_before)[k] == pid);
                        assert(peer_ids(q_before).contains(pid));
                    }
                    assert(!peer_ids(q_before).contains(pid));
                }
                self.queried.push(p.peer_id.clone());
                batch.push(p);
                proof {
                    assert(self.queried@[self.queried@.len() - 1]@ == pid);
                    assert(peer_ids(self.queried@) =~= peer_ids(q_before).push(pid));
                    assert(provider_ids(batch@) =~= provider_ids(batch_before).push(pid));
                    assert(peer_ids(self.queried@) =~= peer_ids(old(self).queried@)
                        + provider_ids(batch@));
                    assert forall|x: int, y: int|
                        0 <= x < y < batch@.len() implies (#[trigger] batch@[x]).peer_id@ != (
                    #[trigger] batch@[y]).peer_id@ by {
                        if y == batch@.len() - 1 {
                            let ox = peer_ids(old(self).queried@).len() + x;
                            assert(provider_ids(batch_before)[x] == batch_before[x].peer_id@);
                            assert(peer_ids(q_before)[ox] == batch_before[x].peer_id@);
                            assert(batch@[x] == batch_before[x]);
                        }
                    }
                    if distinct_peers(old(self).queried@) {
                        assert forall|x: int, y: int|
                            0 <= x < y < self.queried@.len() implies self.queried@[x]@
                            != self.queried@[y]@ by {
                            if y == self.queried@.len() - 1 {
                                assert(peer_ids(q_before)[x] == self.queried@[x]@);
                            }
                        }
                    }
                    broadcast use vstd::seq_lib::group_to_multiset_ensures;

                    assert(batch@ == batch_before.push(p));
                    assert(batch@.to_multiset() =~= batch_before.to_multiset().insert(p));
                    assert(self.frontier@.to_multiset().add(batch@.to_multiset()).add(dropped_ms)
                        =~= old(self).frontier@.to_multiset());
                    assert forall|x: ProviderInfo| dropped_ms.count(x) > 0 implies peer_ids(
                        self.queried@,
                    ).contains(x.peer_id@) by {
                        let t = choose|t: int|
                            0 <= t < peer_ids(q_before).len() && peer_ids(q_before)[t]
                                == x.peer_id@;
                        assert(peer_ids(self.queried@)[t] == x.peer_id@);
                    }
                }
            } else {
                proof {
                    broadcast use vstd::seq_lib::group_to_multiset_ensures;

                    assert(peer_ids(self.queried@).contains(p.peer_id@));
                    let ghost old_dropped = dropped_ms;
                    dropped_ms = dropped_ms.insert(p);
                    assert forall|x: ProviderInfo| dropped_ms.count(x) > 0 implies peer_ids(
                        self.queried@,
                    ).contains(x.peer_id@) by {
                        if x != p {
                            assert(old_dropped.count(x) > 0);
                        }
                    }
                    assert(self.frontier@.to_multiset().add(batch@.to_multiset()).add(dropped_ms)
                        =~= old(self).frontier@.to_multiset());
                }
            }
        }
        proof {
            if !(old(self).halted) && old(self).ongoing < old(self).config.req_limit && old(
                self,
            ).frontier@.len() > 0 && batch@.len() == 0 {
                assert(self.frontier@.len() == 0);
            }
        }
        self.ongoing = self.ongoing + batch.len();
        proof {
            assert(self.frontier@.to_multiset().add(batch@.to_multiset()).add(dropped_ms) == old(
                self,
            ).frontier@.to_multiset());
            assert(forall|x: ProviderInfo|
                dropped_ms.count(x) > 0 ==> peer_ids(self.queried@).contains(x.peer_id@));
        }
        batch
    }

    /// Notes that one in-flight request ended without a usable
    /// answer.
    pub fn handle_timeout(&mut self)
        requires
            old(self).ongoing >= 1,
        ensures
            final(self).ongoing == old(self).ongoing - 1,
            final(self).frontier == old(self).frontier,
            final(self).queried == old(self).queried,
            final(self).seen_cids == old(self).seen_cids,
            final(self).final_peers == old(self).final_peers,
            final(self).documents_found == old(self).documents_found,
            final(self).config == old(self).config,
            final(self).halted == old(self).halted,
    {
        self.ongoing = self.ongoing - 1;
    }

    /// Notes that one in-flight request answered: the peer counts as
    /// final when it returned any match, and the document counter
    /// grows by the number of decoded results, saturating at the
    /// machine limit.
    pub fn note_response(&mut self, had_matches: bool, decoded: usize)
        requires
            old(self).ongoing >= 1,
        ensures
            final(self).ongoing == old(self).ongoing - 1,
            final(self).final_peers == if had_matches && old(self).final_peers < usize::MAX {
                old(self).final_peers + 1
            } else {
                old(self).final_peers as int
            },
            final(self).documents_found == if old(self).documents_found + decoded <= usize::MAX {
                old(self).documents_found + decoded
            } else {
                usize::MAX as int
            },
            final(self).frontier == old(self).frontier,
            final(self).queried == old(self).queried,
            final(self).seen_cids == old(self).seen_cids,
            final(self).config == old(self).config,
            final(self).halted == old(self).halted,
    {
        self.ongoing = self.ongoing - 1;
        if had_matches && self.final_peers < usize::MAX {
            self.final_peers = self.final_peers + 1;
        }
        if decoded <= usize::MAX - self.documents_found {
            self.documents_found = self.documents_found + decoded;
        } else {
            self.documents_found = usize::MAX;
        }
    }

    /// Keeps the fresh results — those whose content id was not yet
    /// emitted — marking their ids as seen, and stamps them with the
    /// providing peer.
    pub fn dedup_hits<T: SearchResult>(
        &mut self,
        results: Vec<(T, usize)>,
        from: &PeerId,
    ) -> (hits: Vec<(T, usize, PeerId)>)
        ensures
            final(self).frontier == old(self).frontier,
            final(self).queried == old(self).queried,
            final(self).final_peers == old(self).final_peers,
            final(self).documents_found == old(self).documents_found,
            final(self).ongoing == old(self).ongoing,
            final(self).config == old(self).config,
            final(self).halted == old(self).halted,
            ({
                let d = dedup_results::<T>(
                    hit_models::<T>(results@),
                    old(self).seen_cids.deep_view(),
                );
                &&& final(self).seen_cids.deep_view() == d.1
                &&& hits@.len() == d.0.len()
                &&& forall|i: int|
                    0 <= i < hits@.len() ==> (#[trigger] hits@[i]).0.deep_view() == d.0[i].0
                        && hits@[i].1 == d.0[i].1 && hits@[i].2@ == from@
            }),
    {
        let fresh = dedup_fresh(&mut self.seen_cids, results);
        let mut fresh = fresh;
        let mut hits: Vec<(T, usize, PeerId)> = Vec::new();
        let n0 = fresh.len();
        let ghost fm = fresh@;
        proof {
            assert(fm.take(0int) =~= Seq::<(T, usize)>::empty());
            assert(fm.len() == n0);
        }
        let mut k: usize = 0;
        while fresh.len() > 0
            invariant
                k == fm.len() - fresh@.len(),
                0 <= k <= fm.len(),
                fm.len() <= usize::MAX,
                fresh@ =~= fm.skip(k as int),
                hits@.len() == k,
                forall|i: int|
                    0 <= i < k ==> (#[trigger] hits@[i]).0 == fm[i].0 && hits@[i].1 == fm[i].1
                        && hits@[i].2@ == from@,
            decreases fresh@.len(),
        {
            let e = fresh.remove(0);
            proof {
                assert(fm[k as int] == e);
                assert(fresh@ =~= fm.skip(k as int + 1));
            }
            hits.push((e.0, e.1, from.clone()));
            k += 1;
        }
        proof {
            let d = dedup_results::<T>(hit_models::<T>(results@), old(self).seen_cids.deep_view());
            assert forall|i: int| 0 <= i < hits@.len() implies (#[trigger] hits@[i]).0.deep_view()
                == d.0[i].0 && hits@[i].1 == d.0[i].1 && hits@[i].2@ == from@ by {
                assert(hits@[i].0 == fm[i].0 && hits@[i].1 == fm[i].1);
                assert(hit_models::<T>(fm)[i] == d.0[i]);
            }
        }
        hits
    }

    /// Adds the routes worth following to the frontier: providers
    /// with at least one address that have not been queried yet.
    pub fn push_routes(&mut self, routes: Vec<ProviderInfo>)
        ensures
            final(self).queried == old(self).queried,
            final(self).seen_cids == old(self).seen_cids,
            final(self).final_peers == old(self).final_peers,
            final(self).documents_found == old(self).documents_found,
            final(self).ongoing == old(self).ongoing,
            final(self).config == old(self).config,
            final(self).halted == old(self).halted,
            final(self).frontier@ == old(self).frontier@ + eligible_routes(
                routes@,
                peer_ids(old(self).queried@),
            ),
    {
        let mut routes = routes;
        let n0 = routes.len();
        let ghost full = routes@;
        proof {
            assert(full.len() == n0);
            reveal(Seq::filter);
            assert(full.take(0int) =~= Seq::<ProviderInfo>::empty());
            assert(eligible_routes(full.take(0int), peer_ids(self.queried@)) =~= Seq::<
                ProviderInfo,
            >::empty());
            assert(self.frontier@ + eligible_routes(full.take(0int), peer_ids(self.queried@))
                =~= self.frontier@);
        }
        let mut k: usize = 0;
        while routes.len() > 0
            invariant
                self.queried == old(self).queried,
                self.seen_cids == old(self).seen_cids,
                self.final_peers == old(self).final_peers,
                self.documents_found == old(self).documents_found,
                self.ongoing == old(self).ongoing,
                self.config == old(self).config,
                self.halted == old(self).halted,
                k == full.len() - routes@.len(),
                0 <= k <= full.len(),
                full.len() <= usize::MAX,
                routes@ =~= full.skip(k as int),
                self.frontier@ == old(self).frontier@ + eligible_routes(
                    full.take(k as int),
                    peer_ids(old(self).queried@),
                ),
            decreases routes@.len(),
        {
            let p = routes.remove(0);
            proof {
                assert(full[k as int] == p);
                assert(routes@ =~= full.skip(k as int + 1));
            }
            let has_addr = p.addresses.len() > 0;
            let fresh = !contains_peer(&self.queried, &p.peer_id);
            proof {
                assert(self.queried.deep_view() =~= peer_ids(self.queried@));
            }
            let ghost fb = self.frontier@;
            if has_addr && fresh {
                self.frontier.push(p);
            }
            proof {
                reveal(Seq::filter);
                let pred = |pp: ProviderInfo|
                    pp.addresses@.len() > 0 && !peer_ids(old(self).queried@).contains(pp.peer_id@);
                let ext = full.take(k as int + 1);
                assert(ext.drop_last() =~= full.take(k as int));
                assert(ext.last() == full[k as int]);
                if has_addr && fresh {
                    assert(self.frontier@ =~= old(self).frontier@ + eligible_routes(
                        ext,
                        peer_ids(old(self).queried@),
                    ));
                } else {
                    assert(!pred(full[k as int]));
                    assert(self.frontier@ =~= old(self).frontier@ + eligible_routes(
                        ext,
                        peer_ids(old(self).queried@),
                    ));
                }
            }
            k += 1;
        }
        proof {
            assert(full.take(full.len() as int) =~= full);
        }
    }

    /// Notes that the caller dropped its handle: discards the
    /// frontier so that no further request will ever start.
    pub fn handle_caller_gone(&mut self)
        ensures
            final(self).halted,
            final(self).frontier@.len() == 0,
            final(self).queried == old(self).queried,
            final(self).seen_cids == old(self).seen_cids,
            final(self).final_peers == old(self).final_peers,
            final(self).documents_found == old(self).documents_found,
            final(self).ongoing == old(self).ongoing,
            final(self).config == old(self).config,
    {
        self.halted = true;
        self.frontier = Vec::new();
    }
}


/// An element-for-element copy of a response's local matches.
fn clone_local_matches(v: &Vec<LocalMatch>) -> (r: Vec<LocalMatch>)
    ensures
        r.deep_view() == v.deep_view(),
{
    let mut r: Vec<LocalMatch> = Vec::new();
    let mut i: usize = 0;
    proof {
        assert(r.deep_view() =~~= v.deep_view().take(0int));
    }
    while i < v.len()
        invariant
            i <= v@.len(),
            r.deep_view() == v.deep_view().take(i as int),
        decreases v@.len() - i,
    {
        let ghost before = r.deep_view();
        let m = LocalMatch { query: v[i].query, result: clone_bytes(&v[i].result) };
        let ghost mv = m.deep_view();
        r.push(m);
        proof {
            assert(mv == v.deep_view()[i as int]);
            assert(r.deep_view() =~~= before.push(mv));
            assert(before.push(mv) =~~= v.deep_view().take(i + 1));
        }
        i += 1;
    }
    proof {
        assert(v.deep_view().take(v@.len() as int) =~~= v.deep_view());
    }
    r
}

/// The distances of a distant match widened to `usize`.
pub open spec fn widen_dists(s: Seq<Option<u16>>) -> Seq<Option<usize>> {
    Seq::new(
        s.len(),
        |i: int|
            match s[i] {
                Option::None => Option::<usize>::None,
                Option::Some(x) => Option::Some(x as usize),
            },
    )
}

/// The providers named by a response's distant matches: same peers,
/// same addresses, distances widened to `usize`.
fn providers_of_distant(v: &Vec<DistantMatch>) -> (r: Vec<ProviderInfo>)
    ensures
        r@.len() == v@.len(),
        forall|i: int|
            0 <= i < r@.len() ==> (#[trigger] r@[i]).peer_id@ == v@[i].peer_id@ && r@[i].queries@
                == widen_dists(v@[i].queries@) && r@[i].addresses.deep_view()
                == v@[i].addresses.deep_view(),
{
    let mut r: Vec<ProviderInfo> = Vec::new();
    let mut i: usize = 0;
    while i < v.len()
        invariant
            i <= v@.len(),
            r@.len() == i,
            forall|j: int|
                0 <= j < i ==> (#[trigger] r@[j]).peer_id@ == v@[j].peer_id@ && r@[j].queries@
                    == widen_dists(v@[j].queries@) && r@[j].addresses.deep_view()
                    == v@[j].addresses.deep_view(),
        decreases v@.len() - i,
    {
        let entry = &v[i];
        let mut dists: Vec<Option<usize>> = Vec::new();
        let mut q: usize = 0;
        while q < entry.queries.len()
            invariant
                q <= entry.queries@.len(),
                dists@.len() == q,
                forall|t: int|
                    0 <= t < q ==> #[trigger] dists@[t] == widen_dists(entry.queries@)[t],
            decreases entry.queries@.len() - q,
        {
            let d: Option<usize> = match entry.queries[q] {
                None => None,
                Some(x) => Some(x as usize),
            };
            dists.push(d);
            q += 1;
        }
        proof {
            assert(dists@ =~= widen_dists(entry.queries@));
        }
        let p = ProviderInfo {
            peer_id: PeerId { bytes: clone_bytes(&entry.peer_id.bytes) },
            queries: dists,
            addresses: clone_strings(&entry.addresses),
        };
        r.push(p);
        i += 1;
    }
    r
}

/// The peer ids a list of distant matches names.
pub open spec fn dm_ids(ds: Seq<DistantMatch>) -> Seq<Seq<u8>> {
    ds.map_values(|d: DistantMatch| d.peer_id@)
}

/// Every peer id any oracle entry can hand back.
pub open spec fn oracle_route_ids(o: Seq<(PeerId, ResultsPacket)>) -> Seq<Seq<u8>>
    decreases o.len(),
{
    if o.len() == 0 {
        Seq::empty()
    } else {
        dm_ids(o[0].1.distant_matches@) + oracle_route_ids(o.skip(1))
    }
}

/// The ids of one oracle entry's routes all appear among the ids the
/// oracle can hand back.
proof fn lemma_oracle_ids(o: Seq<(PeerId, ResultsPacket)>, idx: int)
    requires
        0 <= idx < o.len(),
    ensures
        forall|x: Seq<u8>|
            dm_ids(o[idx].1.distant_matches@).contains(x) ==> oracle_route_ids(o).contains(x),
    decreases o.len(),
{
    if idx == 0 {
        assert forall|x: Seq<u8>| dm_ids(o[0].1.distant_matches@).contains(x)
            implies oracle_route_ids(o).contains(x) by {
            let j = choose|j: int|
                0 <= j < dm_ids(o[0].1.distant_matches@).len() && dm_ids(
                    o[0].1.distant_matches@,
                )[j] == x;
            assert(oracle_route_ids(o)[j] == x);
        }
    } else {
        lemma_oracle_ids(o.skip(1), idx - 1);
        assert(o.skip(1)[idx - 1] == o[idx]);
        assert forall|x: Seq<u8>| dm_ids(o[idx].1.distant_matches@).contains(x)
            implies oracle_route_ids(o).contains(x) by {
            assert(oracle_route_ids(o.skip(1)).contains(x));
            let j = choose|j: int|
                0 <= j < oracle_route_ids(o.skip(1)).len() && oracle_route_ids(o.skip(1))[j] == x;
            assert(oracle_route_ids(o)[dm_ids(o[0].1.distant_matches@).len() + j] == x);
        }
    }
}

/// The position of the first oracle entry answering for `peer`, if
/// any.
fn oracle_lookup(oracle: &Vec<(PeerId, ResultsPacket)>, peer: &PeerId) -> (r: Option<usize>)
    ensures
        r matches Some(i) ==> i < oracle@.len() && oracle@[i as int].0@ == peer@ && (forall|j: int|
            0 <= j < i ==> (#[trigger] oracle@[j]).0@ != peer@),
        r is None ==> forall|j: int| 0 <= j < oracle@.len() ==> (#[trigger] oracle@[j]).0@ != peer@,
{
    let mut i: usize = 0;
    while i < oracle.len()
        invariant
            i <= oracle@.len(),
            forall|j: int| 0 <= j < i ==> (#[trigger] oracle@[j]).0@ != peer@,
        decreases oracle@.len() - i,
    {
        if peer_eq(&oracle[i].0, peer) {
            return Some(i);
        }
        i += 1;
    }
    None
}

/// The first oracle entry answering for `id`, if any.
pub open spec fn oracle_find(o: Seq<(PeerId, ResultsPacket)>, id: Seq<u8>) -> Option<ResultsPacket>
    decreases o.len(),
{
    if o.len() == 0 {
        None
    } else if o[0].0@ == id {
        Some(o[0].1)
    } else {
        oracle_find(o.skip(1), id)
    }
}

/// The decoded results the oracle returns for `id`: none when the
/// peer never answers.
pub open spec fn oracle_matches<T: SearchResult>(
    o: Seq<(PeerId, ResultsPacket)>,
    id: Seq<u8>,
) -> Seq<(T::V, usize)> {
    match oracle_find(o, id) {
        Option::None => Seq::empty(),
        Option::Some(pkt) => decode_matches::<T>(pkt.matches.deep_view()),
    }
}

/// True when the oracle answers for `id` with at least one match.
pub open spec fn oracle_has_matches(o: Seq<(PeerId, ResultsPacket)>, id: Seq<u8>) -> bool {
    match oracle_find(o, id) {
        Option::None => false,
        Option::Some(pkt) => pkt.matches@.len() > 0,
    }
}

/// How many of the listed peers the oracle answers with at least one
/// match.
pub open spec fn count_final(o: Seq<(PeerId, ResultsPacket)>, qs: Seq<Seq<u8>>) -> nat
    decreases qs.len(),
{
    if qs.len() == 0 {
        0
    } else {
        (if oracle_has_matches(o, qs[0]) {
            1nat
        } else {
            0nat
        }) + count_final(o, qs.skip(1))
    }
}

/// An entry at a first occurrence determines the oracle's answer.
proof fn lemma_oracle_find_first(o: Seq<(PeerId, ResultsPacket)>, id: Seq<u8>, idx: int)
    requires
        0 <= idx < o.len(),
        o[idx].0@ == id,
        forall|j: int| 0 <= j < idx ==> (#[trigger] o[j]).0@ != id,
    ensures
        oracle_find(o, id) == Some(o[idx].1),
    decreases idx,
{
    if idx == 0 {
    } else {
        assert(o.skip(1)[idx - 1] == o[idx]);
        assert forall|j: int| 0 <= j < idx - 1 implies (#[trigger] o.skip(1)[j]).0@ != id by {
            assert(o.skip(1)[j] == o[j + 1]);
        }
        lemma_oracle_find_first(o.skip(1), id, idx - 1);
    }
}

/// A peer that no entry answers for gets no answer.
proof fn lemma_oracle_find_none(o: Seq<(PeerId, ResultsPacket)>, id: Seq<u8>)
    requires
        forall|j: int| 0 <= j < o.len() ==> (#[trigger] o[j]).0@ != id,
    ensures
        oracle_find(o, id) is None,
    decreases o.len(),
{
    if o.len() > 0 {
        assert forall|j: int| 0 <= j < o.skip(1).len() implies (#[trigger] o.skip(1)[j]).0@
            != id by {
            assert(o.skip(1)[j] == o[j + 1]);
        }
        lemma_oracle_find_none(o.skip(1), id);
    }
}

/// Counting one more peer adds one exactly when the oracle answers it
/// with a match.
proof fn lemma_count_final_push(o: Seq<(PeerId, ResultsPacket)>, qs: Seq<Seq<u8>>, id: Seq<u8>)
    ensures
        count_final(o, qs.push(id)) == count_final(o, qs) + (if oracle_has_matches(o, id) {
            1nat
        } else {
            0nat
        }),
    decreases qs.len(),
{
    if qs.len() == 0 {
        assert(qs.push(id)[0] == id);
        assert(qs.push(id).skip(1) =~= Seq::<Seq<u8>>::empty());
        assert(count_final(o, qs.push(id)) == (if oracle_has_matches(o, id) {
            1nat
        } else {
            0nat
        }) + count_final(o, Seq::<Seq<u8>>::empty()));
        assert(count_final(o, Seq::<Seq<u8>>::empty()) == 0);
        assert(count_final(o, qs) == 0);
    } else {
        assert(qs.push(id)[0] == qs[0]);
        assert(qs.push(id).skip(1) =~= qs.skip(1).push(id));
        lemma_count_final_push(o, qs.skip(1), id);
        assert(count_final(o, qs.push(id)) == (if oracle_has_matches(o, qs[0]) {
            1nat
        } else {
            0nat
        }) + count_final(o, qs.skip(1).push(id)));
        assert(count_final(o, qs) == (if oracle_has_matches(o, qs[0]) {
            1nat
        } else {
            0nat
        }) + count_final(o, qs.skip(1)));
    }
}

/// One response stream per listed peer: its id with its decoded
/// results.
pub open spec fn remote_segments<T: SearchResult>(
    o: Seq<(PeerId, ResultsPacket)>,
    qs: Seq<Seq<u8>>,
) -> Seq<(Seq<u8>, Seq<(T::V, usize)>)> {
    Seq::new(qs.len(), |i: int| (qs[i], oracle_matches::<T>(o, qs[i])))
}

/// The hits a sequence of response streams emits: each stream's fresh
/// results in order, stamped with its provider, the seen content ids
/// threading through from stream to stream.
pub open spec fn emit_segments<T: SearchResult>(
    segs: Seq<(Seq<u8>, Seq<(T::V, usize)>)>,
    seen: Seq<Seq<u8>>,
) -> Seq<(T::V, usize, Seq<u8>)>
    decreases segs.len(),
{
    if segs.len() == 0 {
        Seq::empty()
    } else {
        let d = dedup_results::<T>(segs[0].1, seen);
        d.0.map_values(|e: (T::V, usize)| (e.0, e.1, segs[0].0)) + emit_segments::<T>(
            segs.skip(1),
            d.1,
        )
    }
}

/// The seen content ids after a sequence of response streams.
pub open spec fn seen_after<T: SearchResult>(
    segs: Seq<(Seq<u8>, Seq<(T::V, usize)>)>,
    seen: Seq<Seq<u8>>,
) -> Seq<Seq<u8>>
    decreases segs.len(),
{
    if segs.len() == 0 {
        seen
    } else {
        seen_after::<T>(segs.skip(1), dedup_results::<T>(segs[0].1, seen).1)
    }
}

/// Emitting one more stream appends its fresh results, stamped with
/// its provider, and the seen ids advance accordingly.
proof fn lemma_emit_push<T: SearchResult>(
    segs: Seq<(Seq<u8>, Seq<(T::V, usize)>)>,
    seg: (Seq<u8>, Seq<(T::V, usize)>),
    seen: Seq<Seq<u8>>,
)
    ensures
        ({
            let d = dedup_results::<T>(seg.1, seen_after::<T>(segs, seen));
            let before = emit_segments::<T>(segs, seen);
            let after = emit_segments::<T>(segs.push(seg), seen);
            &&& after.len() == before.len() + d.0.len()
            &&& forall|i: int| 0 <= i < before.len() ==> #[trigger] after[i] == before[i]
            &&& forall|i: int|
                0 <= i < d.0.len() ==> #[trigger] after[before.len() + i] == (
                d.0[i].0,
                d.0[i].1,
                seg.0,
            )
            &&& seen_after::<T>(segs.push(seg), seen) == d.1
        }),
    decreases segs.len(),
{
    if segs.len() == 0 {
        assert(segs.push(seg)[0] == seg);
        assert(segs.push(seg).skip(1) =~= Seq::<(Seq<u8>, Seq<(T::V, usize)>)>::empty());
        let d = dedup_results::<T>(seg.1, seen);
        assert(seen_after::<T>(segs, seen) == seen);
        assert(emit_segments::<T>(segs, seen) =~= Seq::<(T::V, usize, Seq<u8>)>::empty());
        assert(emit_segments::<T>(segs.push(seg), seen) =~= d.0.map_values(
            |e: (T::V, usize)| (e.0, e.1, seg.0),
        ) + emit_segments::<T>(segs.push(seg).skip(1), d.1));
        assert(emit_segments::<T>(segs.push(seg).skip(1), d.1) =~= Seq::<
            (T::V, usize, Seq<u8>),
        >::empty());
        assert(emit_segments::<T>(segs.push(seg), seen).len() == d.0.len());
        assert forall|i: int| 0 <= i < d.0.len() implies #[trigger] emit_segments::<T>(
            segs.push(seg),
            seen,
        )[i] == (d.0[i].0, d.0[i].1, seg.0) by {
            assert(emit_segments::<T>(segs.push(seg), seen)[i] == d.0.map_values(
                |e: (T::V, usize)| (e.0, e.1, seg.0),
            )[i]);
        }
        assert(seen_after::<T>(segs.push(seg), seen) == seen_after::<T>(
            segs.push(seg).skip(1),
            d.1,
        ));
        assert(seen_after::<T>(segs.push(seg).skip(1), d.1) == d.1);
    } else {
        assert(segs.push(seg)[0] == segs[0]);
        assert(segs.push(seg).skip(1) =~= segs.skip(1).push(seg));
        let d0 = dedup_results::<T>(segs[0].1, seen);
        lemma_emit_push::<T>(segs.skip(1), seg, d0.1);
        let head = d0.0.map_values(|e: (T::V, usize)| (e.0, e.1, segs[0].0));
        let before1 = emit_segments::<T>(segs.skip(1), d0.1);
        let after1 = emit_segments::<T>(segs.skip(1).push(seg), d0.1);
        assert(emit_segments::<T>(segs, seen) =~= head + before1);
        assert(emit_segments::<T>(segs.push(seg), seen) =~= head + after1);
        let d = dedup_results::<T>(seg.1, seen_after::<T>(segs.skip(1), d0.1));
        assert(seen_after::<T>(segs, seen) == seen_after::<T>(segs.skip(1), d0.1));
        assert(seen_after::<T>(segs.push(seg), seen) == seen_after::<T>(
            segs.skip(1).push(seg),
            d0.1,
        ));
        assert forall|i: int| 0 <= i < (head + before1).len() implies #[trigger] (head + after1)[i]
            == (head + before1)[i] by {
            if i >= head.len() {
                assert(after1[i - head.len()] == before1[i - head.len()]);
            }
        }
        assert forall|i: int| 0 <= i < d.0.len() implies #[trigger] (head + after1)[(head
            + before1).len() + i] == (d.0[i].0, d.0[i].1, seg.0) by {
            assert((head + after1)[head.len() + (before1.len() + i)] == after1[before1.len() + i]);
        }
    }
}

/// The hits of a search as a value: each decoded result with the
/// query it answered and the peer that provided it.
pub open spec fn hits_model<T: SearchResult>(s: Seq<(T, usize, PeerId)>) -> Seq<
    (T::V, usize, Seq<u8>),
> {
    s.map_values(|e: (T, usize, PeerId)| (e.0.deep_view(), e.1, e.2@))
}

/// The results our own store yields for every query from `q` onward,
/// each paired with its query index.
pub open spec fn local_results<const N: usize, S: Store<N>>(
    store: S,
    qs: Seq<(Seq<Seq<char>>, usize)>,
    q: int,
) -> Seq<(<S::SearchResult as DeepView>::V, usize)>
    decreases qs.len() - q,
{
    if q < 0 || q >= qs.len() {
        Seq::empty()
    } else {
        store.search_spec(qs[q].0, qs[q].1).map_values(
            |m: <S::SearchResult as DeepView>::V| (m, q as usize),
        ) + local_results::<N, S>(store, qs, q + 1)
    }
}

/// The hashed form of a query group: each query's flat position list
/// with its match threshold.
pub open spec fn hashed_queries<const N: usize, S: Store<N>>(
    qs: Seq<(Seq<Seq<char>>, usize)>,
) -> Seq<(Seq<usize>, usize)> {
    Seq::new(qs.len(), |q: int| (crate::handler::flat_hash::<N, S>(qs[q].0), qs[q].1))
}

/// True when the peer with id `x` was already queried or still waits
/// on the frontier.
pub open spec fn reachable(queried: Seq<PeerId>, frontier: Seq<ProviderInfo>, x: Seq<u8>) -> bool {
    peer_ids(queried).contains(x) || provider_ids(frontier).contains(x)
}

/// Runs a whole search to completion against a fixed set of
/// responders: first the local scan, then the frontier fan-out, one
/// answer per queried peer. Peers absent from `oracle` count as
/// unresponsive. The hits are exactly the content-id-deduplicated
/// stream of the local results followed by each queried peer's
/// decoded results, each stamped with its provider; the counters
/// report how many peers were queried and how many answered with a
/// match. The loop provably terminates: every queried peer is queried
/// once, and every candidate comes from the seed routes or from an
/// oracle answer.
#[verifier::rlimit(100)]
pub fn run_search<const N: usize, S: Store<N>>(
    db: &Db<N, S>,
    our_peer_id: &PeerId,
    queries: &SearchQueries,
    config: SearchConfig,
    oracle: &Vec<(PeerId, ResultsPacket)>,
) -> (r: SearchResults<S::SearchResult>)
    requires
        db.wf(),
        config.req_limit >= 1,
    ensures
        r.final_peers <= r.queried_peers,
        exists|qs: Seq<Seq<u8>>|
            {
                &&& qs.no_duplicates()
                &&& r.queried_peers == qs.len()
                &&& r.final_peers == #[trigger] count_final(oracle@, qs)
                &&& hits_model(r.hits@) == emit_segments::<S::SearchResult>(
                    seq![
                        (
                            our_peer_id@,
                            local_results::<N, S>(db.store, queries.inner.deep_view(), 0),
                        ),
                    ] + remote_segments::<S::SearchResult>(oracle@, qs),
                    Seq::empty(),
                )
                &&& forall|i: int|
                    0 <= i < qs.len() ==> routes_spec(
                        db.filters@,
                        hashed_queries::<N, S>(queries.inner.deep_view()),
                    ).map_values(|e: (Seq<u8>, Seq<Option<usize>>)| e.0).contains(#[trigger] qs[i])
                        || oracle_route_ids(oracle@).contains(qs[i])
                &&& forall|t: int|
                    0 <= t < routes_spec(
                        db.filters@,
                        hashed_queries::<N, S>(queries.inner.deep_view()),
                    ).len() ==> qs.contains(
                        (#[trigger] routes_spec(
                            db.filters@,
                            hashed_queries::<N, S>(queries.inner.deep_view()),
                        )[t]).0,
                    )
                &&& forall|i: int|
                    0 <= i < qs.len() ==> (#[trigger] oracle_find(oracle@, qs[i]) matches Some(pkt)
                        ==> forall|j: int|
                        0 <= j < pkt.distant_matches@.len() && (
                        #[trigger] pkt.distant_matches@[j]).addresses@.len() > 0 ==> qs.contains(
                            pkt.distant_matches@[j].peer_id@,
                        ))
            },
{
    let ghost qv = queries.inner.deep_view();
    let ghost la = local_results::<N, S>(db.store, qv, 0);
    let ghost base = seq![(our_peer_id@, la)];
    let mut hits: Vec<(S::SearchResult, usize, PeerId)> = Vec::new();
    // The local scan: query our own store, emitting each document
    // once, and hash the queries for the router.
    let mut hashed: Vec<(Vec<usize>, usize)> = Vec::new();
    let mut engine = SearchEngine::new(config, Vec::new());
    let mut q: usize = 0;
    proof {
        assert(engine.seen_cids.deep_view() =~~= Seq::<Seq<u8>>::empty());
        assert(qv.skip(0int) =~= qv);
        crate::handler::lemma_dedup_append::<S::SearchResult>(Seq::empty(), la, Seq::empty());
        assert(Seq::empty() + la =~= la);
    }
    while q < queries.inner.len()
        invariant
            db.wf(),
            engine.queried@.len() == 0,
            engine.final_peers == 0,
            engine.ongoing == 0,
            engine.frontier@.len() == 0,
            !engine.halted,
            engine.config.req_limit == config.req_limit,
            q <= queries.inner@.len(),
            qv == queries.inner.deep_view(),
            qv.len() == queries.inner@.len(),
            hashed@.len() == q,
            forall|t: int|
                0 <= t < q ==> (#[trigger] hashed@[t]).0@ == crate::handler::flat_hash::<N, S>(
                    qv[t].0,
                ) && hashed@[t].1 == qv[t].1,
            ({
                let dd = dedup_results::<S::SearchResult>(la, Seq::empty());
                let rec = dedup_results::<S::SearchResult>(
                    local_results::<N, S>(db.store, qv, q as int),
                    engine.seen_cids.deep_view(),
                );
                &&& dd.1 == rec.1
                &&& dd.0.len() == hits@.len() + rec.0.len()
                &&& forall|i: int|
                    0 <= i < hits@.len() ==> (#[trigger] hits@[i]).0.deep_view() == dd.0[i].0
                        && hits@[i].1 == dd.0[i].1 && hits@[i].2@ == our_peer_id@
                &&& forall|i: int|
                    0 <= i < rec.0.len() ==> #[trigger] dd.0[hits@.len() + i] == rec.0[i]
            }),
        decreases queries.inner@.len() - q,
    {
        let results = db.store().search(&queries.inner[q].0, queries.inner[q].1);
        let ghost rs_models = db.store.search_spec(qv[q as int].0, qv[q as int].1);
        let ghost paired_target = rs_models.map_values(
            |m: <S::SearchResult as DeepView>::V| (m, q as usize),
        );
        proof {
            assert(queries.inner@[q as int].0.deep_view() == qv[q as int].0);
            assert(queries.inner@[q as int].1 == qv[q as int].1);
            assert(results.deep_view() =~= rs_models);
        }
        let paired = crate::handler::pair_results::<N, S>(results, q);
        proof {
            assert(hit_models::<S::SearchResult>(paired@) == paired_target);
        }
        let ghost seen_head = engine.seen_cids.deep_view();
        let ghost hits_head = hits@;
        let mut got = engine.dedup_hits(paired, our_peer_id);
        let ghost got_v = got@;
        hits.append(&mut got);
        let positions = crate::handler::hash_words::<N, S>(&queries.inner[q].0);
        hashed.push((positions, queries.inner[q].1));
        q += 1;
        proof {
            assert(local_results::<N, S>(db.store, qv, q - 1) == paired_target + local_results::<
                N,
                S,
            >(db.store, qv, q as int));
            crate::handler::lemma_dedup_append::<S::SearchResult>(
                paired_target,
                local_results::<N, S>(db.store, qv, q as int),
                seen_head,
            );
            let dd = dedup_results::<S::SearchResult>(la, Seq::empty());
            let kept = dedup_results::<S::SearchResult>(paired_target, seen_head);
            assert(hits@ =~= hits_head + got_v);
            assert forall|i: int| 0 <= i < hits@.len() implies (#[trigger] hits@[i]).0.deep_view()
                == dd.0[i].0 && hits@[i].1 == dd.0[i].1 && hits@[i].2@ == our_peer_id@ by {
                if i < hits_head.len() {
                    assert(hits@[i] == hits_head[i]);
                } else {
                    let gi = i - hits_head.len();
                    assert(hits@[i] == got_v[gi]);
                    assert(dd.0[hits_head.len() + gi] == kept.0[gi]);
                }
            }
            let rec_new = dedup_results::<S::SearchResult>(
                local_results::<N, S>(db.store, qv, q as int),
                engine.seen_cids.deep_view(),
            );
            assert forall|i: int| 0 <= i < rec_new.0.len() implies #[trigger] dd.0[hits@.len() + i]
                == rec_new.0[i] by {
                assert(dd.0[hits_head.len() + (kept.0.len() + i)] == (kept.0 + rec_new.0)[kept.0.len()
                    + i]);
            }
        }
    }
    proof {
        assert(local_results::<N, S>(db.store, qv, q as int) =~= Seq::<
            (<S::SearchResult as DeepView>::V, usize),
        >::empty());
        let dd = dedup_results::<S::SearchResult>(la, Seq::empty());
        assert(base.skip(1) =~= Seq::<
            (Seq<u8>, Seq<(<S::SearchResult as DeepView>::V, usize)>),
        >::empty());
        assert(emit_segments::<S::SearchResult>(base, Seq::empty()) == dd.0.map_values(
            |e: (<S::SearchResult as DeepView>::V, usize)| (e.0, e.1, our_peer_id@),
        ) + emit_segments::<S::SearchResult>(base.skip(1), dd.1));
        assert(emit_segments::<S::SearchResult>(base.skip(1), dd.1) =~= Seq::<
            (<S::SearchResult as DeepView>::V, usize, Seq<u8>),
        >::empty());
        assert(hits_model(hits@) =~= emit_segments::<S::SearchResult>(base, Seq::empty()));
        assert(base[0] == (our_peer_id@, la));
        assert(seen_after::<S::SearchResult>(base, Seq::empty()) == seen_after::<S::SearchResult>(
            base.skip(1),
            dd.1,
        ));
        assert(seen_after::<S::SearchResult>(base.skip(1), dd.1) == dd.1);
        assert(engine.seen_cids.deep_view() == dd.1);
    }
    // Seed the frontier from our routing table.
    let mut routes0 = db.search_routes(&hashed);
    let ghost routes_full = routes0@;
    let ghost rmodel = crate::db::routes_model(routes_full);
    let ghost seed_ids = rmodel.map_values(|e: (Seq<u8>, Seq<Option<usize>>)| e.0);
    proof {
        assert(crate::db::hq_model(hashed@) =~= hashed_queries::<N, S>(qv));
        assert(rmodel == routes_spec(db.filters@, hashed_queries::<N, S>(qv)));
    }
    let mut seeds: Vec<ProviderInfo> = Vec::new();
    let sn = routes0.len();
    let mut sk: usize = 0;
    proof {
        assert(routes_full.len() == sn);
    }
    while routes0.len() > 0
        invariant
            sk == routes_full.len() - routes0@.len(),
            0 <= sk <= routes_full.len(),
            routes_full.len() <= usize::MAX,
            routes0@ =~= routes_full.skip(sk as int),
            crate::db::routes_model(routes_full) == rmodel,
            seeds@.len() == sk,
            forall|t: int| 0 <= t < sk ==> (#[trigger] seeds@[t]).peer_id@ == rmodel[t].0,
        decreases routes0@.len(),
    {
        let (peer, dists) = routes0.remove(0);
        proof {
            assert(routes_full[sk as int] == (peer, dists));
            assert(routes0@ =~= routes_full.skip(sk as int + 1));
            assert(rmodel[sk as int] == (peer@, dists@));
        }
        seeds.push(ProviderInfo { peer_id: peer, queries: dists, addresses: Vec::new() });
        sk += 1;
    }
    engine.frontier = seeds;
    let ghost universe = engine.frontier@.map_values(|p: ProviderInfo| p.peer_id@)
        + oracle_route_ids(oracle@);
    proof {
        assert(engine.frontier@.map_values(|p: ProviderInfo| p.peer_id@) =~= seed_ids);
        assert forall|i: int| 0 <= i < engine.frontier@.len() implies universe.contains(
            (#[trigger] engine.frontier@[i]).peer_id@,
        ) by {
            assert(universe[i] == engine.frontier@[i].peer_id@);
        }
        assert forall|x: Seq<u8>| oracle_route_ids(oracle@).contains(x) implies universe.contains(
            x,
        ) by {
            let t = choose|t: int|
                0 <= t < oracle_route_ids(oracle@).len() && oracle_route_ids(oracle@)[t] == x;
            assert(universe[engine.frontier@.map_values(|p: ProviderInfo| p.peer_id@).len() + t]
                == x);
        }
        assert(peer_ids(engine.queried@) =~= Seq::<Seq<u8>>::empty());
        assert(remote_segments::<S::SearchResult>(oracle@, peer_ids(engine.queried@)) =~= Seq::<
            (Seq<u8>, Seq<(<S::SearchResult as DeepView>::V, usize)>),
        >::empty());
        assert(base + remote_segments::<S::SearchResult>(oracle@, peer_ids(engine.queried@))
            =~= base);
        assert(count_final(oracle@, peer_ids(engine.queried@)) == 0);
        assert forall|t: int| 0 <= t < seed_ids.len() implies reachable(
            engine.queried@,
            engine.frontier@,
            #[trigger] seed_ids[t],
        ) by {
            assert(provider_ids(engine.frontier@)[t] == seed_ids[t]);
        }
    }
    // The fan-out loop: pop the best candidates, ask each once, feed
    // answers back into the frontier.
    while engine.frontier.len() > 0
        invariant
            db.wf(),
            !engine.halted,
            engine.ongoing == 0,
            engine.config.req_limit == config.req_limit,
            config.req_limit >= 1,
            distinct_peers(engine.queried@),
            engine.final_peers <= engine.queried@.len(),
            forall|i: int|
                0 <= i < engine.frontier@.len() ==> universe.contains(
                    (#[trigger] engine.frontier@[i]).peer_id@,
                ),
            forall|i: int|
                0 <= i < engine.queried@.len() ==> universe.contains(
                    (#[trigger] engine.queried@[i])@,
                ),
            engine.queried@.len() <= universe.len(),
            forall|x: Seq<u8>| oracle_route_ids(oracle@).contains(x) ==> universe.contains(x),
            hits_model(hits@) == emit_segments::<S::SearchResult>(
                base + remote_segments::<S::SearchResult>(oracle@, peer_ids(engine.queried@)),
                Seq::empty(),
            ),
            engine.seen_cids.deep_view() == seen_after::<S::SearchResult>(
                base + remote_segments::<S::SearchResult>(oracle@, peer_ids(engine.queried@)),
                Seq::empty(),
            ),
            engine.final_peers == count_final(oracle@, peer_ids(engine.queried@)),
            forall|t: int|
                0 <= t < seed_ids.len() ==> reachable(
                    engine.queried@,
                    engine.frontier@,
                    #[trigger] seed_ids[t],
                ),
            forall|i: int|
                0 <= i < engine.queried@.len() ==> (#[trigger] oracle_find(
                    oracle@,
                    engine.queried@[i]@,
                ) matches Some(pkt) ==> forall|j: int|
                    0 <= j < pkt.distant_matches@.len() && (
                    #[trigger] pkt.distant_matches@[j]).addresses@.len() > 0 ==> reachable(
                        engine.queried@,
                        engine.frontier@,
                        pkt.distant_matches@[j].peer_id@,
                    )),
        decreases universe.len() - engine.queried@.len(), engine.frontier@.len(),
    {
        let ghost q_head = engine.queried@;
        let ghost f_head = engine.frontier@;
        let mut batch = engine.start_requests();
        let ghost batch0 = batch@;
        let ghost f_start = engine.frontier@;
        let ghost qids = peer_ids(engine.queried@);
        proof {
            assert(qids == peer_ids(q_head) + provider_ids(batch0));
            assert(engine.queried@.len() == q_head.len() + batch@.len()) by {
                assert(peer_ids(engine.queried@).len() == engine.queried@.len());
                assert(peer_ids(q_head).len() == q_head.len());
                assert(provider_ids(batch@).len() == batch@.len());
            }
            assert forall|i: int| 0 <= i < engine.queried@.len() implies universe.contains(
                (#[trigger] engine.queried@[i])@,
            ) by {
                assert(peer_ids(engine.queried@)[i] == engine.queried@[i]@);
                if i < q_head.len() {
                    assert(peer_ids(q_head)[i] == q_head[i]@);
                    assert(engine.queried@[i]@ == q_head[i]@);
                } else {
                    let bi = i - q_head.len();
                    assert(peer_ids(engine.queried@)[i] == provider_ids(batch@)[bi]);
                    assert(provider_ids(batch@)[bi] == batch@[bi].peer_id@);
                    assert(f_head.contains(batch@[bi]));
                    let j = choose|j: int| 0 <= j < f_head.len() && f_head[j] == batch@[bi];
                    assert(universe.contains(f_head[j].peer_id@));
                }
            }
            assert(engine.final_peers + batch@.len() <= engine.queried@.len());
            assert forall|i: int| 0 <= i < engine.frontier@.len() implies universe.contains(
                (#[trigger] engine.frontier@[i]).peer_id@,
            ) by {
                assert(engine.frontier@.contains(engine.frontier@[i]));
                assert(f_head.contains(engine.frontier@[i]));
                let j = choose|j: int|
                    0 <= j < f_head.len() && f_head[j] == engine.frontier@[i];
                assert(universe.contains(f_head[j].peer_id@));
            }
            assert(qids.take(q_head.len() as int) =~= peer_ids(q_head));
            assert(base + remote_segments::<S::SearchResult>(oracle@, qids.take(
                q_head.len() + batch0.len() - batch@.len(),
            )) =~= base + remote_segments::<S::SearchResult>(oracle@, peer_ids(q_head)));
            broadcast use vstd::seq_lib::group_to_multiset_ensures;

            let dropped = choose|dropped: Multiset<ProviderInfo>|
                (#[trigger] engine.frontier@.to_multiset().add(batch@.to_multiset()).add(dropped))
                    == f_head.to_multiset() && (forall|x: ProviderInfo|
                    dropped.count(x) > 0 ==> peer_ids(engine.queried@).contains(x.peer_id@));
            assert forall|x: Seq<u8>| #[trigger] reachable(q_head, f_head, x) implies reachable(
                engine.queried@,
                engine.frontier@,
                x,
            ) by {
                if peer_ids(q_head).contains(x) {
                    let t = choose|t: int|
                        0 <= t < peer_ids(q_head).len() && peer_ids(q_head)[t] == x;
                    assert(qids[t] == x);
                    assert(peer_ids(engine.queried@).contains(x));
                } else {
                    let t = choose|t: int|
                        0 <= t < provider_ids(f_head).len() && provider_ids(f_head)[t] == x;
                    let e = f_head[t];
                    assert(provider_ids(f_head)[t] == e.peer_id@);
                    assert(f_head.contains(e));
                    assert(f_head.to_multiset().count(e) > 0);
                    assert(engine.frontier@.to_multiset().add(batch@.to_multiset()).add(
                        dropped,
                    ).count(e) > 0);
                    if engine.frontier@.to_multiset().count(e) > 0 {
                        assert(engine.frontier@.contains(e));
                        let u = choose|u: int|
                            0 <= u < engine.frontier@.len() && engine.frontier@[u] == e;
                        assert(provider_ids(engine.frontier@)[u] == x);
                    } else if batch@.to_multiset().count(e) > 0 {
                        assert(batch@.contains(e));
                        let u = choose|u: int| 0 <= u < batch@.len() && batch@[u] == e;
                        assert(provider_ids(batch@)[u] == x);
                        assert(qids[q_head.len() + u] == x);
                        assert(peer_ids(engine.queried@).contains(x));
                    } else {
                        assert(dropped.count(e) > 0);
                        assert(peer_ids(engine.queried@).contains(x));
                    }
                }
            }
            assert forall|t: int| 0 <= t < seed_ids.len() implies reachable(
                engine.queried@,
                engine.frontier@,
                #[trigger] seed_ids[t],
            ) by {
                assert(reachable(q_head, f_head, seed_ids[t]));
            }
            assert forall|i: int|
                0 <= i < q_head.len() implies (#[trigger] oracle_find(
                oracle@,
                engine.queried@[i]@,
            ) matches Some(pkt) ==> forall|j: int|
                0 <= j < pkt.distant_matches@.len() && (
                #[trigger] pkt.distant_matches@[j]).addresses@.len() > 0 ==> reachable(
                    engine.queried@,
                    engine.frontier@,
                    pkt.distant_matches@[j].peer_id@,
                )) by {
                assert(qids[i] == peer_ids(q_head)[i]);
                assert(engine.queried@[i]@ == q_head[i]@);
                match oracle_find(oracle@, q_head[i]@) {
                    Option::Some(pkt) => {
                        assert forall|j: int|
                            0 <= j < pkt.distant_matches@.len() && (
                            #[trigger] pkt.distant_matches@[j]).addresses@.len() > 0
                            implies reachable(
                            engine.queried@,
                            engine.frontier@,
                            pkt.distant_matches@[j].peer_id@,
                        ) by {
                            assert(reachable(q_head, f_head, pkt.distant_matches@[j].peer_id@));
                        }
                    },
                    Option::None => {},
                }
            }
        }
        while batch.len() > 0
            invariant
                db.wf(),
                !engine.halted,
                engine.ongoing == batch@.len(),
                engine.config.req_limit == config.req_limit,
                engine.queried@.len() == q_head.len() + batch0.len(),
                batch@.len() <= batch0.len(),
                batch@ =~= batch0.skip(batch0.len() - batch@.len()),
                qids == peer_ids(engine.queried@),
                qids == peer_ids(q_head) + provider_ids(batch0),
                batch0.len() == 0 ==> engine.frontier@.len() < f_head.len(),
                distinct_peers(engine.queried@),
                engine.final_peers + batch@.len() <= engine.queried@.len(),
                forall|i: int|
                    0 <= i < engine.frontier@.len() ==> universe.contains(
                        (#[trigger] engine.frontier@[i]).peer_id@,
                    ),
                forall|i: int|
                    0 <= i < engine.queried@.len() ==> universe.contains(
                        (#[trigger] engine.queried@[i])@,
                    ),
                forall|x: Seq<u8>| oracle_route_ids(oracle@).contains(x) ==> universe.contains(
                    x,
                ),
                hits_model(hits@) == emit_segments::<S::SearchResult>(
                    base + remote_segments::<S::SearchResult>(oracle@, qids.take(
                        q_head.len() + batch0.len() - batch@.len(),
                    )),
                    Seq::empty(),
                ),
                engine.seen_cids.deep_view() == seen_after::<S::SearchResult>(
                    base + remote_segments::<S::SearchResult>(oracle@, qids.take(
                        q_head.len() + batch0.len() - batch@.len(),
                    )),
                    Seq::empty(),
                ),
                engine.final_peers == count_final(oracle@, qids.take(
                    q_head.len() + batch0.len() - batch@.len(),
                )),
                forall|t: int|
                    0 <= t < seed_ids.len() ==> reachable(
                        engine.queried@,
                        engine.frontier@,
                        #[trigger] seed_ids[t],
                    ),
                forall|i: int|
                    0 <= i < q_head.len() + batch0.len() - batch@.len() ==> (
                    #[trigger] oracle_find(oracle@, engine.queried@[i]@) matches Some(pkt)
                        ==> forall|j: int|
                        0 <= j < pkt.distant_matches@.len() && (
                        #[trigger] pkt.distant_matches@[j]).addresses@.len() > 0 ==> reachable(
                            engine.queried@,
                            engine.frontier@,
                            pkt.distant_matches@[j].peer_id@,
                        )),
            decreases batch@.len(),
        {
            let ghost c = batch0.len() - batch@.len();
            let ghost processed_pre = qids.take(q_head.len() + c);
            let p = batch.remove(0);
            let ghost pid = p.peer_id@;
            proof {
                assert(batch0.skip(c)[0] == batch0[c]);
                assert(p == batch0[c]);
                assert(batch@ =~= batch0.skip(c + 1));
                assert(qids[q_head.len() + c] == provider_ids(batch0)[c]);
                assert(provider_ids(batch0)[c] == batch0[c].peer_id@);
                assert(qids.take(q_head.len() + c + 1) =~= processed_pre.push(pid));
            }
            let ghost segs_pre = base + remote_segments::<S::SearchResult>(
                oracle@,
                processed_pre,
            );
            let ghost segs_post = base + remote_segments::<S::SearchResult>(
                oracle@,
                processed_pre.push(pid),
            );
            let ghost seg = (pid, oracle_matches::<S::SearchResult>(oracle@, pid));
            proof {
                assert(remote_segments::<S::SearchResult>(oracle@, processed_pre.push(pid))
                    =~= remote_segments::<S::SearchResult>(oracle@, processed_pre).push(seg));
                assert(segs_post =~= segs_pre.push(seg));
                lemma_emit_push::<S::SearchResult>(segs_pre, seg, Seq::empty());
                lemma_count_final_push(oracle@, processed_pre, pid);
            }
            match oracle_lookup(oracle, &p.peer_id) {
                None => {
                    proof {
                        lemma_oracle_find_none(oracle@, pid);
                        assert(seg.1 =~= Seq::<(<S::SearchResult as DeepView>::V, usize)>::empty());
                        let seen_now = seen_after::<S::SearchResult>(segs_pre, Seq::empty());
                        assert(dedup_results::<S::SearchResult>(seg.1, seen_now) == (
                            Seq::<(<S::SearchResult as DeepView>::V, usize)>::empty(),
                            seen_now,
                        ));
                        assert(hits_model(hits@) =~= emit_segments::<S::SearchResult>(
                            segs_post,
                            Seq::empty(),
                        ));
                        assert(!oracle_has_matches(oracle@, pid));
                        assert(engine.queried@[q_head.len() + c]@ == pid);
                    }
                    engine.handle_timeout();
                },
                Some(idx) => {
                    let matches = clone_local_matches(&oracle[idx].1.matches);
                    let routes = providers_of_distant(&oracle[idx].1.distant_matches);
                    let had_matches = matches.len() > 0;
                    proof {
                        lemma_oracle_find_first(oracle@, pid, idx as int);
                        assert(oracle_find(oracle@, pid) == Some(oracle@[idx as int].1));
                        assert(matches.deep_view() == oracle@[idx as int].1.matches.deep_view());
                        assert(matches.deep_view().len() == matches@.len());
                        assert(oracle@[idx as int].1.matches.deep_view().len() == oracle@[
                            idx as int].1.matches@.len());
                        assert(had_matches == oracle_has_matches(oracle@, pid));
                    }
                    let decoded = decode_results::<S::SearchResult>(matches);
                    let dlen = decoded.len();
                    proof {
                        assert(hit_models::<S::SearchResult>(decoded@) == oracle_matches::<
                            S::SearchResult,
                        >(oracle@, pid));
                    }
                    let ghost seen_head2 = engine.seen_cids.deep_view();
                    let ghost hits_head2 = hits@;
                    let mut got = engine.dedup_hits(decoded, &p.peer_id);
                    let ghost got_v = got@;
                    hits.append(&mut got);
                    proof {
                        let d = dedup_results::<S::SearchResult>(seg.1, seen_head2);
                        assert(hits@ =~= hits_head2 + got_v);
                        assert(engine.seen_cids.deep_view() == d.1);
                        assert forall|i: int|
                            0 <= i < hits_model(hits@).len() implies #[trigger] hits_model(
                            hits@,
                        )[i] == emit_segments::<S::SearchResult>(segs_post, Seq::empty())[i] by {
                            assert(hits_model(hits@)[i] == (
                                hits@[i].0.deep_view(),
                                hits@[i].1,
                                hits@[i].2@,
                            ));
                            if i < hits_head2.len() {
                                assert(hits@[i] == hits_head2[i]);
                                assert(hits_model(hits_head2)[i] == emit_segments::<
                                    S::SearchResult,
                                >(segs_pre, Seq::empty())[i]);
                            } else {
                                let gi = i - hits_head2.len();
                                assert(hits@[i] == got_v[gi]);
                                assert(emit_segments::<S::SearchResult>(segs_post, Seq::empty())[
                                    hits_head2.len() + gi] == (d.0[gi].0, d.0[gi].1, seg.0));
                            }
                        }
                        assert(hits_model(hits@).len() == emit_segments::<S::SearchResult>(
                            segs_post,
                            Seq::empty(),
                        ).len());
                        assert(hits_model(hits@) =~= emit_segments::<S::SearchResult>(
                            segs_post,
                            Seq::empty(),
                        ));
                    }
                    let ql = engine.queried.len();
                    proof {
                        assert(engine.queried@.len() == ql);
                        assert(engine.final_peers + (batch@.len() + 1) <= engine.queried@.len());
                        assert(engine.final_peers < usize::MAX);
                    }
                    engine.note_response(had_matches, dlen);
                    proof {
                        assert(engine.final_peers == count_final(oracle@, processed_pre.push(pid)));
                    }
                    let ghost f_before = engine.frontier@;
                    let ghost routes_v = routes@;
                    engine.push_routes(routes);
                    proof {
                        lemma_oracle_ids(oracle@, idx as int);
                        assert forall|i: int|
                            0 <= i < engine.frontier@.len() implies universe.contains(
                            (#[trigger] engine.frontier@[i]).peer_id@,
                        ) by {
                            if i < f_before.len() {
                                assert(engine.frontier@[i] == f_before[i]);
                            } else {
                                let e = engine.frontier@[i];
                                assert(eligible_routes(
                                    routes_v,
                                    peer_ids(engine.queried@),
                                ).contains(e)) by {
                                    let k = i - f_before.len();
                                    assert(engine.frontier@[i] == eligible_routes(
                                        routes_v,
                                        peer_ids(engine.queried@),
                                    )[k]);
                                }
                                routes_v.lemma_filter_contains_rev(
                                    |pp: ProviderInfo|
                                        pp.addresses@.len() > 0 && !peer_ids(
                                            engine.queried@,
                                        ).contains(pp.peer_id@),
                                    e,
                                );
                                let j = choose|j: int|
                                    0 <= j < routes_v.len() && routes_v[j] == e;
                                assert(dm_ids(oracle@[idx as int].1.distant_matches@)[j]
                                    == e.peer_id@);
                                assert(dm_ids(oracle@[idx as int].1.distant_matches@).contains(
                                    e.peer_id@,
                                ));
                                assert(oracle_route_ids(oracle@).contains(e.peer_id@));
                                assert(universe.contains(e.peer_id@));
                            }
                        }
                        assert(engine.frontier@ == f_before + eligible_routes(
                            routes_v,
                            peer_ids(engine.queried@),
                        ));
                        assert forall|x: Seq<u8>| #[trigger] reachable(
                            engine.queried@,
                            f_before,
                            x,
                        ) implies reachable(engine.queried@, engine.frontier@, x) by {
                            if provider_ids(f_before).contains(x) {
                                let t = choose|t: int|
                                    0 <= t < provider_ids(f_before).len() && provider_ids(
                                        f_before,
                                    )[t] == x;
                                assert(engine.frontier@[t] == f_before[t]);
                                assert(provider_ids(engine.frontier@)[t] == x);
                            }
                        }
                        assert forall|t: int| 0 <= t < seed_ids.len() implies reachable(
                            engine.queried@,
                            engine.frontier@,
                            #[trigger] seed_ids[t],
                        ) by {
                            assert(reachable(engine.queried@, f_before, seed_ids[t]));
                        }
                        assert forall|i: int|
                            0 <= i < q_head.len() + c implies (#[trigger] oracle_find(
                            oracle@,
                            engine.queried@[i]@,
                        ) matches Some(pkt2) ==> forall|j: int|
                            0 <= j < pkt2.distant_matches@.len() && (
                            #[trigger] pkt2.distant_matches@[j]).addresses@.len() > 0
                                ==> reachable(
                                engine.queried@,
                                engine.frontier@,
                                pkt2.distant_matches@[j].peer_id@,
                            )) by {
                            match oracle_find(oracle@, engine.queried@[i]@) {
                                Option::Some(pkt2) => {
                                    assert forall|j: int|
                                        0 <= j < pkt2.distant_matches@.len() && (
                                        #[trigger] pkt2.distant_matches@[j]).addresses@.len() > 0
                                        implies reachable(
                                        engine.queried@,
                                        engine.frontier@,
                                        pkt2.distant_matches@[j].peer_id@,
                                    ) by {
                                        assert(reachable(
                                            engine.queried@,
                                            f_before,
                                            pkt2.distant_matches@[j].peer_id@,
                                        ));
                                    }
                                },
                                Option::None => {},
                            }
                        }
                        let pkt = oracle@[idx as int].1;
                        assert(engine.queried@[q_head.len() + c]@ == pid);
                        assert(oracle_find(oracle@, pid) == Some(pkt));
                        assert forall|j: int|
                            0 <= j < pkt.distant_matches@.len() && (
                            #[trigger] pkt.distant_matches@[j]).addresses@.len() > 0
                            implies reachable(
                            engine.queried@,
                            engine.frontier@,
                            pkt.distant_matches@[j].peer_id@,
                        ) by {
                            let id = pkt.distant_matches@[j].peer_id@;
                            assert(routes_v[j].peer_id@ == id);
                            assert(routes_v[j].addresses.deep_view()
                                == pkt.distant_matches@[j].addresses.deep_view());
                            assert(pkt.distant_matches@[j].addresses.deep_view().len() == pkt.distant_matches@[
                                j].addresses@.len());
                            assert(routes_v[j].addresses@.len() == routes_v[
                                j].addresses.deep_view().len());
                            assert(routes_v[j].addresses@.len() > 0);
                            if !peer_ids(engine.queried@).contains(id) {
                                routes_v.lemma_filter_contains(
                                    |pp: ProviderInfo|
                                        pp.addresses@.len() > 0 && !peer_ids(
                                            engine.queried@,
                                        ).contains(pp.peer_id@),
                                    j,
                                );
                                assert(eligible_routes(
                                    routes_v,
                                    peer_ids(engine.queried@),
                                ).contains(routes_v[j]));
                                let u = choose|u: int|
                                    0 <= u < eligible_routes(
                                        routes_v,
                                        peer_ids(engine.queried@),
                                    ).len() && eligible_routes(
                                        routes_v,
                                        peer_ids(engine.queried@),
                                    )[u] == routes_v[j];
                                assert(engine.frontier@[f_before.len() + u] == routes_v[j]);
                                assert(provider_ids(engine.frontier@)[f_before.len() + u] == id);
                            }
                        }
                    }
                },
            }
        }
        proof {
            broadcast use vstd::seq_lib::group_seq_properties;

            let ids = peer_ids(engine.queried@);
            assert(ids.no_duplicates()) by {
                assert forall|x: int, y: int|
                    0 <= x < y < ids.len() implies ids[x] != ids[y] by {
                    assert(ids[x] == engine.queried@[x]@ && ids[y] == engine.queried@[y]@);
                }
            }
            ids.unique_seq_to_set();
            assert(ids.to_set().subset_of(universe.to_set())) by {
                assert forall|x: Seq<u8>| ids.to_set().contains(x) implies universe.to_set().contains(
                    x,
                ) by {
                    assert(ids.contains(x));
                    let j = choose|j: int| 0 <= j < ids.len() && ids[j] == x;
                    assert(engine.queried@[j]@ == x);
                    assert(universe.contains(x));
                }
            }
            vstd::set_lib::lemma_len_subset(ids.to_set(), universe.to_set());
            universe.lemma_cardinality_of_set();
            assert(engine.queried@.len() <= universe.len());
            if batch0.len() == 0 {
                assert(engine.frontier@.len() < f_head.len());
            }
            assert(qids.take(q_head.len() + batch0.len() as int) =~= qids);
        }
    }
    let r = SearchResults {
        hits,
        queried_peers: engine.queried.len(),
        final_peers: engine.final_peers,
    };
    proof {
        let qs = peer_ids(engine.queried@);
        assert(qs.no_duplicates()) by {
            assert forall|x: int, y: int| 0 <= x < y < qs.len() implies qs[x] != qs[y] by {
                assert(qs[x] == engine.queried@[x]@ && qs[y] == engine.queried@[y]@);
            }
        }
        assert(r.queried_peers == qs.len());
        assert(r.final_peers == count_final(oracle@, qs));
        assert(hits_model(r.hits@) == emit_segments::<S::SearchResult>(
            base + remote_segments::<S::SearchResult>(oracle@, qs),
            Seq::empty(),
        ));
        let smap = routes_spec(db.filters@, hashed_queries::<N, S>(qv)).map_values(
            |e: (Seq<u8>, Seq<Option<usize>>)| e.0,
        );
        assert(seed_ids =~= smap);
        assert forall|i: int| 0 <= i < qs.len() implies smap.contains(#[trigger] qs[i])
            || oracle_route_ids(oracle@).contains(qs[i]) by {
            assert(universe.contains(engine.queried@[i]@));
            assert(qs[i] == engine.queried@[i]@);
            let t = choose|t: int| 0 <= t < universe.len() && universe[t] == qs[i];
            if t < seed_ids.len() {
                assert(universe[t] == seed_ids[t]);
                assert(smap[t] == qs[i]);
            } else {
                let ot = t - seed_ids.len();
                assert(universe[t] == oracle_route_ids(oracle@)[ot]);
            }
        }
        assert(engine.frontier@.len() == 0);
        assert(provider_ids(engine.frontier@).len() == 0);
        assert forall|t: int| 0 <= t < rmodel.len() implies qs.contains(
            (#[trigger] rmodel[t]).0,
        ) by {
            assert(reachable(engine.queried@, engine.frontier@, seed_ids[t]));
            assert(peer_ids(engine.queried@).contains(seed_ids[t]));
            assert(seed_ids[t] == rmodel[t].0);
        }
        assert forall|i: int|
            0 <= i < qs.len() implies (#[trigger] oracle_find(oracle@, qs[i]) matches Some(pkt)
                ==> forall|j: int|
                0 <= j < pkt.distant_matches@.len() && (
                #[trigger] pkt.distant_matches@[j]).addresses@.len() > 0 ==> qs.contains(
                    pkt.distant_matches@[j].peer_id@,
                )) by {
            assert(qs[i] == engine.queried@[i]@);
            match oracle_find(oracle@, engine.queried@[i]@) {
                Option::Some(pkt) => {
                    assert forall|j: int|
                        0 <= j < pkt.distant_matches@.len() && (
                        #[trigger] pkt.distant_matches@[j]).addresses@.len() > 0 implies qs.contains(
                        pkt.distant_matches@[j].peer_id@,
                    ) by {
                        assert(reachable(
                            engine.queried@,
                            engine.frontier@,
                            pkt.distant_matches@[j].peer_id@,
                        ));
                    }
                },
                Option::None => {},
            }
        }
    }
    r
}

} // verus!
