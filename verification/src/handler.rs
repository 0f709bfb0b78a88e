//! Per-connection decisions: what a handler does with an inbound
//! request, how the filter-refresh interval is negotiated, how an
//! incoming filter stack is validated, and which tasks a fresh
//! connection starts with. The transport plumbing around these
//! decisions lives with the embedder.

use vstd::prelude::*;
use crate::config::KamilataConfig;
use crate::db::{addrs_of, routes_spec, Db};
use crate::filter::Filter;
use crate::packets::{
    DistantMatch, GetFiltersPacket, LocalMatch, Query, QueryV, RequestPacket, ResultsPacket,
    SearchPacket,
};
use crate::peer::PeerId;
use crate::search::{dedup_fresh, dedup_results, hit_models};
use crate::store::{SearchResult, Store};

verus! {

/// An instruction handed to a connection handler by the node.
pub enum HandlerInEvent {
    /// Send this request on a fresh substream and report the response
    /// under the given reply token.
    Request { request: RequestPacket, reply: u64 },
    /// Open a leech substream: ask the remote peer to seed its
    /// filters to us.
    LeechFilters,
}

/// Events a handler reports back to the node; none are needed.
pub enum HandlerOutEvent {
    /// No event is currently defined.
    Nothing,
}

/// What a finished node-level task reports.
pub enum TaskOutput {
    /// The task finished with nothing to deliver.
    Done,
}

/// The decision on an inbound `GetFilters` request: how many levels
/// to send and how many milliseconds to sleep between rounds, or
/// nothing when the two nodes' intervals do not overlap.
pub fn negotiate_seed(config: &KamilataConfig, req: &GetFiltersPacket) -> (r: Option<
    (usize, usize),
>)
    ensures
        r is Some <==> vstd::math::max(
            config.get_filters_interval.min as int,
            req.interval.min as int,
        ) <= vstd::math::min(config.get_filters_interval.max as int, req.interval.max as int),
        r matches Some(d) ==> {
            &&& d.0 == vstd::math::min(req.filter_count as int, config.filter_count as int)
            &&& d.1 == crate::config::clamp_spec(
                (config.get_filters_interval.target + req.interval.target) / 2,
                vstd::math::max(config.get_filters_interval.min as int, req.interval.min as int),
                vstd::math::min(config.get_filters_interval.max as int, req.interval.max as int),
            )
        },
{
    let interval = match config.get_filters_interval.intersection(&req.interval) {
        None => {
            return None;
        },
        Some(t) => t.target(),
    };
    let count = if (req.filter_count as usize) < config.filter_count {
        req.filter_count as usize
    } else {
        config.filter_count
    };
    Some((count, interval))
}

/// Validates a received stack: accepted exactly when it holds at
/// most `filter_count` filters, each of exactly `N` bytes.
pub fn validate_stack<const N: usize>(filter_count: usize, filters: &Vec<Vec<u8>>) -> (r: Option<
    Vec<Filter<N>>,
>)
    ensures
        r is Some <==> (filters@.len() <= filter_count && forall|k: int|
            0 <= k < filters@.len() ==> (#[trigger] filters@[k])@.len() == N),
        r matches Some(v) ==> {
            &&& v@.len() == filters@.len()
            &&& forall|k: int|
                0 <= k < v@.len() ==> (#[trigger] v@[k]).wf() && v@[k].byte_view()
                    == filters@[k]@
        },
{
    if filters.len() > filter_count {
        return None;
    }
    let mut out: Vec<Filter<N>> = Vec::new();
    let mut k: usize = 0;
    while k < filters.len()
        invariant
            k <= filters@.len(),
            filters@.len() <= filter_count,
            out@.len() == k,
            forall|j: int|
                0 <= j < k ==> (#[trigger] out@[j]).wf() && out@[j].byte_view() == filters@[j]@,
        decreases filters@.len() - k,
    {
        let bytes = crate::peer::clone_bytes(&filters[k]);
        match Filter::<N>::from_bytes(bytes) {
            None => {
                proof {
                    assert(filters@[k as int]@.len() != N);
                }
                return None;
            },
            Some(f) => {
                out.push(f);
            },
        }
        k += 1;
    }
    proof {
        assert forall|t: int| 0 <= t < filters@.len() implies (#[trigger] filters@[t])@.len()
            == N by {
            assert(out@[t].wf() && out@[t].byte_view() == filters@[t]@);
        }
    }
    Some(out)
}

/// What a fresh connection should start: leech when we still want
/// seeders, offer our filters when we still take leechers.
pub fn routing_init_actions(config: &KamilataConfig, seeder_count: usize, leecher_count: usize) -> (
    r: (bool, bool))
    ensures
        r.0 == (seeder_count < config.max_seeders),
        r.1 == (leecher_count < config.max_leechers),
{
    (seeder_count < config.max_seeders, leecher_count < config.max_leechers)
}

/// The positions all the words of a query hash to, in word order.
pub open spec fn flat_hash<const N: usize, S: Store<N>>(words: Seq<Seq<char>>) -> Seq<usize>
    decreases words.len(),
{
    if words.len() == 0 {
        Seq::empty()
    } else {
        S::hash_spec(words[0]) + flat_hash::<N, S>(words.skip(1))
    }
}

/// The hashed form of a search packet's queries.
pub open spec fn search_hashed<const N: usize, S: Store<N>>(queries: Seq<QueryV>) -> Seq<
    (Seq<usize>, usize),
> {
    Seq::new(
        queries.len(),
        |q: int| (flat_hash::<N, S>(queries[q].words), queries[q].min_matching as usize),
    )
}

/// Hashes all the words of a query into one flat position list.
pub fn hash_words<const N: usize, S: Store<N>>(words: &Vec<String>) -> (r: Vec<usize>)
    ensures
        r@ == flat_hash::<N, S>(words.deep_view()),
{
    let mut r: Vec<usize> = Vec::new();
    let mut w: usize = 0;
    let ghost full = words.deep_view();
    proof {
        assert(full.skip(0int) =~= full);
        assert(r@ + flat_hash::<N, S>(full) =~= flat_hash::<N, S>(full));
    }
    while w < words.len()
        invariant
            w <= words@.len(),
            full == words.deep_view(),
            full.len() == words@.len(),
            r@ + flat_hash::<N, S>(full.skip(w as int)) == flat_hash::<N, S>(full),
        decreases words@.len() - w,
    {
        let mut hs = S::hash_word(words[w].as_str());
        let ghost rb = r@;
        let ghost hsv = hs@;
        r.append(&mut hs);
        proof {
            assert(words@[w as int]@ == full[w as int]);
            assert(full.skip(w as int)[0] == full[w as int]);
            assert(full.skip(w as int).skip(1) =~= full.skip(w as int + 1));
            assert(flat_hash::<N, S>(full.skip(w as int)) == hsv + flat_hash::<N, S>(
                full.skip(w as int + 1),
            ));
            assert(r@ =~= rb + hsv);
            assert((rb + hsv) + flat_hash::<N, S>(full.skip(w as int + 1)) =~= rb + (hsv
                + flat_hash::<N, S>(full.skip(w as int + 1))));
        }
        w += 1;
    }
    proof {
        assert(full.skip(words@.len() as int) =~= Seq::<Seq<char>>::empty());
        assert(flat_hash::<N, S>(full.skip(words@.len() as int)) =~= Seq::<usize>::empty());
        assert(r@ + Seq::<usize>::empty() =~= r@);
    }
    r
}

/// The store results of every query in turn, from query `q` onward,
/// each paired with its query index.
pub open spec fn all_results_from<const N: usize, S: Store<N>>(
    store: S,
    queries: Seq<QueryV>,
    q: int,
) -> Seq<(<S::SearchResult as DeepView>::V, usize)>
    decreases queries.len() - q,
{
    if q < 0 || q >= queries.len() {
        Seq::empty()
    } else {
        store.search_spec(queries[q].words, queries[q].min_matching as usize).map_values(
            |m: <S::SearchResult as DeepView>::V| (m, q as usize),
        ) + all_results_from::<N, S>(store, queries, q + 1)
    }
}

/// Splitting a result stream for de-duplication composes: deduping a
/// concatenation equals deduping the first part, then the second
/// against the ids the first left behind.
pub proof fn lemma_dedup_append<T: SearchResult>(
    a: Seq<(T::V, usize)>,
    b: Seq<(T::V, usize)>,
    seen: Seq<Seq<u8>>,
)
    ensures
        dedup_results::<T>(a + b, seen) == (
            dedup_results::<T>(a, seen).0 + dedup_results::<T>(
                b,
                dedup_results::<T>(a, seen).1,
            ).0,
            dedup_results::<T>(b, dedup_results::<T>(a, seen).1).1,
        ),
    decreases a.len(),
{
    if a.len() == 0 {
        assert(a + b =~= b);
        assert(a =~= Seq::<(T::V, usize)>::empty());
        assert(dedup_results::<T>(a, seen).0 + dedup_results::<T>(b, seen).0 =~= dedup_results::<
            T,
        >(b, seen).0);
    } else {
        assert((a + b)[0] == a[0]);
        assert((a + b).skip(1) =~= a.skip(1) + b);
        let cid = T::cid_of(a[0].0);
        if seen.contains(cid) {
            lemma_dedup_append::<T>(a.skip(1), b, seen);
        } else {
            lemma_dedup_append::<T>(a.skip(1), b, seen.push(cid));
            let reca = dedup_results::<T>(a.skip(1), seen.push(cid));
            let recb = dedup_results::<T>(b, reca.1);
            assert(seq![a[0]] + (reca.0 + recb.0) =~= (seq![a[0]] + reca.0) + recb.0);
        }
    }
}

/// Hashes every query of a search request into one flat position
/// list, keeping each query's match threshold.
fn hash_queries<const N: usize, S: Store<N>>(queries: &Vec<Query>) -> (r: Vec<
    (Vec<usize>, usize),
>)
    ensures
        crate::db::hq_model(r@) == search_hashed::<N, S>(queries.deep_view()),
{
    let mut hashed: Vec<(Vec<usize>, usize)> = Vec::new();
    let mut q: usize = 0;
    while q < queries.len()
        invariant
            q <= queries@.len(),
            hashed@.len() == q,
            forall|t: int|
                0 <= t < q ==> (#[trigger] hashed@[t]).0@ == flat_hash::<N, S>(queries@[t]@.words)
                    && hashed@[t].1 == queries@[t]@.min_matching as usize,
        decreases queries@.len() - q,
    {
        let positions = hash_words::<N, S>(&queries[q].words);
        hashed.push((positions, queries[q].min_matching as usize));
        q += 1;
    }
    proof {
        assert(crate::db::hq_model(hashed@) =~= search_hashed::<N, S>(queries.deep_view()));
    }
    hashed
}

/// Route distances narrowed to the wire's `u16`.
pub open spec fn narrow_dists(s: Seq<Option<usize>>) -> Seq<Option<u16>> {
    Seq::new(
        s.len(),
        |i: int|
            match s[i] {
                Option::None => Option::<u16>::None,
                Option::Some(x) => Option::Some(x as u16),
            },
    )
}

/// The distant match built for one route: the peer, its per-query
/// distances on the wire, and the addresses the database holds for
/// it.
pub open spec fn dm_of_route(
    addrs: Seq<(PeerId, Vec<String>)>,
    e: (Seq<u8>, Seq<Option<usize>>),
) -> crate::packets::DistantMatchV {
    crate::packets::DistantMatchV {
        queries: narrow_dists(e.1),
        peer_id: e.0,
        addresses: addrs_of(addrs, e.0),
    }
}

/// The routes whose peer has at least one recorded address.
pub open spec fn routable_routes(
    addrs: Seq<(PeerId, Vec<String>)>,
    rm: Seq<(Seq<u8>, Seq<Option<usize>>)>,
) -> Seq<(Seq<u8>, Seq<Option<usize>>)> {
    rm.filter(|e: (Seq<u8>, Seq<Option<usize>>)| addrs_of(addrs, e.0).len() > 0)
}

/// The distant matches a responder builds from its routes: one per
/// route whose peer it can hand addresses out for, in route order.
pub open spec fn dms_of_routes(
    addrs: Seq<(PeerId, Vec<String>)>,
    rm: Seq<(Seq<u8>, Seq<Option<usize>>)>,
) -> Seq<crate::packets::DistantMatchV> {
    routable_routes(addrs, rm).map_values(
        |e: (Seq<u8>, Seq<Option<usize>>)| dm_of_route(addrs, e),
    )
}

/// Keeps a route only for the peers the database can hand addresses
/// out for, turning each into a distant match.
#[verifier::rlimit(100)]
fn collect_distant_matches<const N: usize, S: Store<N>>(
    db: &Db<N, S>,
    routes: Vec<(PeerId, Vec<Option<usize>>)>,
) -> (r: Vec<DistantMatch>)
    requires
        db.wf(),
    ensures
        r.deep_view() == dms_of_routes(db.addresses@, crate::db::routes_model(routes@)),
{
    let ghost full_routes = routes@;
    let ghost rm = crate::db::routes_model(routes@);
    let mut routes = routes;
    let mut distant_matches: Vec<DistantMatch> = Vec::new();
    let mut k: usize = 0;
    let rn = routes.len();
    proof {
        assert(full_routes.len() == rn);
        reveal(Seq::filter);
        assert(rm.take(0int) =~= Seq::<(Seq<u8>, Seq<Option<usize>>)>::empty());
        assert(routable_routes(db.addresses@, rm.take(0int)) =~= Seq::<
            (Seq<u8>, Seq<Option<usize>>),
        >::empty());
        assert(distant_matches.deep_view() =~= dms_of_routes(db.addresses@, rm.take(0int)));
    }
    while routes.len() > 0
        invariant
            db.wf(),
            k == full_routes.len() - routes@.len(),
            0 <= k <= full_routes.len(),
            full_routes.len() <= usize::MAX,
            routes@ =~= full_routes.skip(k as int),
            crate::db::routes_model(full_routes) == rm,
            distant_matches.deep_view() == dms_of_routes(db.addresses@, rm.take(k as int)),
        decreases routes@.len(),
    {
        let (peer, dists) = routes.remove(0);
        proof {
            assert(full_routes[k as int] == (peer, dists));
            assert(routes@ =~= full_routes.skip(k as int + 1));
            assert(rm[k as int] == (peer@, dists@));
        }
        let addresses = db.get_addresses(&peer);
        let ghost dm_before = distant_matches.deep_view();
        if addresses.len() > 0 {
            let mut qdists: Vec<Option<u16>> = Vec::new();
            let mut t: usize = 0;
            while t < dists.len()
                invariant
                    t <= dists@.len(),
                    qdists@.len() == t,
                    forall|x: int|
                        0 <= x < t ==> #[trigger] qdists@[x] == narrow_dists(dists@)[x],
                decreases dists@.len() - t,
            {
                let d: Option<u16> = match dists[t] {
                    None => None,
                    Some(x) => Some(x as u16),
                };
                qdists.push(d);
                t += 1;
            }
            proof {
                assert(qdists@ =~= narrow_dists(dists@));
                assert(qdists.deep_view() =~= narrow_dists(dists@));
            }
            distant_matches.push(DistantMatch { queries: qdists, peer_id: peer, addresses });
        }
        proof {
            reveal(Seq::filter);
            let ext = rm.take(k as int + 1);
            assert(ext.drop_last() =~= rm.take(k as int));
            assert(ext.last() == rm[k as int]);
            assert(addresses.deep_view() == addrs_of(db.addresses@, rm[k as int].0));
            assert(addresses@.len() == addresses.deep_view().len());
            if addresses.len() > 0 {
                assert(routable_routes(db.addresses@, ext) =~= routable_routes(
                    db.addresses@,
                    rm.take(k as int),
                ).push(rm[k as int]));
                assert(distant_matches@.last()@.queries == narrow_dists(rm[k as int].1));
                assert(distant_matches@.last()@.peer_id == rm[k as int].0);
                assert(distant_matches@.last()@.addresses == addrs_of(
                    db.addresses@,
                    rm[k as int].0,
                ));
                assert(distant_matches@.last().deep_view() == dm_of_route(
                    db.addresses@,
                    rm[k as int],
                ));
                assert(distant_matches.deep_view() =~= dm_before.push(
                    dm_of_route(db.addresses@, rm[k as int]),
                ));
                assert(dms_of_routes(db.addresses@, ext) =~= dms_of_routes(
                    db.addresses@,
                    rm.take(k as int),
                ).push(dm_of_route(db.addresses@, rm[k as int])));
            } else {
                assert(addrs_of(db.addresses@, rm[k as int].0).len() == 0);
                assert(routable_routes(db.addresses@, ext) =~= routable_routes(
                    db.addresses@,
                    rm.take(k as int),
                ));
                assert(dms_of_routes(db.addresses@, ext) =~= dms_of_routes(
                    db.addresses@,
                    rm.take(k as int),
                ));
            }
        }
        k += 1;
    }
    proof {
        assert(k == full_routes.len());
        assert(rm.len() == full_routes.len());
        assert(rm.take(rm.len() as int) =~= rm);
    }
    distant_matches
}

/// Pairs every store result with the index of the query it answers.
pub(crate) fn pair_results<const N: usize, S: Store<N>>(results: Vec<S::SearchResult>, q: usize) -> (r: Vec<
    (S::SearchResult, usize),
>)
    ensures
        hit_models::<S::SearchResult>(r@) == results.deep_view().map_values(
            |m: <S::SearchResult as DeepView>::V| (m, q as usize),
        ),
{
    let ghost rs_models = results.deep_view();
    let ghost paired_target = rs_models.map_values(
        |m: <S::SearchResult as DeepView>::V| (m, q as usize),
    );
    let mut results = results;
    let mut paired: Vec<(S::SearchResult, usize)> = Vec::new();
    let rn0 = results.len();
    proof {
        assert(hit_models::<S::SearchResult>(paired@) =~= paired_target.take(0int));
        assert(results.deep_view().len() == results@.len());
        assert(rs_models.len() == rn0);
    }
    let mut t: usize = 0;
    while results.len() > 0
        invariant
            t == paired_target.len() - results@.len(),
            0 <= t <= paired_target.len(),
            paired_target.len() <= usize::MAX,
            results.deep_view() =~= rs_models.skip(t as int),
            rs_models.len() == paired_target.len(),
            paired_target == rs_models.map_values(
                |m: <S::SearchResult as DeepView>::V| (m, q as usize),
            ),
            hit_models::<S::SearchResult>(paired@) == paired_target.take(t as int),
        decreases results@.len(),
    {
        let ghost pre_rs = results@;
        let ghost pre_deep = results.deep_view();
        let x = results.remove(0);
        let ghost pb = hit_models::<S::SearchResult>(paired@);
        proof {
            assert(rs_models.skip(t as int)[0] == rs_models[t as int]);
            assert(x.deep_view() == rs_models[t as int]);
            assert(results@ =~= pre_rs.skip(1));
            assert forall|ii: int| 0 <= ii < results@.len() implies results.deep_view()[ii]
                == rs_models.skip(t as int + 1)[ii] by {
                assert(results@[ii] == pre_rs[ii + 1]);
                assert(results.deep_view()[ii] == results@[ii].deep_view());
                assert(pre_deep[ii + 1] == pre_rs[ii + 1].deep_view());
                assert(pre_deep[ii + 1] == rs_models.skip(t as int)[ii + 1]);
            }
            assert(results.deep_view() =~= rs_models.skip(t as int + 1));
        }
        paired.push((x, q));
        proof {
            assert(hit_models::<S::SearchResult>(paired@) =~= pb.push(
                (rs_models[t as int], q as usize),
            ));
            assert(pb.push((rs_models[t as int], q as usize)) =~= paired_target.take(t as int + 1));
        }
        t += 1;
    }
    proof {
        assert(paired_target.take(paired_target.len() as int) =~= paired_target);
    }
    paired
}

/// Appends one local match per fresh result, in order.
fn push_local_matches<T: SearchResult>(matches: &mut Vec<LocalMatch>, fresh: Vec<(T, usize)>)
    ensures
        final(matches)@.len() == old(matches)@.len() + fresh@.len(),
        forall|i: int|
            0 <= i < old(matches)@.len() ==> #[trigger] final(matches)@[i] == old(matches)@[i],
        forall|i: int|
            0 <= i < fresh@.len() ==> (#[trigger] final(matches)@[old(matches)@.len() + i]).result@
                == T::bytes_of(hit_models::<T>(fresh@)[i].0)
                && final(matches)@[old(matches)@.len() + i].query == hit_models::<T>(
                fresh@,
            )[i].1 as u16,
{
    let ghost fresh_full = fresh@;
    let ghost matches_head = matches@;
    let mut fresh = fresh;
    let fn0 = fresh.len();
    proof {
        assert(fresh_full.len() == fn0);
    }
    let mut f: usize = 0;
    while fresh.len() > 0
        invariant
            f == fresh_full.len() - fresh@.len(),
            0 <= f <= fresh_full.len(),
            fresh_full.len() <= usize::MAX,
            fresh@ =~= fresh_full.skip(f as int),
            matches@.len() == matches_head.len() + f,
            forall|i: int|
                0 <= i < matches_head.len() ==> #[trigger] matches@[i] == matches_head[i],
            forall|i: int|
                0 <= i < f ==> (#[trigger] matches@[matches_head.len() + i]).result@
                    == T::bytes_of(hit_models::<T>(fresh_full)[i].0) && matches@[matches_head.len()
                    + i].query == hit_models::<T>(fresh_full)[i].1 as u16,
        decreases fresh@.len(),
    {
        let (res, qi) = fresh.remove(0);
        proof {
            assert(fresh_full[f as int] == (res, qi));
            assert(fresh@ =~= fresh_full.skip(f as int + 1));
            assert(hit_models::<T>(fresh_full)[f as int] == (res.deep_view(), qi));
        }
        let bytes = res.into_bytes();
        matches.push(LocalMatch { query: qi as u16, result: bytes });
        f += 1;
    }
    proof {
        assert(fresh_full.skip(fresh_full.len() as int) =~= Seq::<(T, usize)>::empty());
    }
}

/// Collects our own matches for every query of a search request,
/// each document emitted once by content id.
#[verifier::rlimit(100)]
fn collect_local_matches<const N: usize, S: Store<N>>(db: &Db<N, S>, packet: &SearchPacket) -> (r:
    Vec<LocalMatch>)
    requires
        db.wf(),
    ensures
        ({
            let dd = dedup_results::<S::SearchResult>(
                all_results_from::<N, S>(db.store, packet@.queries, 0),
                Seq::empty(),
            );
            &&& r@.len() == dd.0.len()
            &&& forall|i: int|
                0 <= i < r@.len() ==> (#[trigger] r@[i]).result@
                    == <S::SearchResult as SearchResult>::bytes_of(dd.0[i].0) && r@[i].query
                    == dd.0[i].1 as u16
        }),
{
    let mut seen: Vec<Vec<u8>> = Vec::new();
    let mut matches: Vec<LocalMatch> = Vec::new();
    let mut q: usize = 0;
    proof {
        assert(seen.deep_view() =~~= Seq::<Seq<u8>>::empty());
        lemma_dedup_append::<S::SearchResult>(
            Seq::empty(),
            all_results_from::<N, S>(db.store, packet@.queries, 0),
            Seq::empty(),
        );
    }
    while q < packet.queries.len()
        invariant
            db.wf(),
            q <= packet.queries@.len(),
            ({
                let dd = dedup_results::<S::SearchResult>(
                    all_results_from::<N, S>(db.store, packet@.queries, 0),
                    Seq::empty(),
                );
                let rec = dedup_results::<S::SearchResult>(
                    all_results_from::<N, S>(db.store, packet@.queries, q as int),
                    seen.deep_view(),
                );
                &&& dd.1 == rec.1
                &&& dd.0.len() == matches@.len() + rec.0.len()
                &&& forall|i: int|
                    0 <= i < matches@.len() ==> (#[trigger] matches@[i]).result@
                        == <S::SearchResult as SearchResult>::bytes_of(dd.0[i].0)
                        && matches@[i].query == dd.0[i].1 as u16
                &&& forall|i: int|
                    0 <= i < rec.0.len() ==> #[trigger] dd.0[matches@.len() + i] == rec.0[i]
            }),
        decreases packet.queries@.len() - q,
    {
        let results = db.store().search(
            &packet.queries[q].words,
            packet.queries[q].min_matching as usize,
        );
        let ghost rs_models = db.store.search_spec(
            packet.queries@[q as int]@.words,
            packet.queries@[q as int]@.min_matching as usize,
        );
        let ghost paired_target = rs_models.map_values(
            |m: <S::SearchResult as DeepView>::V| (m, q as usize),
        );
        proof {
            assert(results.deep_view() =~= rs_models);
        }
        let paired = pair_results::<N, S>(results, q);
        proof {
            assert(hit_models::<S::SearchResult>(paired@) == paired_target);
        }
        let ghost seen_head = seen.deep_view();
        let ghost matches_head = matches@;
        let fresh = dedup_fresh(&mut seen, paired);
        let ghost fresh_full = fresh@;
        proof {
            let arf = all_results_from::<N, S>(db.store, packet@.queries, q as int);
            assert(arf == paired_target + all_results_from::<N, S>(
                db.store,
                packet@.queries,
                q as int + 1,
            ));
            lemma_dedup_append::<S::SearchResult>(
                paired_target,
                all_results_from::<N, S>(db.store, packet@.queries, q as int + 1),
                seen_head,
            );
        }
        push_local_matches::<S::SearchResult>(&mut matches, fresh);
        q += 1;
        proof {
            let dd = dedup_results::<S::SearchResult>(
                all_results_from::<N, S>(db.store, packet@.queries, 0),
                Seq::empty(),
            );
            let kept = dedup_results::<S::SearchResult>(paired_target, seen_head);
            assert(hit_models::<S::SearchResult>(fresh_full) == kept.0);
            assert forall|i: int| 0 <= i < matches@.len() implies (#[trigger] matches@[i]).result@
                == <S::SearchResult as SearchResult>::bytes_of(dd.0[i].0) && matches@[i].query
                == dd.0[i].1 as u16 by {
                if i >= matches_head.len() {
                    let fi = i - matches_head.len();
                    assert(dd.0[matches_head.len() + fi] == kept.0[fi]);
                }
            }
            let rec_new = dedup_results::<S::SearchResult>(
                all_results_from::<N, S>(db.store, packet@.queries, q as int),
                seen.deep_view(),
            );
            assert forall|i: int| 0 <= i < rec_new.0.len() implies #[trigger] dd.0[matches@.len()
                + i] == rec_new.0[i] by {
                assert(dd.0[matches_head.len() + (kept.0.len() + i)] == (kept.0 + rec_new.0)[
                    kept.0.len() + i]);
            }
        }
    }
    proof {
        let arf_end = all_results_from::<N, S>(db.store, packet@.queries, q as int);
        assert(arf_end =~= Seq::<(<S::SearchResult as DeepView>::V, usize)>::empty());
    }
    matches
}

/// Answers a search request from our own data: every document the
/// store returns for some query, emitted once by content id, and a
/// route for every seeder whose filters matched some query and whose
/// addresses we know.
pub fn respond_search<const N: usize, S: Store<N>>(db: &Db<N, S>, packet: &SearchPacket) -> (r:
    ResultsPacket)
    requires
        db.wf(),
    ensures
        ({
            let dd = dedup_results::<S::SearchResult>(
                all_results_from::<N, S>(db.store, packet@.queries, 0),
                Seq::empty(),
            );
            &&& r.matches@.len() == dd.0.len()
            &&& forall|i: int|
                0 <= i < r.matches@.len() ==> (#[trigger] r.matches@[i]).result@
                    == <S::SearchResult as SearchResult>::bytes_of(dd.0[i].0)
                    && r.matches@[i].query == dd.0[i].1 as u16
        }),
        r.distant_matches.deep_view() == dms_of_routes(
            db.addresses@,
            routes_spec(db.filters@, search_hashed::<N, S>(packet@.queries)),
        ),
{
    let hashed = hash_queries::<N, S>(&packet.queries);
    let routes = db.search_routes(&hashed);
    proof {
        assert(crate::db::routes_model(routes@) == routes_spec(
            db.filters@,
            search_hashed::<N, S>(packet@.queries),
        ));
    }
    let distant_matches = collect_distant_matches::<N, S>(db, routes);
    let matches = collect_local_matches::<N, S>(db, packet);
    ResultsPacket { distant_matches, matches }
}

} // verus!
