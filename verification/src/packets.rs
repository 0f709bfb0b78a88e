//! The messages exchanged between peers, and their mathematical
//! models. Every request/response pair travels on a fresh substream;
//! the filter-seeding substream is long-lived and carries a stream of
//! `UpdateFilters` responses.

use vstd::prelude::*;
use crate::config::MinTargetMax;
use crate::peer::PeerId;

verus! {

// ---------------------------------------------------------------------
// Models: what each message means, over sequences and plain values.
// ---------------------------------------------------------------------
/// Model of a `GetFiltersPacket`.
pub struct GetFiltersV {
    pub filter_count: u8,
    pub interval: MinTargetMax,
    pub blocked_peers: Seq<Seq<u8>>,
}

/// Model of a `Query`.
pub struct QueryV {
    pub words: Seq<Seq<char>>,
    pub min_matching: u16,
}

/// Model of a `SearchPacket`.
pub struct SearchV {
    pub queries: Seq<QueryV>,
}

/// Model of a `DisconnectPacket`.
pub struct DisconnectV {
    pub reason: Seq<char>,
    pub try_again_in: Option<u32>,
}

/// Model of a `RequestPacket`.
pub enum RequestV {
    GetFilters(GetFiltersV),
    PostFilters,
    Search(SearchV),
    Disconnect(DisconnectV),
}

/// Model of an `UpdateFiltersPacket`.
pub struct UpdateFiltersV {
    pub filters: Seq<Seq<u8>>,
}

/// Model of a `DistantMatch`.
pub struct DistantMatchV {
    pub queries: Seq<Option<u16>>,
    pub peer_id: Seq<u8>,
    pub addresses: Seq<Seq<char>>,
}

/// Model of a `LocalMatch`.
pub struct LocalMatchV {
    pub query: u16,
    pub result: Seq<u8>,
}

/// Model of a `ResultsPacket`.
pub struct ResultsV {
    pub distant_matches: Seq<DistantMatchV>,
    pub matches: Seq<LocalMatchV>,
}

/// Model of a `ResponsePacket`.
pub enum ResponseV {
    ConfirmRefresh(MinTargetMax),
    UpdateFilters(UpdateFiltersV),
    Results(ResultsV),
    Disconnect(DisconnectV),
}

// ---------------------------------------------------------------------
// The messages themselves.
// ---------------------------------------------------------------------
/// Asks the receiver to seed its filters to us on this substream, and
/// says which levels, how often, and whose contributions to leave out.
#[derive(Debug)]
pub struct GetFiltersPacket {
    /// How many filter levels we want to receive.
    pub filter_count: u8,
    /// Acceptable milliseconds between successive updates.
    pub interval: MinTargetMax,
    /// Peers whose contributions must not be aggregated into what we
    /// are sent.
    pub blocked_peers: Vec<PeerId>,
}

impl View for GetFiltersPacket {
    type V = GetFiltersV;

    open spec fn view(&self) -> GetFiltersV {
        GetFiltersV {
            filter_count: self.filter_count,
            interval: self.interval,
            blocked_peers: self.blocked_peers.deep_view(),
        }
    }
}

/// Words to look for, and how many of them a filter must cover for
/// the filter to match.
#[derive(Debug)]
pub struct Query {
    /// The words to search for.
    pub words: Vec<String>,
    /// The least number of words that must match.
    pub min_matching: u16,
}

impl View for Query {
    type V = QueryV;

    open spec fn view(&self) -> QueryV {
        QueryV { words: self.words.deep_view(), min_matching: self.min_matching }
    }
}

/// Asks the receiver to run the queries on its own documents and
/// answer with a `Results` response.
#[derive(Debug)]
pub struct SearchPacket {
    /// The queries, ordered from the best to the worst.
    pub queries: Vec<Query>,
}

impl View for SearchPacket {
    type V = SearchV;

    open spec fn view(&self) -> SearchV {
        SearchV { queries: self.queries.deep_view() }
    }
}

impl DeepView for Query {
    type V = QueryV;

    open spec fn deep_view(&self) -> QueryV {
        self.view()
    }
}

/// Announces that the sender is closing the relationship.
#[derive(Debug)]
pub struct DisconnectPacket {
    /// Why the sender disconnects.
    pub reason: String,
    /// Seconds after which the peer may try again; nothing when the
    /// sender never wants to hear from the peer again.
    pub try_again_in: Option<u32>,
}

impl View for DisconnectPacket {
    type V = DisconnectV;

    open spec fn view(&self) -> DisconnectV {
        DisconnectV { reason: self.reason@, try_again_in: self.try_again_in }
    }
}

/// A request opening a substream.
#[derive(Debug)]
pub enum RequestPacket {
    /// Asks the receiver to seed filters on this substream.
    GetFilters(GetFiltersPacket),
    /// Announces that the sender would like to seed its filters; the
    /// receiver answers by opening a leech substream when it has room.
    PostFilters,
    /// Asks the receiver to answer the queries.
    Search(SearchPacket),
    /// Closes the relationship.
    Disconnect(DisconnectPacket),
}

impl View for RequestPacket {
    type V = RequestV;

    open spec fn view(&self) -> RequestV {
        match self {
            RequestPacket::GetFilters(p) => RequestV::GetFilters(p@),
            RequestPacket::PostFilters => RequestV::PostFilters,
            RequestPacket::Search(p) => RequestV::Search(p@),
            RequestPacket::Disconnect(p) => RequestV::Disconnect(p@),
        }
    }
}

/// One round of filters, ordered from level 0 up; each entry must hold
/// exactly the filter byte length agreed for the network.
#[derive(Debug)]
pub struct UpdateFiltersPacket {
    pub filters: Vec<Vec<u8>>,
}

impl View for UpdateFiltersPacket {
    type V = UpdateFiltersV;

    open spec fn view(&self) -> UpdateFiltersV {
        UpdateFiltersV { filters: self.filters.deep_view() }
    }
}

/// A provider the responder knows of: its id, how to reach it, and at
/// which distance each query matched.
#[derive(Debug)]
pub struct DistantMatch {
    /// Distance per query; at least one entry should be present.
    pub queries: Vec<Option<u16>>,
    /// The provider.
    pub peer_id: PeerId,
    /// Addresses the provider may be dialled at.
    pub addresses: Vec<String>,
}

impl View for DistantMatch {
    type V = DistantMatchV;

    open spec fn view(&self) -> DistantMatchV {
        DistantMatchV {
            queries: self.queries.deep_view(),
            peer_id: self.peer_id@,
            addresses: self.addresses.deep_view(),
        }
    }
}

impl DeepView for DistantMatch {
    type V = DistantMatchV;

    open spec fn deep_view(&self) -> DistantMatchV {
        self.view()
    }
}

/// A document the responder itself holds: the first query it matched
/// and its serialised bytes.
#[derive(Debug)]
pub struct LocalMatch {
    /// The first (thus best) query this result matched.
    pub query: u16,
    /// The serialised search result.
    pub result: Vec<u8>,
}

impl View for LocalMatch {
    type V = LocalMatchV;

    open spec fn view(&self) -> LocalMatchV {
        LocalMatchV { query: self.query, result: self.result@ }
    }
}

impl DeepView for LocalMatch {
    type V = LocalMatchV;

    open spec fn deep_view(&self) -> LocalMatchV {
        self.view()
    }
}

/// The answer to a `Search` request.
#[derive(Debug)]
pub struct ResultsPacket {
    /// Routes toward other likely providers.
    pub distant_matches: Vec<DistantMatch>,
    /// Documents held by the responder itself.
    pub matches: Vec<LocalMatch>,
}

impl View for ResultsPacket {
    type V = ResultsV;

    open spec fn view(&self) -> ResultsV {
        ResultsV {
            distant_matches: self.distant_matches.deep_view(),
            matches: self.matches.deep_view(),
        }
    }
}

/// A response on a substream.
#[derive(Debug)]
pub enum ResponsePacket {
    /// Confirms a `GetFilters` request with the negotiated interval.
    ConfirmRefresh(MinTargetMax),
    /// One round of filters, sent periodically on the seed substream.
    UpdateFilters(UpdateFiltersPacket),
    /// The answer to a `Search` request.
    Results(ResultsPacket),
    /// Closes the relationship.
    Disconnect(DisconnectPacket),
}

impl View for ResponsePacket {
    type V = ResponseV;

    open spec fn view(&self) -> ResponseV {
        match self {
            ResponsePacket::ConfirmRefresh(p) => ResponseV::ConfirmRefresh(*p),
            ResponsePacket::UpdateFilters(p) => ResponseV::UpdateFilters(p@),
            ResponsePacket::Results(p) => ResponseV::Results(p@),
            ResponsePacket::Disconnect(p) => ResponseV::Disconnect(p@),
        }
    }
}

} // verus!
