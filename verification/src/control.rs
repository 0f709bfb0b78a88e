//! Search control: priorities, per-search configuration, and the state
//! block shared between the engine and the caller-facing handle.

use vstd::prelude::*;
use crate::peer::PeerId;
use crate::queries::SearchQueries;

verus! {

/// A search priority that holds still: either reach any result fast,
/// or reach the most relevant results first.
#[derive(Clone, Copy, Debug, PartialEq, Eq, Structural)]
pub enum FixedSearchPriority {
    /// Get results fast without weighing relevance.
    Speed,
    /// Focus on finding the best results first.
    Relevance,
}

/// A search priority that may change as documents come in.
#[derive(Debug)]
pub enum SearchPriority {
    /// A priority that never changes.
    Fixed(FixedSearchPriority),
    /// Use `first` until `until_documents` documents have been found,
    /// then switch to `after`.
    Variable { first: Box<SearchPriority>, until_documents: usize, after: Box<SearchPriority> },
}

impl Clone for SearchPriority {
    fn clone(&self) -> (r: Self)
        ensures
            r == *self,
        decreases *self,
    {
        match self {
            SearchPriority::Fixed(p) => SearchPriority::Fixed(*p),
            SearchPriority::Variable { first, until_documents, after } => {
                SearchPriority::Variable {
                    first: Box::new((**first).clone()),
                    until_documents: *until_documents,
                    after: Box::new((**after).clone()),
                }
            },
        }
    }
}

impl SearchPriority {
    /// The fixed priority in force once `documents_found` documents
    /// have come in.
    pub open spec fn priority_at(self, documents_found: usize) -> FixedSearchPriority
        decreases self,
    {
        match self {
            SearchPriority::Fixed(p) => p,
            SearchPriority::Variable { first, until_documents, after } => {
                if documents_found < until_documents {
                    first.priority_at(documents_found)
                } else {
                    after.priority_at(documents_found)
                }
            },
        }
    }

    /// A priority fixed to speed.
    pub fn speed() -> (r: SearchPriority)
        ensures
            r == SearchPriority::Fixed(FixedSearchPriority::Speed),
    {
        SearchPriority::Fixed(FixedSearchPriority::Speed)
    }

    /// A priority fixed to relevance.
    pub fn relevance() -> (r: SearchPriority)
        ensures
            r == SearchPriority::Fixed(FixedSearchPriority::Relevance),
    {
        SearchPriority::Fixed(FixedSearchPriority::Relevance)
    }

    /// The fixed priority currently in force.
    pub fn get_priority(&self, documents_found: usize) -> (r: FixedSearchPriority)
        ensures
            r == self.priority_at(documents_found),
        decreases *self,
    {
        match self {
            SearchPriority::Fixed(p) => *p,
            SearchPriority::Variable { first, until_documents, after } => {
                if documents_found < *until_documents {
                    first.get_priority(documents_found)
                } else {
                    after.get_priority(documents_found)
                }
            },
        }
    }
}

/// Per-search configuration.
#[derive(Clone, Debug)]
pub struct SearchConfig {
    /// The priority steering the order in which providers are queried.
    pub priority: SearchPriority,
    /// The largest number of requests kept in flight at once.
    pub req_limit: usize,
    /// Milliseconds to wait for a provider before giving up on it.
    pub timeout_ms: usize,
}

impl SearchConfig {
    pub fn new(priority: SearchPriority, req_limit: usize, timeout_ms: usize) -> (r: SearchConfig)
        ensures
            r.priority == priority,
            r.req_limit == req_limit,
            r.timeout_ms == timeout_ms,
    {
        SearchConfig { priority, req_limit, timeout_ms }
    }

    pub fn with_priority(self, priority: SearchPriority) -> (r: SearchConfig)
        ensures
            r.priority == priority,
            r.req_limit == self.req_limit,
            r.timeout_ms == self.timeout_ms,
    {
        SearchConfig { priority, ..self }
    }

    pub fn with_req_limit(self, req_limit: usize) -> (r: SearchConfig)
        ensures
            r.priority == self.priority,
            r.req_limit == req_limit,
            r.timeout_ms == self.timeout_ms,
    {
        SearchConfig { req_limit, ..self }
    }

    pub fn with_timeout_ms(self, timeout_ms: usize) -> (r: SearchConfig)
        ensures
            r.priority == self.priority,
            r.req_limit == self.req_limit,
            r.timeout_ms == timeout_ms,
    {
        SearchConfig { timeout_ms, ..self }
    }
}

impl Default for SearchConfig {
    /// The stock search configuration: speed until 25 documents are
    /// found, then relevance; 10 concurrent requests; 50 s timeout.
    fn default() -> (r: Self)
        ensures
            r.priority == (SearchPriority::Variable {
                first: Box::new(SearchPriority::Fixed(FixedSearchPriority::Speed)),
                until_documents: 25usize,
                after: Box::new(SearchPriority::Fixed(FixedSearchPriority::Relevance)),
            }),
            r.req_limit == 10,
            r.timeout_ms == 50_000,
    {
        SearchConfig {
            priority: SearchPriority::Variable {
                first: Box::new(SearchPriority::speed()),
                until_documents: 25,
                after: Box::new(SearchPriority::relevance()),
            },
            req_limit: 10,
            timeout_ms: 50_000,
        }
    }
}

/// The state block of one ongoing search, shared between the engine
/// and the caller-facing handle.
#[derive(Debug)]
pub struct OngoingSearchState {
    /// The queries being searched for.
    pub queries: SearchQueries,
    /// The live search configuration.
    pub config: SearchConfig,
    /// Peers queried so far.
    pub queried_peers: usize,
    /// Peers that returned at least one document.
    pub final_peers: usize,
    /// Requests currently in flight.
    pub ongoing_queries: usize,
}

impl OngoingSearchState {
    /// A fresh search over `queries` under `config`, with all counters
    /// at zero.
    pub fn new(queries: SearchQueries, config: SearchConfig) -> (r: OngoingSearchState)
        ensures
            r.queries.inner@ == queries.inner@,
            r.config == config,
            r.queried_peers == 0,
            r.final_peers == 0,
            r.ongoing_queries == 0,
    {
        OngoingSearchState { queries, config, queried_peers: 0, final_peers: 0, ongoing_queries: 0 }
    }

    /// Refreshes the three counters in one step.
    pub fn set_query_counts(&mut self, queried_peers: usize, final_peers: usize, ongoing_queries: usize)
        ensures
            final(self).queried_peers == queried_peers,
            final(self).final_peers == final_peers,
            final(self).ongoing_queries == ongoing_queries,
            final(self).queries == old(self).queries,
            final(self).config == old(self).config,
    {
        self.queried_peers = queried_peers;
        self.final_peers = final_peers;
        self.ongoing_queries = ongoing_queries;
    }
}

/// What a finished search leaves behind: the hits nobody consumed and
/// the two peer counters.
#[derive(Debug)]
pub struct SearchResults<T> {
    /// Unconsumed hits, each with the query index it answered and the
    /// peer that provided it, in the order they were received.
    pub hits: Vec<(T, usize, PeerId)>,
    /// Number of peers that were queried.
    pub queried_peers: usize,
    /// Number of peers that provided at least one hit.
    pub final_peers: usize,
}

} // verus!
