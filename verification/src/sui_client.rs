//! The event-paginating client and the capability it consumes.
//!
//! [`SuiClientInner`] abstracts the remote query capability, so that a real
//! transport and the in-memory [`crate::sui_mock_client::SuiMockClient`] are
//! interchangeable. [`SuiClient::query_events_by_module`] drives the
//! transaction-granular accumulation loop against it; each round of that
//! loop is the pure [`pagination_step`], which a caller that must suspend
//! between round trips can also drive itself.

use vstd::prelude::*;

use crate::pagination::accum_at;
use crate::pagination::continues;
use crate::pagination::cursor_at;
use crate::pagination::finish_page;
use crate::pagination::has_complete_run;
use crate::pagination::init_cursor;
use crate::pagination::lemma_complete_run_from_prefix;
use crate::pagination::lemma_paginate_from_witness;
use crate::pagination::lemma_prefix_extend_state;
use crate::pagination::lemma_tx_prefix_len_props;
use crate::pagination::lemma_valid_prefix_push;
use crate::pagination::aborted_queries;
use crate::pagination::lemma_run_queries_push;
use crate::pagination::paginate;
use crate::pagination::run_pages;
use crate::pagination::run_queries;
use crate::pagination::tx_prefix;
use crate::pagination::tx_prefix_len;
use crate::pagination::valid_prefix;
use crate::types::CURSOR_EVENT_SEQ;
use crate::types::EventFilter;
use crate::types::EventID;
use crate::types::EventPage;
use crate::types::EventPageView;
use crate::types::Identifier;
use crate::types::ObjectID;
use crate::types::Page;
use crate::types::SourceError;
use crate::types::SuiEvent;
use crate::types::TransactionDigest;

verus! {

/// The paged-query capability the paginator consumes. One production
/// transport and one in-memory test double implement it.
///
/// `responses` is the source as the contracts see it: which page it answers
/// at each (filter, cursor). Whether a call succeeds is the source's to
/// decide — a remote call may always fail — but a success returns the
/// source's answer at the queried position, and answering changes no answer.
pub trait SuiClientInner {
    /// Which page the source answers at each (filter, cursor).
    spec fn responses(&self) -> Map<(EventFilter, EventID), EventPageView>;

    /// The queries asked of the source so far, oldest first.
    spec fn queries(&self) -> Seq<(EventFilter, EventID)>;

    /// The chain identifier the source reports.
    spec fn chain_identifier_spec(&self) -> Seq<char>;

    /// The latest checkpoint sequence number the source reports.
    spec fn latest_checkpoint_spec(&self) -> u64;

    /// One paged query: the events matching `query` strictly after `cursor`,
    /// as far as the source's own page size reaches. Asking appends exactly
    /// this query to the log, answered or not.
    fn query_events(&mut self, query: &EventFilter, cursor: &EventID) -> (r: Result<
        EventPage,
        SourceError,
    >)
        ensures
            final(self).responses() == old(self).responses(),
            final(self).queries() == old(self).queries().push((*query, *cursor)),
            final(self).chain_identifier_spec() == old(self).chain_identifier_spec(),
            final(self).latest_checkpoint_spec() == old(self).latest_checkpoint_spec(),
            (r matches Ok(page) ==> old(self).responses().contains_key((*query, *cursor))
                && page@ == old(self).responses()[(*query, *cursor)]),
    ;

    /// The identifier of the chain the source is connected to.
    fn get_chain_identifier(&self) -> (r: Result<String, SourceError>)
        ensures
            (r matches Ok(s) ==> s@ == self.chain_identifier_spec()),
    ;

    /// The sequence number of the latest checkpoint the source has seen.
    fn get_latest_checkpoint_sequence_number(&self) -> (r: Result<u64, SourceError>)
        ensures
            (r matches Ok(n) ==> n == self.latest_checkpoint_spec()),
    ;
}

/// One round of the accumulation loop, between two source responses.
pub struct PaginationState {
    /// The exclusive cursor the next query is issued at.
    pub cursor: EventID,
    /// Whether no page has been received yet.
    pub is_first_page: bool,
    /// Every record accepted so far.
    pub all_events: Vec<SuiEvent>,
}

/// What one received page does to the traversal.
pub enum PageOutcome {
    /// More events of the cursor's transaction may exist: query again.
    Continue(PaginationState),
    /// The traversal is finished with this result.
    Done(Page),
}

/// The state a traversal of events strictly after transaction `tx` starts
/// in.
pub fn pagination_begin(tx: TransactionDigest) -> (s: PaginationState)
    ensures
        s.cursor == init_cursor(tx),
        s.is_first_page,
        s.all_events@ == Seq::<SuiEvent>::empty(),
{
    PaginationState {
        cursor: EventID { tx_digest: tx, event_seq: CURSOR_EVENT_SEQ },
        is_first_page: true,
        all_events: Vec::new(),
    }
}

/// The longest prefix of `v` whose events all belong to transaction `tx`.
fn take_tx_prefix(v: &Vec<SuiEvent>, tx: TransactionDigest) -> (r: Vec<SuiEvent>)
    ensures
        r@ == tx_prefix(v@, tx),
{
    proof {
        lemma_tx_prefix_len_props(v@, tx);
    }
    let mut r: Vec<SuiEvent> = Vec::new();
    let mut i: usize = 0;
    while i < v.len()
        invariant
            i <= v@.len(),
            i <= tx_prefix_len(v@, tx),
            r@ == v@.take(i as int),
            tx_prefix_len(v@, tx) <= v@.len(),
            forall|j: int|
                0 <= j < tx_prefix_len(v@, tx) ==> (#[trigger] v@[j]).id.tx_digest == tx,
            tx_prefix_len(v@, tx) < v@.len() ==> v@[tx_prefix_len(v@, tx) as int].id.tx_digest
                != tx,
        decreases v@.len() - i,
    {
        if v[i].id.tx_digest != tx {
            proof {
                assert(i == tx_prefix_len(v@, tx));
            }
            return r;
        }
        r.push(v[i]);
        i = i + 1;
    }
    proof {
        assert(i == tx_prefix_len(v@, tx));
    }
    r
}

/// Feeds one source response to the traversal: either every record is
/// accepted and the cursor advances, or the traversal finishes as
/// [`finish_page`] says.
pub fn pagination_step(state: PaginationState, page: EventPage) -> (r: PageOutcome)
    ensures
        continues(state.cursor, state.is_first_page, page@) ==> (r matches PageOutcome::Continue(
            s2,
        ) && s2.cursor == page@.data.last().id && !s2.is_first_page && s2.all_events@
            == state.all_events@ + page@.data),
        !continues(state.cursor, state.is_first_page, page@) ==> (r matches PageOutcome::Done(p)
            && p@ == finish_page(state.cursor, state.is_first_page, state.all_events@, page@)),
{
    let mut state = state;
    if page.data.len() == 0 {
        let out = Page {
            data: state.all_events,
            next_cursor: Some(state.cursor.tx_digest),
            has_next_page: false,
        };
        return PageOutcome::Done(out);
    }
    let new_cursor: EventID = page.data[page.data.len() - 1].id;
    if !page.has_next_page {
        // A transaction's events shall be available all at once in the
        // source's final page.
        let mut data = page.data;
        state.all_events.append(&mut data);
        let out = Page {
            data: state.all_events,
            next_cursor: Some(new_cursor.tx_digest),
            has_next_page: false,
        };
        return PageOutcome::Done(out);
    }
    if state.is_first_page || new_cursor.tx_digest == state.cursor.tx_digest {
        // No reference transaction yet, or still within the cursor's
        // transaction: accept the whole page and keep querying.
        let mut data = page.data;
        state.all_events.append(&mut data);
        return PageOutcome::Continue(
            PaginationState {
                cursor: new_cursor,
                is_first_page: false,
                all_events: state.all_events,
            },
        );
    }
    // The page moved past the cursor's transaction although more source
    // pages exist: that transaction is closed, so return it whole and leave
    // the rest to be re-fetched from the returned cursor.
    let mut prefix = take_tx_prefix(&page.data, state.cursor.tx_digest);
    state.all_events.append(&mut prefix);
    let out = Page {
        data: state.all_events,
        next_cursor: Some(state.cursor.tx_digest),
        has_next_page: true,
    };
    PageOutcome::Done(out)
}

/// An event-paginating client over any [`SuiClientInner`] capability.
pub struct SuiClient<P> {
    inner: P,
}

impl<P: SuiClientInner> SuiClient<P> {
    /// The source behind this client, as the contracts see it.
    pub closed spec fn responses(&self) -> Map<(EventFilter, EventID), EventPageView> {
        self.inner.responses()
    }

    /// The queries asked of the source behind this client so far.
    pub closed spec fn queries(&self) -> Seq<(EventFilter, EventID)> {
        self.inner.queries()
    }

    /// The chain identifier the source behind this client reports.
    pub closed spec fn chain_identifier_spec(&self) -> Seq<char> {
        self.inner.chain_identifier_spec()
    }

    /// The latest checkpoint sequence number the source behind this client
    /// reports.
    pub closed spec fn latest_checkpoint_spec(&self) -> u64 {
        self.inner.latest_checkpoint_spec()
    }

    /// Wraps an already-built capability, typically a test double.
    pub fn new_for_testing(inner: P) -> (c: Self)
        ensures
            c.responses() == inner.responses(),
            c.queries() == inner.queries(),
            c.chain_identifier_spec() == inner.chain_identifier_spec(),
            c.latest_checkpoint_spec() == inner.latest_checkpoint_spec(),
    {
        Self { inner }
    }

    /// Hands the capability back, for a test to inspect what was asked of
    /// it.
    pub fn into_inner(self) -> (p: P)
        ensures
            p.responses() == self.responses(),
            p.queries() == self.queries(),
            p.chain_identifier_spec() == self.chain_identifier_spec(),
            p.latest_checkpoint_spec() == self.latest_checkpoint_spec(),
    {
        self.inner
    }

    /// Health check at construction: what chain the source is connected to
    /// and its current checkpoint, for the caller to report.
    pub fn describe(&self) -> (r: Result<(String, u64), SourceError>)
        ensures
            (r matches Ok(v) ==> v.0@ == self.chain_identifier_spec() && v.1
                == self.latest_checkpoint_spec()),
    {
        let chain_id = match self.inner.get_chain_identifier() {
            Ok(s) => s,
            Err(e) => {
                return Err(e);
            },
        };
        let block_number = match self.inner.get_latest_checkpoint_sequence_number() {
            Ok(n) => n,
            Err(e) => {
                return Err(e);
            },
        };
        Ok((chain_id, block_number))
    }

    /// Queries the events of the given Move module, paginating at
    /// transaction granularity: unlike the source's own cursor, the cursor
    /// here is a `TransactionDigest`, exclusive, so that one transaction's
    /// related events always arrive together.
    ///
    /// On success the result is exactly the page of the one complete
    /// traversal of the source's answers, and the queries issued are exactly
    /// that traversal's, in order, starting past the whole cursor
    /// transaction. A failure of any round trip is handed back unchanged,
    /// the accumulator discarded, and nothing asked after the failing query,
    /// which was itself one of the traversal's. The round-trip counter only
    /// bounds the loop; no reachable execution exhausts it.
    #[verifier::loop_isolation(false)]
    pub fn query_events_by_module(
        &mut self,
        package: ObjectID,
        module: Identifier,
        cursor: TransactionDigest,
    ) -> (r: Result<Page, SourceError>)
        ensures
            final(self).responses() == old(self).responses(),
            final(self).chain_identifier_spec() == old(self).chain_identifier_spec(),
            final(self).latest_checkpoint_spec() == old(self).latest_checkpoint_spec(),
            (r matches Ok(page) ==> has_complete_run(
                old(self).responses(),
                (EventFilter { package, module }),
                init_cursor(cursor),
            ) && page@ == paginate(
                old(self).responses(),
                (EventFilter { package, module }),
                init_cursor(cursor),
            ) && final(self).queries() == old(self).queries() + run_queries(
                (EventFilter { package, module }),
                init_cursor(cursor),
                run_pages(
                    old(self).responses(),
                    (EventFilter { package, module }),
                    init_cursor(cursor),
                ),
            )),
            (r is Err ==> exists|qs: Seq<(EventFilter, EventID)>|
                final(self).queries() == old(self).queries() + qs && #[trigger] aborted_queries(
                    old(self).responses(),
                    (EventFilter { package, module }),
                    init_cursor(cursor),
                    qs,
                )),
    {
        let filter = EventFilter { package, module };
        let ghost start: EventID = init_cursor(cursor);
        let mut state = pagination_begin(cursor);
        let ghost mut trace: Seq<EventPageView> = Seq::empty();
        proof {
            assert(old(self).queries() + run_queries(filter, start, trace) =~= old(self).queries());
        }
        let mut budget: u64 = u64::MAX;
        loop
            invariant
                self.responses() == old(self).responses(),
                self.chain_identifier_spec() == old(self).chain_identifier_spec(),
                self.latest_checkpoint_spec() == old(self).latest_checkpoint_spec(),
                self.queries() == old(self).queries() + run_queries(filter, start, trace),
                trace.len() + budget == u64::MAX,
                state.cursor == cursor_at(start, trace, trace.len() as int),
                state.is_first_page <==> trace.len() == 0,
                state.all_events@ == accum_at(trace, trace.len() as int),
                valid_prefix(old(self).responses(), filter, start, trace),
            decreases budget,
        {
            if budget == 0 {
                proof {
                    let qs = run_queries(filter, start, trace);
                    assert(aborted_queries(old(self).responses(), filter, start, qs));
                }
                return Err(SourceError);
            }
            budget = budget - 1;
            let page = match self.inner.query_events(&filter, &state.cursor) {
                Ok(p) => p,
                Err(e) => {
                    proof {
                        let qs = run_queries(filter, start, trace).push(
                            (filter, cursor_at(start, trace, trace.len() as int)),
                        );
                        assert(self.queries() =~= old(self).queries() + qs);
                        assert(aborted_queries(old(self).responses(), filter, start, qs));
                    }
                    return Err(e);
                },
            };
            let ghost pv: EventPageView = page@;
            let ghost pre_cursor = state.cursor;
            let ghost pre_first = state.is_first_page;
            let ghost pre_acc = state.all_events@;
            match pagination_step(state, page) {
                PageOutcome::Continue(s2) => {
                    proof {
                        assert(continues(pre_cursor, pre_first, pv));
                        lemma_valid_prefix_push(old(self).responses(), filter, start, trace, pv);
                        lemma_prefix_extend_state(start, trace, pv);
                        lemma_run_queries_push(filter, start, trace, pv);
                        assert(self.queries() =~= old(self).queries() + run_queries(
                            filter,
                            start,
                            trace.push(pv),
                        ));
                        trace = trace.push(pv);
                    }
                    state = s2;
                },
                PageOutcome::Done(result_page) => {
                    proof {
                        assert(!continues(pre_cursor, pre_first, pv));
                        assert(result_page@ == finish_page(pre_cursor, pre_first, pre_acc, pv));
                        lemma_complete_run_from_prefix(
                            old(self).responses(),
                            filter,
                            start,
                            trace,
                            pv,
                        );
                        lemma_paginate_from_witness(
                            old(self).responses(),
                            filter,
                            start,
                            trace.push(pv),
                        );
                        lemma_run_queries_push(filter, start, trace, pv);
                        assert(self.queries() =~= old(self).queries() + run_queries(
                            filter,
                            start,
                            trace.push(pv),
                        ));
                    }
                    return Ok(result_page);
                },
            }
        }
    }
}

} // verus!
