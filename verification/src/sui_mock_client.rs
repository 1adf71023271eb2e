//! An in-memory [`SuiClientInner`] used in test environments: it answers
//! queries from preset responses and records the parameters of every query
//! it was asked, for the test to inspect.

use vstd::prelude::*;

use crate::sui_client::SuiClientInner;
use crate::types::EventFilter;
use crate::types::EventID;
use crate::types::EventPage;
use crate::types::EventPageView;
use crate::types::Identifier;
use crate::types::ObjectID;
use crate::types::SourceError;
use crate::types::SuiEvent;

verus! {

/// One preset answer: the page served at one (filter, cursor) position.
struct PresetResponse {
    filter: EventFilter,
    cursor: EventID,
    page: EventPage,
}

/// The map the presets amount to; a later preset at the same position
/// overrides an earlier one.
spec fn responses_of(s: Seq<PresetResponse>) -> Map<(EventFilter, EventID), EventPageView>
    decreases s.len(),
{
    if s.len() == 0 {
        Map::empty()
    } else {
        responses_of(s.drop_last()).insert((s.last().filter, s.last().cursor), s.last().page@)
    }
}

/// Presets at positions other than (f, c) do not affect the map at (f, c).
proof fn lemma_responses_of_skip(s: Seq<PresetResponse>, i: int, f: EventFilter, c: EventID)
    requires
        0 <= i <= s.len(),
        forall|j: int|
            i <= j < s.len() ==> !((#[trigger] s[j]).filter == f && s[j].cursor == c),
    ensures
        responses_of(s).contains_key((f, c)) == responses_of(s.take(i)).contains_key((f, c)),
        responses_of(s).contains_key((f, c)) ==> responses_of(s)[(f, c)] == responses_of(
            s.take(i),
        )[(f, c)],
    decreases s.len() - i,
{
    if i < s.len() {
        assert forall|j: int| i <= j < s.drop_last().len() implies !((#[trigger] s.drop_last()[j]).filter
            == f && s.drop_last()[j].cursor == c) by {
            assert(s.drop_last()[j] == s[j]);
        }
        lemma_responses_of_skip(s.drop_last(), i, f, c);
        assert(s.drop_last().take(i) =~= s.take(i));
        assert(s.last() == s[s.len() - 1]);
    } else {
        assert(s.take(i) =~= s);
    }
}

/// A record-for-record copy of a page.
fn clone_event_page(p: &EventPage) -> (r: EventPage)
    ensures
        r@ == p@,
{
    let mut data: Vec<SuiEvent> = Vec::new();
    let mut i: usize = 0;
    while i < p.data.len()
        invariant
            i <= p.data@.len(),
            data@ == p.data@.take(i as int),
        decreases p.data@.len() - i,
    {
        data.push(p.data[i]);
        i = i + 1;
    }
    proof {
        assert(data@ =~= p.data@);
    }
    EventPage { data, next_cursor: p.next_cursor, has_next_page: p.has_next_page }
}

/// Mock client used in test environments.
pub struct SuiMockClient {
    chain_identifier: String,
    latest_checkpoint_sequence_number: u64,
    events: Vec<PresetResponse>,
    past_event_query_params: Vec<(ObjectID, Identifier, EventID)>,
}

impl SuiMockClient {
    /// Presets the page served at (package, module, cursor), replacing any
    /// earlier preset there.
    pub fn add_event_response(
        &mut self,
        package: ObjectID,
        module: Identifier,
        cursor: EventID,
        events: EventPage,
    )
        ensures
            final(self).responses() == old(self).responses().insert(
                ((EventFilter { package, module }), cursor),
                events@,
            ),
            final(self).queries() == old(self).queries(),
            final(self).chain_identifier_spec() == old(self).chain_identifier_spec(),
            final(self).latest_checkpoint_spec() == old(self).latest_checkpoint_spec(),
    {
        let entry = PresetResponse { filter: EventFilter { package, module }, cursor, page: events };
        let ghost pre = self.events@;
        self.events.push(entry);
        proof {
            assert(self.events@.drop_last() =~= pre);
        }
    }

    /// Takes the parameters of the oldest not yet inspected query, if any.
    pub fn pop_front_past_event_query_params(&mut self) -> (r: Option<
        (ObjectID, Identifier, EventID),
    >)
        ensures
            old(self).queries().len() == 0 ==> (r is None) && final(self).queries() == old(
                self,
            ).queries(),
            old(self).queries().len() > 0 ==> (r matches Some(t) && ((
                EventFilter { package: t.0, module: t.1 },
                t.2,
            )) == old(self).queries()[0]) && final(self).queries() == old(
                self,
            ).queries().drop_first(),
            final(self).responses() == old(self).responses(),
            final(self).chain_identifier_spec() == old(self).chain_identifier_spec(),
            final(self).latest_checkpoint_spec() == old(self).latest_checkpoint_spec(),
    {
        if self.past_event_query_params.len() == 0 {
            None
        } else {
            let p = self.past_event_query_params.remove(0);
            proof {
                assert(self.past_event_query_params@
                    =~= old(self).past_event_query_params@.drop_first());
                assert(self.queries() =~= old(self).queries().drop_first());
            }
            Some(p)
        }
    }
}

impl Default for SuiMockClient {
    /// An empty mock: no presets, no recorded queries, an empty chain
    /// identifier, checkpoint zero.
    fn default() -> (c: Self)
        ensures
            c.responses() == Map::<(EventFilter, EventID), EventPageView>::empty(),
            c.queries() == Seq::<(EventFilter, EventID)>::empty(),
            c.chain_identifier_spec() == Seq::<char>::empty(),
            c.latest_checkpoint_spec() == 0u64,
    {
        let c = SuiMockClient {
            chain_identifier: String::new(),
            latest_checkpoint_sequence_number: 0,
            events: Vec::new(),
            past_event_query_params: Vec::new(),
        };
        proof {
            assert(c.queries() =~= Seq::<(EventFilter, EventID)>::empty());
        }
        c
    }
}

impl SuiClientInner for SuiMockClient {
    closed spec fn responses(&self) -> Map<(EventFilter, EventID), EventPageView> {
        responses_of(self.events@)
    }

    closed spec fn queries(&self) -> Seq<(EventFilter, EventID)> {
        self.past_event_query_params@.map_values(
            |t: (ObjectID, Identifier, EventID)| ((EventFilter { package: t.0, module: t.1 }), t.2),
        )
    }

    closed spec fn chain_identifier_spec(&self) -> Seq<char> {
        self.chain_identifier@
    }

    closed spec fn latest_checkpoint_spec(&self) -> u64 {
        self.latest_checkpoint_sequence_number
    }

    /// Answers from the latest preset at (query, cursor), recording the
    /// parameters; a position nothing was preset at fails, like a remote
    /// failure would.
    #[verifier::loop_isolation(false)]
    fn query_events(&mut self, query: &EventFilter, cursor: &EventID) -> (r: Result<
        EventPage,
        SourceError,
    >)
        ensures
            old(self).responses().contains_key((*query, *cursor)) ==> (r matches Ok(page)
                && page@ == old(self).responses()[(*query, *cursor)]),
            !old(self).responses().contains_key((*query, *cursor)) ==> (r is Err),
    {
        self.past_event_query_params.push((query.package, query.module, *cursor));
        proof {
            assert(*query == (EventFilter { package: query.package, module: query.module }));
            assert(self.queries() =~= old(self).queries().push((*query, *cursor)));
        }
        let mut i: usize = self.events.len();
        while i > 0
            invariant
                i <= self.events@.len(),
                forall|j: int|
                    i <= j < self.events@.len() ==> !((#[trigger] self.events@[j]).filter == *query
                        && self.events@[j].cursor == *cursor),
            decreases i,
        {
            i = i - 1;
            if self.events[i].filter == *query && self.events[i].cursor == *cursor {
                proof {
                    lemma_responses_of_skip(self.events@, i + 1 as int, *query, *cursor);
                    assert(self.events@.take(i + 1 as int).drop_last() =~= self.events@.take(
                        i as int,
                    ));
                    assert(self.events@.take(i + 1 as int).last() == self.events@[i as int]);
                }
                return Ok(clone_event_page(&self.events[i].page));
            }
        }
        proof {
            lemma_responses_of_skip(self.events@, 0, *query, *cursor);
            assert(self.events@.take(0) =~= Seq::<PresetResponse>::empty());
        }
        Err(SourceError)
    }

    fn get_chain_identifier(&self) -> (r: Result<String, SourceError>)
        ensures
            (r matches Ok(s) && s@ == self.chain_identifier_spec()),
    {
        Ok(self.chain_identifier.clone())
    }

    fn get_latest_checkpoint_sequence_number(&self) -> (r: Result<u64, SourceError>)
        ensures
            (r matches Ok(n) && n == self.latest_checkpoint_spec()),
    {
        Ok(self.latest_checkpoint_sequence_number)
    }
}

} // verus!
