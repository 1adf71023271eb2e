use sui_bridge::sui_client::PageOutcome;
use sui_bridge::sui_client::PaginationState;
use sui_bridge::sui_client::SuiClient;
use sui_bridge::sui_client::pagination_begin;
use sui_bridge::sui_client::pagination_step;
use sui_bridge::sui_mock_client::SuiMockClient;
use sui_bridge::types::CURSOR_EVENT_SEQ;
use sui_bridge::types::EventFilter;
use sui_bridge::types::EventID;
use sui_bridge::types::EventPage;
use sui_bridge::types::Identifier;
use sui_bridge::types::ObjectID;
use sui_bridge::types::Page;
use sui_bridge::types::SourceError;
use sui_bridge::types::SuiEvent;
use sui_bridge::types::TransactionDigest;

fn tx(value: u64) -> TransactionDigest {
    TransactionDigest { value }
}

fn eid(tx_value: u64, event_seq: u64) -> EventID {
    EventID { tx_digest: tx(tx_value), event_seq }
}

fn ev(tx_value: u64, event_seq: u64, payload: u64) -> SuiEvent {
    SuiEvent { id: eid(tx_value, event_seq), payload }
}

fn page(data: Vec<SuiEvent>, next_cursor: Option<EventID>, has_next_page: bool) -> EventPage {
    EventPage { data, next_cursor, has_next_page }
}

fn start_cursor(tx_value: u64) -> EventID {
    eid(tx_value, CURSOR_EVENT_SEQ)
}

#[test]
fn test_query_events_by_module() {
    // Only tx_digest and event_seq matter to the paginator; package and
    // module only have to match the query parameters the mock is keyed by.
    let mut mock = SuiMockClient::default();
    let package = ObjectID { value: 0xb71a9e };
    let module = Identifier { value: 7 };

    // Case 1, empty response
    let cursor = tx(1);
    mock.add_event_response(package, module, start_cursor(1), page(vec![], None, false));
    let mut client = SuiClient::new_for_testing(mock);
    let result = client.query_events_by_module(package, module, cursor).unwrap();
    assert_eq!(
        result,
        Page { data: vec![], next_cursor: Some(cursor), has_next_page: false }
    );
    // only one query
    let mut mock = client.into_inner();
    assert_eq!(
        mock.pop_front_past_event_query_params().unwrap(),
        (package, module, start_cursor(1))
    );
    assert_eq!(mock.pop_front_past_event_query_params(), None);

    // Case 2, only one page (has_next_page = false)
    let event = ev(2, 0, 902);
    mock.add_event_response(
        package,
        module,
        start_cursor(1),
        page(vec![event], None, false),
    );
    let mut client = SuiClient::new_for_testing(mock);
    let result = client.query_events_by_module(package, module, cursor).unwrap();
    assert_eq!(
        result,
        Page { data: vec![event], next_cursor: Some(event.id.tx_digest), has_next_page: false }
    );
    // only one query
    let mut mock = client.into_inner();
    assert_eq!(
        mock.pop_front_past_event_query_params().unwrap(),
        (package, module, start_cursor(1))
    );
    assert_eq!(mock.pop_front_past_event_query_params(), None);

    // Case 3, more than one page, one tx has several events across pages
    let event_1 = ev(3, 5, 903);
    let mut event_2 = ev(4, 0, 904);
    event_2.id.tx_digest = event_1.id.tx_digest;
    event_2.id.event_seq = event_1.id.event_seq + 1;
    let mut event_3 = ev(5, 0, 905);
    event_3.id.tx_digest = event_2.id.tx_digest;
    event_3.id.event_seq = event_2.id.event_seq + 1;
    let event_4 = ev(6, 0, 906);
    assert_ne!(event_3.id.tx_digest, event_4.id.tx_digest);
    // page 1 (event 1)
    mock.add_event_response(
        package,
        module,
        start_cursor(1),
        page(vec![event_1], Some(event_1.id), true),
    );
    // page 2 (event 2, same tx_digest)
    mock.add_event_response(
        package,
        module,
        event_1.id,
        page(vec![event_2], Some(event_2.id), true),
    );
    // page 3 (event 3, event 4, different tx_digest)
    mock.add_event_response(
        package,
        module,
        event_2.id,
        page(vec![event_3, event_4], Some(event_4.id), true),
    );
    let mut client = SuiClient::new_for_testing(mock);
    let result = client.query_events_by_module(package, module, cursor).unwrap();
    // Get back event_1, event_2 and event_3 because of transaction level
    // granularity
    assert_eq!(
        result,
        Page {
            data: vec![event_1, event_2, event_3],
            next_cursor: Some(event_2.id.tx_digest),
            has_next_page: true,
        }
    );
    let mut mock = client.into_inner();
    // first page
    assert_eq!(
        mock.pop_front_past_event_query_params().unwrap(),
        (package, module, start_cursor(1))
    );
    // second page
    assert_eq!(
        mock.pop_front_past_event_query_params().unwrap(),
        (package, module, event_1.id)
    );
    // third page
    assert_eq!(
        mock.pop_front_past_event_query_params().unwrap(),
        (package, module, event_2.id)
    );
    // no more
    assert_eq!(mock.pop_front_past_event_query_params(), None);

    // Case 4, modify page 3 in case 3 to return event_4 only
    mock.add_event_response(
        package,
        module,
        event_2.id,
        page(vec![event_4], Some(event_4.id), true),
    );
    let mut client = SuiClient::new_for_testing(mock);
    let result = client.query_events_by_module(package, module, cursor).unwrap();
    assert_eq!(
        result,
        Page {
            data: vec![event_1, event_2],
            next_cursor: Some(event_2.id.tx_digest),
            has_next_page: true,
        }
    );
    let mut mock = client.into_inner();
    // first page
    assert_eq!(
        mock.pop_front_past_event_query_params().unwrap(),
        (package, module, start_cursor(1))
    );
    // second page
    assert_eq!(
        mock.pop_front_past_event_query_params().unwrap(),
        (package, module, event_1.id)
    );
    // third page
    assert_eq!(
        mock.pop_front_past_event_query_params().unwrap(),
        (package, module, event_2.id)
    );
    // no more
    assert_eq!(mock.pop_front_past_event_query_params(), None);

    // Case 5, modify page 2 in case 3 to mark has_next_page as false
    mock.add_event_response(
        package,
        module,
        event_1.id,
        page(vec![event_2], Some(event_2.id), false),
    );
    let mut client = SuiClient::new_for_testing(mock);
    let result = client.query_events_by_module(package, module, cursor).unwrap();
    assert_eq!(
        result,
        Page {
            data: vec![event_1, event_2],
            next_cursor: Some(event_2.id.tx_digest),
            has_next_page: false,
        }
    );
    let mut mock = client.into_inner();
    // first page
    assert_eq!(
        mock.pop_front_past_event_query_params().unwrap(),
        (package, module, start_cursor(1))
    );
    // second page
    assert_eq!(
        mock.pop_front_past_event_query_params().unwrap(),
        (package, module, event_1.id)
    );
    // no more
    assert_eq!(mock.pop_front_past_event_query_params(), None);
}

// Empty source: the first answer is empty, so the result is an empty page,
// exhausted, resuming at the input cursor's transaction.
#[test]
fn empty_source_returns_empty_page() {
    let mut mock = SuiMockClient::default();
    let package = ObjectID { value: 1 };
    let module = Identifier { value: 2 };
    mock.add_event_response(package, module, start_cursor(9), page(vec![], None, false));
    let mut client = SuiClient::new_for_testing(mock);
    let result = client.query_events_by_module(package, module, tx(9)).unwrap();
    assert_eq!(result, Page { data: vec![], next_cursor: Some(tx(9)), has_next_page: false });
}

// Single full page: one event with nothing beyond it comes back alone,
// exhausted, resuming at that event's transaction.
#[test]
fn single_full_page() {
    let mut mock = SuiMockClient::default();
    let package = ObjectID { value: 1 };
    let module = Identifier { value: 2 };
    let event = ev(12, 0, 31);
    mock.add_event_response(package, module, start_cursor(9), page(vec![event], None, false));
    let mut client = SuiClient::new_for_testing(mock);
    let result = client.query_events_by_module(package, module, tx(9)).unwrap();
    assert_eq!(
        result,
        Page { data: vec![event], next_cursor: Some(tx(12)), has_next_page: false }
    );
}

// Multi-page same transaction: three answers of one event each, all in one
// transaction, claiming more until the third: all three come back at once.
#[test]
fn multi_page_same_transaction() {
    let mut mock = SuiMockClient::default();
    let package = ObjectID { value: 1 };
    let module = Identifier { value: 2 };
    let a = ev(12, 0, 41);
    let b = ev(12, 1, 42);
    let c = ev(12, 2, 43);
    mock.add_event_response(package, module, start_cursor(9), page(vec![a], Some(a.id), true));
    mock.add_event_response(package, module, a.id, page(vec![b], Some(b.id), true));
    mock.add_event_response(package, module, b.id, page(vec![c], Some(c.id), false));
    let mut client = SuiClient::new_for_testing(mock);
    let result = client.query_events_by_module(package, module, tx(9)).unwrap();
    assert_eq!(
        result,
        Page { data: vec![a, b, c], next_cursor: Some(tx(12)), has_next_page: false }
    );
}

// Boundary truncation: the third answer moves on to a new transaction while
// claiming more, so only the closed transaction comes back, and the next
// call from the returned cursor yields the discarded record.
#[test]
fn boundary_truncation_and_resume() {
    let mut mock = SuiMockClient::default();
    let package = ObjectID { value: 1 };
    let module = Identifier { value: 2 };
    let a = ev(12, 0, 51);
    let b = ev(12, 1, 52);
    let c = ev(12, 2, 53);
    let d = ev(14, 0, 54);
    mock.add_event_response(package, module, start_cursor(9), page(vec![a], Some(a.id), true));
    mock.add_event_response(package, module, a.id, page(vec![b], Some(b.id), true));
    mock.add_event_response(package, module, b.id, page(vec![c, d], Some(d.id), true));
    let mut client = SuiClient::new_for_testing(mock);
    let result = client.query_events_by_module(package, module, tx(9)).unwrap();
    assert_eq!(
        result,
        Page { data: vec![a, b, c], next_cursor: Some(tx(12)), has_next_page: true }
    );
    // the discarded record is re-fetched from the returned cursor
    let mut mock = client.into_inner();
    mock.add_event_response(package, module, start_cursor(12), page(vec![d], None, false));
    let mut client = SuiClient::new_for_testing(mock);
    let resumed = client.query_events_by_module(package, module, tx(12)).unwrap();
    assert_eq!(resumed, Page { data: vec![d], next_cursor: Some(tx(14)), has_next_page: false });
}

// Resumption is idempotent: concatenating a truncated page and the page
// resumed from its cursor repeats nothing and skips nothing of the stream.
#[test]
fn resumption_concatenates_without_repeat_or_gap() {
    let stream = [ev(12, 0, 61), ev(12, 1, 62), ev(12, 2, 63), ev(14, 0, 64), ev(14, 1, 65)];
    let mut mock = SuiMockClient::default();
    let package = ObjectID { value: 1 };
    let module = Identifier { value: 2 };
    // an honest source over `stream`, two records per answer
    mock.add_event_response(
        package,
        module,
        start_cursor(9),
        page(vec![stream[0], stream[1]], Some(stream[1].id), true),
    );
    mock.add_event_response(
        package,
        module,
        stream[1].id,
        page(vec![stream[2], stream[3]], Some(stream[3].id), true),
    );
    mock.add_event_response(
        package,
        module,
        start_cursor(12),
        page(vec![stream[3], stream[4]], Some(stream[4].id), false),
    );
    let mut client = SuiClient::new_for_testing(mock);
    let first = client.query_events_by_module(package, module, tx(9)).unwrap();
    assert_eq!(
        first,
        Page {
            data: vec![stream[0], stream[1], stream[2]],
            next_cursor: Some(tx(12)),
            has_next_page: true,
        }
    );
    let second = client
        .query_events_by_module(package, module, first.next_cursor.unwrap())
        .unwrap();
    assert_eq!(
        second,
        Page { data: vec![stream[3], stream[4]], next_cursor: Some(tx(14)), has_next_page: false }
    );
    let mut together = first.data.clone();
    together.extend(second.data.iter().copied());
    assert_eq!(together, stream.to_vec());
    for x in &first.data {
        assert!(!second.data.contains(x));
    }
}

// No split transactions: every transaction with a record in the returned
// page is fully represented there.
#[test]
fn no_transaction_split_across_result() {
    let stream = [ev(10, 0, 71), ev(11, 0, 72), ev(11, 1, 73), ev(12, 0, 74)];
    let mut mock = SuiMockClient::default();
    let package = ObjectID { value: 1 };
    let module = Identifier { value: 2 };
    // the first page spans two transactions; the second moves past tx 11
    mock.add_event_response(
        package,
        module,
        start_cursor(9),
        page(vec![stream[0], stream[1]], Some(stream[1].id), true),
    );
    mock.add_event_response(
        package,
        module,
        stream[1].id,
        page(vec![stream[2], stream[3]], Some(stream[3].id), true),
    );
    let mut client = SuiClient::new_for_testing(mock);
    let result = client.query_events_by_module(package, module, tx(9)).unwrap();
    assert_eq!(
        result,
        Page {
            data: vec![stream[0], stream[1], stream[2]],
            next_cursor: Some(tx(11)),
            has_next_page: true,
        }
    );
    // each transaction named in the result is complete in it
    for x in &result.data {
        for y in stream.iter() {
            if y.id.tx_digest == x.id.tx_digest {
                assert!(result.data.contains(y));
            }
        }
    }
}

// A failing round trip is handed back unchanged: nothing is preset here, so
// the query fails like a remote failure would.
#[test]
fn source_failure_is_propagated() {
    let mock = SuiMockClient::default();
    let package = ObjectID { value: 1 };
    let module = Identifier { value: 2 };
    let mut client = SuiClient::new_for_testing(mock);
    assert_eq!(client.query_events_by_module(package, module, tx(9)), Err(SourceError));
}

// A failure on a later round trip also fails the whole call: the first
// answer continues the traversal, the second position has nothing preset.
#[test]
fn later_source_failure_is_propagated() {
    let mut mock = SuiMockClient::default();
    let package = ObjectID { value: 1 };
    let module = Identifier { value: 2 };
    let a = ev(12, 0, 81);
    mock.add_event_response(package, module, start_cursor(9), page(vec![a], Some(a.id), true));
    let mut client = SuiClient::new_for_testing(mock);
    assert_eq!(client.query_events_by_module(package, module, tx(9)), Err(SourceError));
}

#[test]
fn describe_reports_chain_and_checkpoint() {
    let mock = SuiMockClient::default();
    let client = SuiClient::new_for_testing(mock);
    let (chain_id, block_number) = client.describe().unwrap();
    assert_eq!(chain_id, "");
    assert_eq!(block_number, 0);
}

#[test]
fn mock_records_queries_in_order() {
    let mut mock = SuiMockClient::default();
    assert_eq!(mock.pop_front_past_event_query_params(), None);
    let package = ObjectID { value: 1 };
    let module = Identifier { value: 2 };
    mock.add_event_response(package, module, eid(5, 6), page(vec![], None, false));
    let mut client = SuiClient::new_for_testing(mock);
    // ask twice at two positions; both were preset or fail, order is kept
    let _ = client.query_events_by_module(package, module, tx(5));
    let _ = client.query_events_by_module(package, module, tx(6));
    let mut mock = client.into_inner();
    assert_eq!(
        mock.pop_front_past_event_query_params(),
        Some((package, module, start_cursor(5)))
    );
    assert_eq!(
        mock.pop_front_past_event_query_params(),
        Some((package, module, start_cursor(6)))
    );
    assert_eq!(mock.pop_front_past_event_query_params(), None);
}

// A later preset at the same position replaces the earlier one.
#[test]
fn mock_preset_is_replaced() {
    let mut mock = SuiMockClient::default();
    let package = ObjectID { value: 1 };
    let module = Identifier { value: 2 };
    let a = ev(12, 0, 91);
    let b = ev(13, 0, 92);
    mock.add_event_response(package, module, start_cursor(9), page(vec![a], None, false));
    mock.add_event_response(package, module, start_cursor(9), page(vec![b], None, false));
    let mut client = SuiClient::new_for_testing(mock);
    let result = client.query_events_by_module(package, module, tx(9)).unwrap();
    assert_eq!(result, Page { data: vec![b], next_cursor: Some(tx(13)), has_next_page: false });
}

// The whole first page is accepted even when it already spans a transaction
// boundary; the cursor then tracks its last record's transaction.
#[test]
fn first_page_spanning_boundary_is_accepted_whole() {
    let a = ev(10, 0, 95);
    let b = ev(11, 0, 96);
    let c = ev(11, 1, 97);
    let mut mock = SuiMockClient::default();
    let package = ObjectID { value: 1 };
    let module = Identifier { value: 2 };
    mock.add_event_response(
        package,
        module,
        start_cursor(9),
        page(vec![a, b], Some(b.id), true),
    );
    mock.add_event_response(package, module, b.id, page(vec![c], Some(c.id), false));
    let mut client = SuiClient::new_for_testing(mock);
    let result = client.query_events_by_module(package, module, tx(9)).unwrap();
    assert_eq!(
        result,
        Page { data: vec![a, b, c], next_cursor: Some(tx(11)), has_next_page: false }
    );
}

// One round of the loop, taken by hand: a page within the cursor's
// transaction continues, a page that moved past it finishes truncated.
#[test]
fn pagination_step_by_hand() {
    let a = ev(12, 0, 98);
    let b = ev(12, 1, 99);
    let d = ev(14, 0, 100);
    let state = pagination_begin(tx(9));
    assert_eq!(state.cursor, start_cursor(9));
    assert!(state.is_first_page);
    assert!(state.all_events.is_empty());
    let state = match pagination_step(state, page(vec![a], Some(a.id), true)) {
        PageOutcome::Continue(s) => s,
        PageOutcome::Done(_) => panic!("a first page with more to come continues"),
    };
    assert_eq!(state.cursor, a.id);
    assert!(!state.is_first_page);
    assert_eq!(state.all_events, vec![a]);
    let result = match pagination_step(state, page(vec![b, d], Some(d.id), true)) {
        PageOutcome::Continue(_) => panic!("a page past the cursor's transaction finishes"),
        PageOutcome::Done(p) => p,
    };
    assert_eq!(
        result,
        Page { data: vec![a, b], next_cursor: Some(tx(12)), has_next_page: true }
    );
}

// Restarting from a page's own cursor with hasMore set re-fetches nothing
// already returned: the source's next answer starts strictly after the
// cursor transaction's sentinel position.
#[test]
fn returned_cursor_is_exclusive() {
    let mut mock = SuiMockClient::default();
    let package = ObjectID { value: 1 };
    let module = Identifier { value: 2 };
    // nothing after transaction 12: an honest source answers empty there
    mock.add_event_response(package, module, start_cursor(12), page(vec![], None, false));
    let mut client = SuiClient::new_for_testing(mock);
    let result = client.query_events_by_module(package, module, tx(12)).unwrap();
    assert_eq!(result, Page { data: vec![], next_cursor: Some(tx(12)), has_next_page: false });
    let mut mock = client.into_inner();
    assert_eq!(
        mock.pop_front_past_event_query_params(),
        Some((package, module, eid(12, CURSOR_EVENT_SEQ)))
    );
}

#[test]
fn default_mock_is_empty() {
    let client = SuiClient::new_for_testing(SuiMockClient::default());
    let (chain_id, block_number) = client.describe().unwrap();
    assert_eq!(chain_id, "");
    assert_eq!(block_number, 0);
    let mut mock = client.into_inner();
    assert_eq!(mock.pop_front_past_event_query_params(), None);
}

// PaginationState is plain data a driver can hold across suspensions.
#[test]
fn pagination_state_is_plain_data() {
    let state = PaginationState {
        cursor: eid(3, 4),
        is_first_page: false,
        all_events: vec![ev(3, 4, 5)],
    };
    assert_eq!(state.cursor, eid(3, 4));
    assert_eq!(state.all_events.len(), 1);
}
