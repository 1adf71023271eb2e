//! What the paginator guarantees against a source that tells the truth.
//!
//! The source's answers are honest with respect to a stream — the full
//! ascending record of the events matching one filter — when every answer is
//! the next contiguous run of the stream after the queried cursor
//! ([`honest_source`]). Under that hypothesis, a complete traversal returns
//! one contiguous run of the stream that never splits a transaction
//! ([`lemma_no_split_transactions`]), and resuming from the returned cursor
//! neither repeats nor skips a record ([`lemma_resumption`]).

use vstd::prelude::*;

use crate::pagination::accum_at;
use crate::pagination::complete_run;
use crate::pagination::continues;
use crate::pagination::cursor_at;
use crate::pagination::finish_page;
use crate::pagination::has_complete_run;
use crate::pagination::init_cursor;
use crate::pagination::lemma_extend_run;
use crate::pagination::lemma_tx_prefix_len_props;
use crate::pagination::lemma_valid_prefix_shrink;
use crate::pagination::paginate;
use crate::pagination::run_pages;
use crate::pagination::run_result;
use crate::pagination::tx_prefix;
use crate::pagination::tx_prefix_len;
use crate::pagination::valid_prefix;
use crate::types::CURSOR_EVENT_SEQ;
use crate::types::EventFilter;
use crate::types::EventID;
use crate::types::EventPageView;
use crate::types::SuiEvent;
use crate::types::TransactionDigest;

verus! {

/// Strict order of event positions: by transaction, then by sequence number
/// within the transaction.
pub open spec fn id_lt(a: EventID, b: EventID) -> bool {
    ||| a.tx_digest.value < b.tx_digest.value
    ||| (a.tx_digest.value == b.tx_digest.value && a.event_seq < b.event_seq)
}

/// The stream's records stand in strictly ascending order, so one
/// transaction's records are contiguous in it.
pub open spec fn stream_sorted(stream: Seq<SuiEvent>) -> bool {
    forall|i: int, j: int|
        #![trigger stream[i], stream[j]]
        0 <= i < j < stream.len() ==> id_lt(stream[i].id, stream[j].id)
}

/// Every record's sequence number lies below the sentinel the paginator
/// queries at, so a cursor at the sentinel is past its whole transaction.
pub open spec fn seqs_bounded(stream: Seq<SuiEvent>) -> bool {
    forall|i: int| 0 <= i < stream.len() ==> (#[trigger] stream[i]).id.event_seq < CURSOR_EVENT_SEQ
}

/// Index of the first record of `stream` strictly after position `c`.
pub open spec fn first_after(stream: Seq<SuiEvent>, c: EventID) -> int
    decreases stream.len(),
{
    if stream.len() == 0 {
        0
    } else if id_lt(c, stream[0].id) {
        0
    } else {
        1 + first_after(stream.drop_first(), c)
    }
}

/// In a sorted stream, `first_after` splits the records into those at or
/// before `c` and those strictly after it.
pub proof fn lemma_first_after_props(stream: Seq<SuiEvent>, c: EventID)
    requires
        stream_sorted(stream),
    ensures
        0 <= first_after(stream, c) <= stream.len(),
        forall|i: int|
            0 <= i < first_after(stream, c) ==> !id_lt(c, (#[trigger] stream[i]).id),
        forall|i: int|
            first_after(stream, c) <= i < stream.len() ==> id_lt(c, (#[trigger] stream[i]).id),
    decreases stream.len(),
{
    if stream.len() == 0 {
    } else if id_lt(c, stream[0].id) {
        assert forall|i: int| 0 <= i < stream.len() implies id_lt(c, (#[trigger] stream[i]).id) by {
            if i > 0 {
                assert(id_lt(stream[0].id, stream[i].id));
            }
        }
    } else {
        let d = stream.drop_first();
        assert forall|i: int, j: int|
            #![trigger d[i], d[j]]
            0 <= i < j < d.len() implies id_lt(d[i].id, d[j].id) by {
            assert(d[i] == stream[i + 1]);
            assert(d[j] == stream[j + 1]);
        }
        lemma_first_after_props(d, c);
        let fa = first_after(stream, c);
        assert forall|i: int| 0 <= i < fa implies !id_lt(c, (#[trigger] stream[i]).id) by {
            if i > 0 {
                assert(d[i - 1] == stream[i]);
            }
        }
        assert forall|i: int| fa <= i < stream.len() implies id_lt(c, (#[trigger] stream[i]).id) by {
            assert(d[i - 1] == stream[i]);
        }
    }
}

/// The first record after a position that is itself a record of a sorted
/// stream stands right behind that record.
pub proof fn lemma_first_after_of_member(stream: Seq<SuiEvent>, j: int)
    requires
        stream_sorted(stream),
        0 <= j < stream.len(),
    ensures
        first_after(stream, stream[j].id) == j + 1,
{
    lemma_first_after_props(stream, stream[j].id);
    let fa = first_after(stream, stream[j].id);
    if fa <= j {
        assert(id_lt(stream[j].id, stream[j].id));
    }
    if fa > j + 1 {
        assert(!id_lt(stream[j].id, stream[j + 1].id));
        assert(id_lt(stream[j].id, stream[j + 1].id));
    }
}

/// One answer is honest at index `i` of the stream: its records are the next
/// contiguous run of records from `i` on; it clears `has_next_page` only on
/// reaching the stream's end; and it is empty only at the stream's end (an
/// empty answer asserts exhaustion, so an honest source never gives one
/// while records remain).
pub open spec fn honest_answer(p: EventPageView, stream: Seq<SuiEvent>, i: int) -> bool {
    &&& i + p.data.len() <= stream.len()
    &&& p.data == stream.subrange(i, i + p.data.len())
    &&& (!p.has_next_page ==> i + p.data.len() == stream.len())
    &&& (i < stream.len() ==> p.data.len() > 0)
}

/// The source tells the truth about `stream`, the full ascending record of
/// the events matching `filter`: every answer it holds is honest at the
/// queried position.
pub open spec fn honest_source(
    model: Map<(EventFilter, EventID), EventPageView>,
    filter: EventFilter,
    stream: Seq<SuiEvent>,
) -> bool {
    &&& stream_sorted(stream)
    &&& forall|c: EventID|
        #[trigger] model.contains_key((filter, c)) ==> honest_answer(
            model[(filter, c)],
            stream,
            first_after(stream, c),
        )
}

/// While a traversal of an honest source runs, what it has accumulated is
/// exactly the stream between the start cursor and the running cursor, and
/// the running cursor sits on the last accumulated record.
proof fn lemma_prefix_slice(
    model: Map<(EventFilter, EventID), EventPageView>,
    filter: EventFilter,
    stream: Seq<SuiEvent>,
    start: EventID,
    pages: Seq<EventPageView>,
)
    requires
        honest_source(model, filter, stream),
        valid_prefix(model, filter, start, pages),
    ensures
        ({
            let i0 = first_after(stream, start);
            let acc = accum_at(pages, pages.len() as int);
            let cn = cursor_at(start, pages, pages.len() as int);
            &&& 0 <= i0 <= stream.len()
            &&& i0 + acc.len() <= stream.len()
            &&& first_after(stream, cn) == i0 + acc.len()
            &&& acc == stream.subrange(i0, i0 + acc.len())
            &&& (pages.len() > 0 ==> acc.len() > 0 && cn == stream[i0 + acc.len() - 1].id)
        }),
    decreases pages.len(),
{
    lemma_first_after_props(stream, start);
    let i0 = first_after(stream, start);
    if pages.len() == 0 {
        assert(accum_at(pages, 0) =~= stream.subrange(i0, i0));
    } else {
        let q = pages.drop_last();
        let p = pages.last();
        lemma_valid_prefix_shrink(model, filter, start, pages);
        lemma_prefix_slice(model, filter, stream, start, q);
        let c_prev = cursor_at(start, q, q.len() as int);
        lemma_extend_run(start, q, p, q.len() as int);
        assert(cursor_at(start, pages, pages.len() - 1) == c_prev);
        assert(pages[pages.len() - 1] == p);
        assert(p == model[(filter, c_prev)]);
        assert(honest_answer(p, stream, first_after(stream, c_prev)));
        let pos = first_after(stream, c_prev);
        let accp = accum_at(q, q.len() as int);
        assert(continues(c_prev, pages.len() - 1 == 0, p));
        let plen = p.data.len() as int;
        let acc = accum_at(pages, pages.len() as int);
        assert(acc == accum_at(pages, pages.len() - 1) + p.data);
        assert(accum_at(pages, pages.len() - 1) == accp);
        assert(acc =~= stream.subrange(i0, pos + plen));
        assert(p.data.last() == stream[pos + plen - 1]);
        lemma_first_after_of_member(stream, pos + plen - 1);
        assert(cursor_at(start, pages, pages.len() as int) == p.data.last().id);
    }
}

/// What one complete traversal of an honest source returns: a contiguous run
/// of the stream starting right after the start cursor. When the returned
/// page says the source is exhausted, the run reaches the stream's end; when
/// it says more remain, the run is nonempty, ends strictly inside the
/// stream, its resume cursor names its last record's transaction, and no
/// record after the run belongs to that transaction.
pub proof fn lemma_run_returns_slice(
    model: Map<(EventFilter, EventID), EventPageView>,
    filter: EventFilter,
    stream: Seq<SuiEvent>,
    start: EventID,
    pages: Seq<EventPageView>,
)
    requires
        honest_source(model, filter, stream),
        complete_run(model, filter, start, pages),
    ensures
        ({
            let r = run_result(start, pages);
            let i0 = first_after(stream, start);
            let end = i0 + r.data.len();
            &&& 0 <= i0 <= stream.len()
            &&& end <= stream.len()
            &&& r.data == stream.subrange(i0, end)
            &&& (!r.has_next_page ==> end == stream.len())
            &&& (r.has_next_page ==> r.data.len() > 0 && end < stream.len() && r.next_cursor
                == Some(r.data.last().id.tx_digest) && stream[end - 1] == r.data.last() && (forall|
                j: int,
            | end <= j < stream.len() ==> (#[trigger] stream[j]).id.tx_digest
                != r.data.last().id.tx_digest))
        }),
{
    lemma_first_after_props(stream, start);
    let i0 = first_after(stream, start);
    let q = pages.drop_last();
    let p = pages.last();
    lemma_valid_prefix_shrink(model, filter, start, pages);
    lemma_prefix_slice(model, filter, stream, start, q);
    let c_n = cursor_at(start, q, q.len() as int);
    lemma_extend_run(start, q, p, q.len() as int);
    assert(cursor_at(start, pages, pages.len() - 1) == c_n);
    assert(pages[pages.len() - 1] == p);
    assert(p == model[(filter, c_n)]);
    let pos = first_after(stream, c_n);
    assert(honest_answer(p, stream, pos));
    let accp = accum_at(q, q.len() as int);
    assert(accum_at(pages, pages.len() - 1) == accp);
    let plen = p.data.len() as int;
    let r = run_result(start, pages);
    assert(r == finish_page(c_n, pages.len() == 1, accp, p));
    assert(!continues(c_n, pages.len() == 1, p));
    if plen == 0 {
        assert(pos == stream.len());
    } else if !p.has_next_page {
        assert(r.data =~= stream.subrange(i0, pos + plen));
    } else {
        // More source pages exist, yet the page moved past the cursor's
        // transaction: the result is truncated at that boundary.
        assert(pages.len() != 1);
        assert(q.len() > 0);
        let cap_t = c_n.tx_digest;
        lemma_tx_prefix_len_props(p.data, cap_t);
        let tpl = tx_prefix_len(p.data, cap_t) as int;
        if tpl == plen {
            assert(p.data[plen - 1].id.tx_digest == cap_t);
            assert(false);
        }
        assert(p.data[tpl] == stream[pos + tpl]);
        assert(tx_prefix(p.data, cap_t) == p.data.take(tpl));
        assert(r.data =~= stream.subrange(i0, pos + tpl));
        let end = pos + tpl;
        assert(stream[pos - 1].id == c_n);
        if tpl > 0 {
            assert(p.data[tpl - 1] == stream[pos + tpl - 1]);
            assert(stream[end - 1].id.tx_digest == cap_t);
        } else {
            assert(stream[end - 1].id.tx_digest == cap_t);
        }
        assert(accp.len() > 0);
        assert(r.data.len() > 0);
        assert(r.data.last() == stream[end - 1]);
        assert forall|j: int| end <= j < stream.len() implies (#[trigger] stream[j]).id.tx_digest
            != cap_t by {
            assert(stream[end].id.tx_digest != cap_t);
            assert(stream[end - 1].id.tx_digest == cap_t);
            assert(id_lt(stream[end - 1].id, stream[end].id));
            if j > end {
                assert(id_lt(stream[end].id, stream[j].id));
            }
        }
    }
}

/// No split transactions: in the page a complete traversal from a
/// transaction-granular cursor returns, every transaction with a record
/// present is fully represented — each of the stream's records of that
/// transaction stands in the page.
pub proof fn lemma_no_split_transactions(
    model: Map<(EventFilter, EventID), EventPageView>,
    filter: EventFilter,
    stream: Seq<SuiEvent>,
    start_tx: TransactionDigest,
    pages: Seq<EventPageView>,
)
    requires
        honest_source(model, filter, stream),
        seqs_bounded(stream),
        complete_run(model, filter, init_cursor(start_tx), pages),
    ensures
        ({
            let r = run_result(init_cursor(start_tx), pages);
            forall|a: int, j: int|
                #![trigger r.data[a], stream[j]]
                0 <= a < r.data.len() && 0 <= j < stream.len() && stream[j].id.tx_digest
                    == r.data[a].id.tx_digest ==> r.data.contains(stream[j])
        }),
{
    let start = init_cursor(start_tx);
    lemma_run_returns_slice(model, filter, stream, start, pages);
    lemma_first_after_props(stream, start);
    let r = run_result(start, pages);
    let i0 = first_after(stream, start);
    let end = i0 + r.data.len();
    assert forall|a: int, j: int|
        #![trigger r.data[a], stream[j]]
        0 <= a < r.data.len() && 0 <= j < stream.len() && stream[j].id.tx_digest
        == r.data[a].id.tx_digest implies r.data.contains(stream[j]) by {
        assert(r.data[a] == stream[i0 + a]);
        if j < i0 {
            assert(!id_lt(start, stream[j].id));
            assert(id_lt(start, stream[i0 + a].id));
            assert(stream[i0 + a].id.event_seq < CURSOR_EVENT_SEQ);
            assert(stream[j].id.event_seq < CURSOR_EVENT_SEQ);
            assert(false);
        }
        if j >= end {
            assert(end < stream.len() && r.has_next_page);
            assert(stream[end - 1] == r.data.last());
            assert(stream[j].id.tx_digest != r.data.last().id.tx_digest);
            assert(i0 + a == end - 1 || id_lt(stream[i0 + a].id, stream[end - 1].id));
            assert(j == end || id_lt(stream[end].id, stream[j].id));
            assert(id_lt(stream[end - 1].id, stream[end].id));
            assert(false);
        }
        assert(r.data[j - i0] == stream[j]);
    }
}

/// Resuming from the cursor a truncated page returned neither repeats nor
/// skips: together the two pages are one contiguous run of the stream
/// starting right after the original cursor, and no record stands in both.
pub proof fn lemma_resumption(
    model: Map<(EventFilter, EventID), EventPageView>,
    filter: EventFilter,
    stream: Seq<SuiEvent>,
    start_tx: TransactionDigest,
    resume_tx: TransactionDigest,
    pages1: Seq<EventPageView>,
    pages2: Seq<EventPageView>,
)
    requires
        honest_source(model, filter, stream),
        seqs_bounded(stream),
        complete_run(model, filter, init_cursor(start_tx), pages1),
        run_result(init_cursor(start_tx), pages1).has_next_page,
        run_result(init_cursor(start_tx), pages1).next_cursor == Some(resume_tx),
        complete_run(model, filter, init_cursor(resume_tx), pages2),
    ensures
        ({
            let r1 = run_result(init_cursor(start_tx), pages1);
            let r2 = run_result(init_cursor(resume_tx), pages2);
            let i0 = first_after(stream, init_cursor(start_tx));
            &&& r1.data + r2.data == stream.subrange(i0, i0 + r1.data.len() + r2.data.len())
            &&& forall|a: int, b: int|
                #![trigger r1.data[a], r2.data[b]]
                0 <= a < r1.data.len() && 0 <= b < r2.data.len() ==> r1.data[a] != r2.data[b]
        }),
{
    let start = init_cursor(start_tx);
    let c2 = init_cursor(resume_tx);
    lemma_run_returns_slice(model, filter, stream, start, pages1);
    let r1 = run_result(start, pages1);
    let i0 = first_after(stream, start);
    let e1 = i0 + r1.data.len();
    assert(resume_tx == r1.data.last().id.tx_digest);
    assert(stream[e1 - 1] == r1.data.last());
    lemma_first_after_props(stream, c2);
    let fa = first_after(stream, c2);
    if fa < e1 {
        assert(id_lt(c2, stream[fa].id));
        assert(fa == e1 - 1 || id_lt(stream[fa].id, stream[e1 - 1].id));
        assert(stream[fa].id.event_seq < CURSOR_EVENT_SEQ);
        assert(false);
    }
    if fa > e1 {
        assert(!id_lt(c2, stream[e1].id));
        assert(stream[e1].id.tx_digest != resume_tx);
        assert(id_lt(stream[e1 - 1].id, stream[e1].id));
        assert(false);
    }
    lemma_run_returns_slice(model, filter, stream, c2, pages2);
    let r2 = run_result(c2, pages2);
    let e2 = e1 + r2.data.len();
    assert(r1.data + r2.data =~= stream.subrange(i0, e2));
    assert forall|a: int, b: int|
        #![trigger r1.data[a], r2.data[b]]
        0 <= a < r1.data.len() && 0 <= b < r2.data.len() implies r1.data[a] != r2.data[b] by {
        assert(r1.data[a] == stream[i0 + a]);
        assert(r2.data[b] == stream[e1 + b]);
        assert(id_lt(stream[i0 + a].id, stream[e1 + b].id));
    }
}

/// [`lemma_no_split_transactions`], said of the page that
/// `SuiClient::query_events_by_module`'s contract names: when the traversal
/// completes against an honest source, no transaction is split.
pub proof fn lemma_paginate_no_split(
    model: Map<(EventFilter, EventID), EventPageView>,
    filter: EventFilter,
    stream: Seq<SuiEvent>,
    start_tx: TransactionDigest,
)
    requires
        honest_source(model, filter, stream),
        seqs_bounded(stream),
        has_complete_run(model, filter, init_cursor(start_tx)),
    ensures
        ({
            let r = paginate(model, filter, init_cursor(start_tx));
            forall|a: int, j: int|
                #![trigger r.data[a], stream[j]]
                0 <= a < r.data.len() && 0 <= j < stream.len() && stream[j].id.tx_digest
                    == r.data[a].id.tx_digest ==> r.data.contains(stream[j])
        }),
{
    let pages = run_pages(model, filter, init_cursor(start_tx));
    assert(complete_run(model, filter, init_cursor(start_tx), pages));
    lemma_no_split_transactions(model, filter, stream, start_tx, pages);
}

/// [`lemma_resumption`], said of the pages that
/// `SuiClient::query_events_by_module`'s contract names: a call and the call
/// resumed from its cursor concatenate to one contiguous run of the stream,
/// repeating nothing.
pub proof fn lemma_paginate_resumption(
    model: Map<(EventFilter, EventID), EventPageView>,
    filter: EventFilter,
    stream: Seq<SuiEvent>,
    start_tx: TransactionDigest,
    resume_tx: TransactionDigest,
)
    requires
        honest_source(model, filter, stream),
        seqs_bounded(stream),
        has_complete_run(model, filter, init_cursor(start_tx)),
        paginate(model, filter, init_cursor(start_tx)).has_next_page,
        paginate(model, filter, init_cursor(start_tx)).next_cursor == Some(resume_tx),
        has_complete_run(model, filter, init_cursor(resume_tx)),
    ensures
        ({
            let r1 = paginate(model, filter, init_cursor(start_tx));
            let r2 = paginate(model, filter, init_cursor(resume_tx));
            let i0 = first_after(stream, init_cursor(start_tx));
            &&& r1.data + r2.data == stream.subrange(i0, i0 + r1.data.len() + r2.data.len())
            &&& forall|a: int, b: int|
                #![trigger r1.data[a], r2.data[b]]
                0 <= a < r1.data.len() && 0 <= b < r2.data.len() ==> r1.data[a] != r2.data[b]
        }),
{
    let pages1 = run_pages(model, filter, init_cursor(start_tx));
    let pages2 = run_pages(model, filter, init_cursor(resume_tx));
    assert(complete_run(model, filter, init_cursor(start_tx), pages1));
    assert(complete_run(model, filter, init_cursor(resume_tx), pages2));
    lemma_resumption(model, filter, stream, start_tx, resume_tx, pages1, pages2);
}

} // verus!
