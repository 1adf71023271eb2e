//! The transaction-granular accumulation algorithm, stated as mathematics.
//!
//! A traversal repeatedly queries a source, modeled as a map from
//! (filter, cursor) to the page the source answers with, and accumulates
//! pages until one of them finishes the loop. [`complete_run`] says that a
//! sequence of pages is exactly the responses of one such traversal, and
//! [`run_result`] what that traversal returns. The traversal is
//! deterministic in the model ([`lemma_run_deterministic`]), so
//! [`paginate`] is well defined.

use vstd::prelude::*;

use crate::types::CURSOR_EVENT_SEQ;
use crate::types::EventFilter;
use crate::types::EventID;
use crate::types::EventPageView;
use crate::types::PageView;
use crate::types::SuiEvent;
use crate::types::TransactionDigest;

verus! {

/// The exclusive cursor a traversal starts from: positioned past every event
/// of the transaction `tx`.
pub open spec fn init_cursor(tx: TransactionDigest) -> EventID {
    EventID { tx_digest: tx, event_seq: CURSOR_EVENT_SEQ }
}

/// Length of the longest prefix of `s` whose events all belong to
/// transaction `tx`.
pub open spec fn tx_prefix_len(s: Seq<SuiEvent>, tx: TransactionDigest) -> nat
    decreases s.len(),
{
    if s.len() == 0 {
        0
    } else if s[0].id.tx_digest == tx {
        1 + tx_prefix_len(s.drop_first(), tx)
    } else {
        0
    }
}

/// The longest prefix of `s` whose events all belong to transaction `tx`.
pub open spec fn tx_prefix(s: Seq<SuiEvent>, tx: TransactionDigest) -> Seq<SuiEvent> {
    s.take(tx_prefix_len(s, tx) as int)
}

/// What makes `tx_prefix` the longest matching prefix.
pub proof fn lemma_tx_prefix_len_props(s: Seq<SuiEvent>, tx: TransactionDigest)
    ensures
        tx_prefix_len(s, tx) <= s.len(),
        forall|i: int| 0 <= i < tx_prefix_len(s, tx) ==> (#[trigger] s[i]).id.tx_digest == tx,
        tx_prefix_len(s, tx) < s.len() ==> s[tx_prefix_len(s, tx) as int].id.tx_digest != tx,
    decreases s.len(),
{
    if s.len() > 0 && s[0].id.tx_digest == tx {
        lemma_tx_prefix_len_props(s.drop_first(), tx);
        assert forall|i: int| 0 <= i < tx_prefix_len(s, tx) implies (#[trigger] s[i]).id.tx_digest
            == tx by {
            if i > 0 {
                assert(s.drop_first()[i - 1] == s[i]);
            }
        }
        if tx_prefix_len(s, tx) < s.len() {
            assert(s.drop_first()[tx_prefix_len(s, tx) - 1] == s[tx_prefix_len(s, tx) as int]);
        }
    }
}

/// Whether the page `p`, received while positioned at `cursor` (`is_first`
/// saying no page was received before), makes the traversal continue rather
/// than finish: the source claims more events exist, and either no reference
/// transaction is established yet or the page has not moved past the
/// cursor's transaction.
pub open spec fn continues(cursor: EventID, is_first: bool, p: EventPageView) -> bool {
    &&& p.data.len() > 0
    &&& p.has_next_page
    &&& (is_first || p.data.last().id.tx_digest == cursor.tx_digest)
}

/// The page a traversal returns when it finishes on response `p`, positioned
/// at `cursor`, having accumulated `acc`:
/// - an empty response: what was accumulated, exhausted;
/// - the source's last page: everything, exhausted (the source never splits
///   one transaction across its own pages when it runs out);
/// - otherwise the response moved past the cursor's transaction, positive
///   evidence that transaction is closed: keep only its prefix of records
///   still in that transaction, and resume later at that transaction.
pub open spec fn finish_page(
    cursor: EventID,
    is_first: bool,
    acc: Seq<SuiEvent>,
    p: EventPageView,
) -> PageView {
    if p.data.len() == 0 {
        PageView { data: acc, next_cursor: Some(cursor.tx_digest), has_next_page: false }
    } else if !p.has_next_page {
        PageView {
            data: acc + p.data,
            next_cursor: Some(p.data.last().id.tx_digest),
            has_next_page: false,
        }
    } else {
        PageView {
            data: acc + tx_prefix(p.data, cursor.tx_digest),
            next_cursor: Some(cursor.tx_digest),
            has_next_page: true,
        }
    }
}

/// The cursor in force when the traversal issues query `i`, having received
/// `pages` so far: the start cursor, then the id of the last record of each
/// page taken whole.
pub open spec fn cursor_at(start: EventID, pages: Seq<EventPageView>, i: int) -> EventID
    decreases i,
{
    if i <= 0 {
        start
    } else if pages[i - 1].data.len() > 0 {
        pages[i - 1].data.last().id
    } else {
        cursor_at(start, pages, i - 1)
    }
}

/// The records accumulated before query `i`: pages `0..i` taken whole.
pub open spec fn accum_at(pages: Seq<EventPageView>, i: int) -> Seq<SuiEvent>
    decreases i,
{
    if i <= 0 {
        Seq::empty()
    } else {
        accum_at(pages, i - 1) + pages[i - 1].data
    }
}

/// `pages` is exactly the sequence of responses of one complete traversal of
/// `model` under `filter` starting at `start`: each response is the model's
/// answer at the cursor the algorithm queries, every response but the last
/// makes the traversal continue, and the last finishes it.
pub open spec fn complete_run(
    model: Map<(EventFilter, EventID), EventPageView>,
    filter: EventFilter,
    start: EventID,
    pages: Seq<EventPageView>,
) -> bool {
    &&& pages.len() >= 1
    &&& forall|i: int|
        #![trigger pages[i]]
        #![trigger cursor_at(start, pages, i)]
        0 <= i < pages.len() ==> model.contains_key((filter, cursor_at(start, pages, i)))
            && pages[i] == model[(filter, cursor_at(start, pages, i))]
    &&& forall|i: int|
        #![trigger pages[i]]
        #![trigger cursor_at(start, pages, i)]
        0 <= i < pages.len() - 1 ==> continues(cursor_at(start, pages, i), i == 0, pages[i])
    &&& !continues(cursor_at(start, pages, pages.len() - 1), pages.len() == 1, pages.last())
}

/// What a complete traversal that received `pages` returns.
pub open spec fn run_result(start: EventID, pages: Seq<EventPageView>) -> PageView
    recommends
        pages.len() >= 1,
{
    finish_page(
        cursor_at(start, pages, pages.len() - 1),
        pages.len() == 1,
        accum_at(pages, pages.len() - 1),
        pages.last(),
    )
}

/// Whether a complete traversal of `model` from `start` exists at all.
pub open spec fn has_complete_run(
    model: Map<(EventFilter, EventID), EventPageView>,
    filter: EventFilter,
    start: EventID,
) -> bool {
    exists|pages: Seq<EventPageView>| complete_run(model, filter, start, pages)
}

/// The responses of the complete traversal; unique by
/// [`lemma_run_deterministic`].
pub open spec fn run_pages(
    model: Map<(EventFilter, EventID), EventPageView>,
    filter: EventFilter,
    start: EventID,
) -> Seq<EventPageView> {
    choose|pages: Seq<EventPageView>| complete_run(model, filter, start, pages)
}

/// The page a complete traversal of `model` under `filter` from `start`
/// returns.
pub open spec fn paginate(
    model: Map<(EventFilter, EventID), EventPageView>,
    filter: EventFilter,
    start: EventID,
) -> PageView {
    run_result(start, run_pages(model, filter, start))
}

/// Appending a further response does not change the cursors and
/// accumulations of the earlier steps.
pub proof fn lemma_extend_run(start: EventID, pages: Seq<EventPageView>, p: EventPageView, i: int)
    requires
        0 <= i <= pages.len(),
    ensures
        cursor_at(start, pages.push(p), i) == cursor_at(start, pages, i),
        accum_at(pages.push(p), i) == accum_at(pages, i),
    decreases i,
{
    if i > 0 {
        assert(pages.push(p)[i - 1] == pages[i - 1]);
        lemma_extend_run(start, pages, p, i - 1);
    }
}

/// `pages` is the sequence of responses of one still-running traversal of
/// `model`: each response is the model's answer at the cursor the algorithm
/// queries, and every one of them makes the traversal continue.
pub open spec fn valid_prefix(
    model: Map<(EventFilter, EventID), EventPageView>,
    filter: EventFilter,
    start: EventID,
    pages: Seq<EventPageView>,
) -> bool {
    &&& forall|i: int|
        #![trigger pages[i]]
        #![trigger cursor_at(start, pages, i)]
        0 <= i < pages.len() ==> model.contains_key((filter, cursor_at(start, pages, i)))
            && pages[i] == model[(filter, cursor_at(start, pages, i))]
    &&& forall|i: int|
        #![trigger pages[i]]
        #![trigger cursor_at(start, pages, i)]
        0 <= i < pages.len() ==> continues(cursor_at(start, pages, i), i == 0, pages[i])
}

/// Shared step behind the push lemmas: after a running traversal receives
/// the model's answer, the grown sequence still matches the model response
/// for response, and the old responses still make it continue.
proof fn lemma_model_match_push(
    model: Map<(EventFilter, EventID), EventPageView>,
    filter: EventFilter,
    start: EventID,
    pages: Seq<EventPageView>,
    p: EventPageView,
)
    requires
        valid_prefix(model, filter, start, pages),
        model.contains_key((filter, cursor_at(start, pages, pages.len() as int))),
        p == model[(filter, cursor_at(start, pages, pages.len() as int))],
    ensures
        forall|i: int|
            #![trigger pages.push(p)[i]]
            #![trigger cursor_at(start, pages.push(p), i)]
            0 <= i < pages.push(p).len() ==> model.contains_key(
                (filter, cursor_at(start, pages.push(p), i)),
            ) && pages.push(p)[i] == model[(filter, cursor_at(start, pages.push(p), i))],
        forall|i: int|
            #![trigger pages.push(p)[i]]
            #![trigger cursor_at(start, pages.push(p), i)]
            0 <= i < pages.len() ==> continues(
                cursor_at(start, pages.push(p), i),
                i == 0,
                pages.push(p)[i],
            ),
{
    let t2 = pages.push(p);
    assert forall|i: int|
        #![trigger t2[i]]
        #![trigger cursor_at(start, t2, i)]
        0 <= i < t2.len() implies model.contains_key((filter, cursor_at(start, t2, i))) && t2[i]
        == model[(filter, cursor_at(start, t2, i))] && (i < pages.len() ==> continues(
        cursor_at(start, t2, i),
        i == 0,
        t2[i],
    )) by {
        lemma_extend_run(start, pages, p, i);
        if i < pages.len() {
            assert(t2[i] == pages[i]);
        } else {
            assert(t2[i] == p);
        }
    }
}

/// A running traversal that receives the model's answer and continues is
/// still a running traversal.
pub proof fn lemma_valid_prefix_push(
    model: Map<(EventFilter, EventID), EventPageView>,
    filter: EventFilter,
    start: EventID,
    pages: Seq<EventPageView>,
    p: EventPageView,
)
    requires
        valid_prefix(model, filter, start, pages),
        model.contains_key((filter, cursor_at(start, pages, pages.len() as int))),
        p == model[(filter, cursor_at(start, pages, pages.len() as int))],
        continues(cursor_at(start, pages, pages.len() as int), pages.len() == 0, p),
    ensures
        valid_prefix(model, filter, start, pages.push(p)),
{
    let t2 = pages.push(p);
    lemma_model_match_push(model, filter, start, pages, p);
    lemma_extend_run(start, pages, p, pages.len() as int);
    assert(t2[pages.len() as int] == p);
}

/// A running traversal that receives the model's answer and finishes is a
/// complete traversal, and returns the finishing page over what it had
/// accumulated.
pub proof fn lemma_complete_run_from_prefix(
    model: Map<(EventFilter, EventID), EventPageView>,
    filter: EventFilter,
    start: EventID,
    pages: Seq<EventPageView>,
    p: EventPageView,
)
    requires
        valid_prefix(model, filter, start, pages),
        model.contains_key((filter, cursor_at(start, pages, pages.len() as int))),
        p == model[(filter, cursor_at(start, pages, pages.len() as int))],
        !continues(cursor_at(start, pages, pages.len() as int), pages.len() == 0, p),
    ensures
        complete_run(model, filter, start, pages.push(p)),
        run_result(start, pages.push(p)) == finish_page(
            cursor_at(start, pages, pages.len() as int),
            pages.len() == 0,
            accum_at(pages, pages.len() as int),
            p,
        ),
{
    let t2 = pages.push(p);
    lemma_model_match_push(model, filter, start, pages, p);
    lemma_extend_run(start, pages, p, pages.len() as int);
    assert(t2.last() == p);
    assert(complete_run(model, filter, start, t2));
}

/// Dropping the final response of a model-matching sequence leaves a running
/// traversal.
pub proof fn lemma_valid_prefix_shrink(
    model: Map<(EventFilter, EventID), EventPageView>,
    filter: EventFilter,
    start: EventID,
    pages: Seq<EventPageView>,
)
    requires
        pages.len() >= 1,
        forall|i: int|
            #![trigger pages[i]]
            #![trigger cursor_at(start, pages, i)]
            0 <= i < pages.len() ==> model.contains_key((filter, cursor_at(start, pages, i)))
                && pages[i] == model[(filter, cursor_at(start, pages, i))],
        forall|i: int|
            #![trigger pages[i]]
            #![trigger cursor_at(start, pages, i)]
            0 <= i < pages.len() - 1 ==> continues(cursor_at(start, pages, i), i == 0, pages[i]),
    ensures
        valid_prefix(model, filter, start, pages.drop_last()),
        pages == pages.drop_last().push(pages.last()),
{
    let q = pages.drop_last();
    let p = pages.last();
    assert(pages =~= q.push(p));
    assert forall|i: int|
        #![trigger q[i]]
        #![trigger cursor_at(start, q, i)]
        0 <= i < q.len() implies model.contains_key((filter, cursor_at(start, q, i))) && q[i]
        == model[(filter, cursor_at(start, q, i))] && continues(
        cursor_at(start, q, i),
        i == 0,
        q[i],
    ) by {
        lemma_extend_run(start, q, p, i);
        assert(pages[i] == q[i]);
    }
}

/// The positions a traversal that received `pages` queried, in order: the
/// filter, with each step's cursor.
pub open spec fn run_queries(
    filter: EventFilter,
    start: EventID,
    pages: Seq<EventPageView>,
) -> Seq<(EventFilter, EventID)> {
    Seq::new(pages.len(), |i: int| (filter, cursor_at(start, pages, i)))
}

/// The queries an aborted traversal has issued: those of a running traversal
/// of the model, ended by the failing round trip — itself issued, and
/// answered by nothing the model holds at its position — or, only after the
/// round-trip budget's `u64::MAX` answered queries, by the last of them. In
/// particular the traversal never aborts without having issued a query.
pub open spec fn aborted_queries(
    model: Map<(EventFilter, EventID), EventPageView>,
    filter: EventFilter,
    start: EventID,
    qs: Seq<(EventFilter, EventID)>,
) -> bool {
    exists|pages: Seq<EventPageView>|
        #![trigger valid_prefix(model, filter, start, pages)]
        valid_prefix(model, filter, start, pages) && (qs == run_queries(
            filter,
            start,
            pages,
        ).push((filter, cursor_at(start, pages, pages.len() as int))) || (qs == run_queries(
            filter,
            start,
            pages,
        ) && pages.len() == u64::MAX))
}

/// One more response extends the issued queries by exactly the position it
/// was asked at.
pub proof fn lemma_run_queries_push(
    filter: EventFilter,
    start: EventID,
    pages: Seq<EventPageView>,
    p: EventPageView,
)
    ensures
        run_queries(filter, start, pages.push(p)) == run_queries(filter, start, pages).push(
            (filter, cursor_at(start, pages, pages.len() as int)),
        ),
{
    let grown = run_queries(filter, start, pages.push(p));
    let pushed = run_queries(filter, start, pages).push(
        (filter, cursor_at(start, pages, pages.len() as int)),
    );
    assert forall|i: int| 0 <= i < pages.len() + 1 implies grown[i] == pushed[i] by {
        lemma_extend_run(start, pages, p, i);
    }
    assert(grown =~= pushed);
}

/// Accepting a nonempty page whole moves the cursor to its last record and
/// appends its records to the accumulation.
pub proof fn lemma_prefix_extend_state(
    start: EventID,
    pages: Seq<EventPageView>,
    p: EventPageView,
)
    requires
        p.data.len() > 0,
    ensures
        cursor_at(start, pages.push(p), pages.len() + 1 as int) == p.data.last().id,
        accum_at(pages.push(p), pages.len() + 1 as int) == accum_at(pages, pages.len() as int)
            + p.data,
{
    let t2 = pages.push(p);
    assert(t2[pages.len() as int] == p);
    lemma_extend_run(start, pages, p, pages.len() as int);
}

/// Two complete traversals of one model agree on their cursors and responses
/// as far as both run.
proof fn lemma_run_prefixes_agree(
    model: Map<(EventFilter, EventID), EventPageView>,
    filter: EventFilter,
    start: EventID,
    pages1: Seq<EventPageView>,
    pages2: Seq<EventPageView>,
    i: int,
)
    requires
        complete_run(model, filter, start, pages1),
        complete_run(model, filter, start, pages2),
        0 <= i <= pages1.len(),
        i <= pages2.len(),
    ensures
        cursor_at(start, pages1, i) == cursor_at(start, pages2, i),
        forall|j: int| 0 <= j < i ==> pages1[j] == pages2[j],
    decreases i,
{
    if i > 0 {
        lemma_run_prefixes_agree(model, filter, start, pages1, pages2, i - 1);
        assert(pages1[i - 1] == model[(filter, cursor_at(start, pages1, i - 1))]);
        assert(pages2[i - 1] == model[(filter, cursor_at(start, pages2, i - 1))]);
    }
}

/// A model determines the traversal: any two complete runs received the very
/// same responses (and so return the very same page).
pub proof fn lemma_run_deterministic(
    model: Map<(EventFilter, EventID), EventPageView>,
    filter: EventFilter,
    start: EventID,
    pages1: Seq<EventPageView>,
    pages2: Seq<EventPageView>,
)
    requires
        complete_run(model, filter, start, pages1),
        complete_run(model, filter, start, pages2),
    ensures
        pages1 == pages2,
{
    if pages1.len() < pages2.len() {
        let l: int = pages1.len() as int;
        lemma_run_prefixes_agree(model, filter, start, pages1, pages2, l);
        assert(continues(cursor_at(start, pages2, l - 1), l - 1 == 0, pages2[l - 1]));
        assert(!continues(cursor_at(start, pages1, l - 1), pages1.len() == 1, pages1[l - 1]));
        assert(false);
    } else if pages2.len() < pages1.len() {
        let l: int = pages2.len() as int;
        lemma_run_prefixes_agree(model, filter, start, pages2, pages1, l);
        assert(continues(cursor_at(start, pages1, l - 1), l - 1 == 0, pages1[l - 1]));
        assert(!continues(cursor_at(start, pages2, l - 1), pages2.len() == 1, pages2[l - 1]));
        assert(false);
    } else {
        lemma_run_prefixes_agree(model, filter, start, pages1, pages2, pages1.len() as int);
        assert(pages1 =~= pages2);
    }
}

/// Any witness of a complete run is the run: `paginate` returns its result.
pub proof fn lemma_paginate_from_witness(
    model: Map<(EventFilter, EventID), EventPageView>,
    filter: EventFilter,
    start: EventID,
    pages: Seq<EventPageView>,
)
    requires
        complete_run(model, filter, start, pages),
    ensures
        has_complete_run(model, filter, start),
        run_pages(model, filter, start) == pages,
        paginate(model, filter, start) == run_result(start, pages),
{
    assert(complete_run(model, filter, start, run_pages(model, filter, start)));
    lemma_run_deterministic(model, filter, start, run_pages(model, filter, start), pages);
}

} // verus!
