//! Plain data carried between the event source and the paginator.
//!
//! Every identifier is modeled as a number: the paginator only ever compares
//! them, it never looks inside.

use vstd::prelude::*;

verus! {

/// A cursor is exclusive, so a query positioned at this sequence number
/// within a transaction skips that transaction entirely: no transaction
/// emits this many events (the largest count seen in practice is 1024).
pub const CURSOR_EVENT_SEQ: u64 = 65535;

/// Identifies a Move package.
#[derive(Clone, Copy, PartialEq, Eq, Structural, Debug)]
pub struct ObjectID {
    pub value: u64,
}

/// Identifies a Move module within a package.
#[derive(Clone, Copy, PartialEq, Eq, Structural, Debug)]
pub struct Identifier {
    pub value: u64,
}

/// Identifies the transaction an event originated from.
#[derive(Clone, Copy, PartialEq, Eq, Structural, Debug)]
pub struct TransactionDigest {
    pub value: u64,
}

/// Position of one event in the source's global ordering: the transaction it
/// belongs to and its sequence number within that transaction. Used as an
/// exclusive query cursor.
#[derive(Clone, Copy, PartialEq, Eq, Structural, Debug)]
pub struct EventID {
    pub tx_digest: TransactionDigest,
    pub event_seq: u64,
}

/// Selection criteria, passed through to the source unmodified: events
/// emitted by one Move module.
#[derive(Clone, Copy, PartialEq, Eq, Structural, Debug)]
pub struct EventFilter {
    pub package: ObjectID,
    pub module: Identifier,
}

/// One event record. The payload is opaque to the paginator: only the
/// identifying position is ever read.
#[derive(Clone, Copy, PartialEq, Eq, Structural, Debug)]
pub struct SuiEvent {
    pub id: EventID,
    pub payload: u64,
}

/// One response from the source: records ordered by id, and a flag saying
/// whether the source believes more matching events exist beyond them.
#[derive(Clone, PartialEq, Eq, Debug)]
pub struct EventPage {
    pub data: Vec<SuiEvent>,
    pub next_cursor: Option<EventID>,
    pub has_next_page: bool,
}

/// Mathematical image of an [`EventPage`].
#[verifier::ext_equal]
pub ghost struct EventPageView {
    pub data: Seq<SuiEvent>,
    pub next_cursor: Option<EventID>,
    pub has_next_page: bool,
}

impl View for EventPage {
    type V = EventPageView;

    open spec fn view(&self) -> EventPageView {
        EventPageView { data: self.data@, next_cursor: self.next_cursor, has_next_page: self.has_next_page }
    }
}

/// What the paginator returns: zero or more whole transactions' worth of
/// events, a resume cursor at transaction granularity, and a flag saying
/// whether more matching events remain.
#[derive(Clone, PartialEq, Eq, Debug)]
pub struct Page {
    pub data: Vec<SuiEvent>,
    pub next_cursor: Option<TransactionDigest>,
    pub has_next_page: bool,
}

/// Mathematical image of a [`Page`].
#[verifier::ext_equal]
pub ghost struct PageView {
    pub data: Seq<SuiEvent>,
    pub next_cursor: Option<TransactionDigest>,
    pub has_next_page: bool,
}

impl View for Page {
    type V = PageView;

    open spec fn view(&self) -> PageView {
        PageView { data: self.data@, next_cursor: self.next_cursor, has_next_page: self.has_next_page }
    }
}

/// The one kind of failure: the underlying query call failed. The paginator
/// classifies nothing and retries nothing; it hands the failure back.
#[derive(Clone, Copy, PartialEq, Eq, Structural, Debug)]
pub struct SourceError;

} // verus!
