//! A client-side event paginator: it consumes a remote, cursor-paginated
//! event-listing capability and regroups the results at transaction
//! granularity, so that one transaction's events are never split across a
//! returned batch boundary unless the source is legitimately exhausted.

pub mod laws;
pub mod pagination;
pub mod sui_client;
pub mod sui_mock_client;
pub mod types;
