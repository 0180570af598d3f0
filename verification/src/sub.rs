//! Subscription keys for the notification bus.
//!
//! Watchers subscribe either to one exact item or to a range of sort keys
//! within a partition. The matching rule decided here is what the bus uses
//! to route a changed item to its range subscribers.

use vstd::prelude::*;
use crate::strlex::{is_prefix_of, lex_lt, str_eq, str_lt, str_starts_with};

verus! {

/// The partition an item lives in.
#[derive(Debug, Hash, Clone, PartialEq, Eq)]
pub struct K2VItemPartition {
    pub bucket: String,
    pub partition_key: String,
}

/// One item of the key/value store, as far as routing needs it.
#[derive(Debug, Clone)]
pub struct K2VItem {
    pub partition: K2VItemPartition,
    pub sort_key: String,
}

/// Subscription to one exact item.
#[derive(Debug, Hash, Clone, PartialEq, Eq)]
pub struct PollKey {
    pub partition: K2VItemPartition,
    pub sort_key: String,
}

/// Subscription to a range of sort keys within one partition: an optional
/// prefix, an optional inclusive start and an optional exclusive end.
#[derive(Debug, Hash, Clone, PartialEq, Eq)]
pub struct PollRange {
    pub partition: K2VItemPartition,
    pub prefix: Option<String>,
    pub start: Option<String>,
    pub end: Option<String>,
}

/// Two partitions name the same shard.
pub open spec fn partition_eq(a: K2VItemPartition, b: K2VItemPartition) -> bool {
    a.bucket@ == b.bucket@ && a.partition_key@ == b.partition_key@
}

/// The matching rule: the partition agrees, and each bound that is set
/// holds of the item's sort key — prefix as a prefix, start inclusively
/// from below, end exclusively from above.
pub open spec fn range_matches(r: PollRange, item: K2VItem) -> bool {
    &&& partition_eq(item.partition, r.partition)
    &&& match r.prefix {
        Some(p) => is_prefix_of(item.sort_key@, p@),
        None => true,
    }
    &&& match r.start {
        Some(s) => !lex_lt(item.sort_key@, s@),
        None => true,
    }
    &&& match r.end {
        Some(e) => lex_lt(item.sort_key@, e@),
        None => true,
    }
}

impl PollRange {
    /// Whether a changed item falls inside this range subscription.
    pub fn matches(&self, item: &K2VItem) -> (r: bool)
        ensures
            r == range_matches(*self, *item),
    {
        if !str_eq(item.partition.bucket.as_str(), self.partition.bucket.as_str()) {
            return false;
        }
        if !str_eq(item.partition.partition_key.as_str(), self.partition.partition_key.as_str()) {
            return false;
        }
        let prefix_ok = match &self.prefix {
            Some(p) => str_starts_with(item.sort_key.as_str(), p.as_str()),
            None => true,
        };
        if !prefix_ok {
            return false;
        }
        let start_ok = match &self.start {
            Some(s) => !str_lt(item.sort_key.as_str(), s.as_str()),
            None => true,
        };
        if !start_ok {
            return false;
        }
        match &self.end {
            Some(e) => str_lt(item.sort_key.as_str(), e.as_str()),
            None => true,
        }
    }
}

} // verus!
