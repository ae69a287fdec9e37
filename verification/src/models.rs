use vstd::prelude::*;

verus! {

/// A channel's watch list, as stored.
#[derive(Clone, Debug)]
pub struct Watchlist {
    pub id: i64,
    pub guild_id: i64,
    pub channel_id: i64,
    pub message_id: i64,
    pub author_id: i64,
    pub revision: i64,
    pub created_at: i64,
    pub updated_at: i64,
}

/// One entry of a watch list, as stored.
#[derive(Clone, Debug)]
pub struct Entry {
    pub id: i64,
    pub list_id: i64,
    pub ordinal: i64,
    pub name: String,
    pub author_id: i64,
    pub created_at: i64,
    pub updated_at: i64,
}

} // verus!
