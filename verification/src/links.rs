use vstd::prelude::*;
use crate::text::{decimal, push_i64};

verus! {

/// The address of a message: `https://discord.com/channels/{guild}/{channel}/{message}`.
pub open spec fn message_link_spec(guild_id: i64, channel_id: i64, message_id: i64) -> Seq<char> {
    "https://discord.com/channels/"@ + decimal(guild_id as int) + "/"@ + decimal(channel_id as int)
        + "/"@ + decimal(message_id as int)
}

/// Link to a message in a guild channel.
pub fn message_link(guild_id: i64, channel_id: i64, message_id: i64) -> (r: String)
    ensures
        r@ == message_link_spec(guild_id, channel_id, message_id),
{
    let mut r = String::new();
    r.append("https://discord.com/channels/");
    push_i64(&mut r, guild_id);
    r.append("/");
    push_i64(&mut r, channel_id);
    r.append("/");
    push_i64(&mut r, message_id);
    r
}

/// The Letterboxd page of a film by its TMDB id: `https://letterboxd.com/tmdb/{id}`.
pub open spec fn letterboxd_url_spec(tmdb_id: i64) -> Seq<char> {
    "https://letterboxd.com/tmdb/"@ + decimal(tmdb_id as int)
}

pub fn letterboxd_url(tmdb_id: i64) -> (r: String)
    ensures
        r@ == letterboxd_url_spec(tmdb_id),
{
    let mut r = String::new();
    r.append("https://letterboxd.com/tmdb/");
    push_i64(&mut r, tmdb_id);
    r
}

} // verus!
