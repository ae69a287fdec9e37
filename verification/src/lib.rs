pub mod diff;
pub mod entry_parts;
pub mod laws;
pub mod links;
pub mod models;
pub mod normalize;
pub mod pinned_message;
pub mod shortstat;
pub mod text;
pub mod tmdb;
pub mod version;
pub mod watchlist;
