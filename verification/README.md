# kino

A Discord bot that keeps a channel's movie watch list in a pinned message.
This crate is its verified core: the rules for normalizing an edited list,
rendering the pinned message within Discord's size limit, splitting entries
into title, year and comment, the edit announcement with its diff, and the
decisions of the slash commands. Every function in `src/` carries a Verus
contract; `src/laws.rs` proves properties that hold across them.

`app/` is the bot itself (Discord, PostgreSQL and TMDB I/O), which calls the
library; Verus does not check it.
