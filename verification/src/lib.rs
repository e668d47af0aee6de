//! Builds a named-entity training corpus out of raw wiki markup.
//!
//! The heart of the crate is [`parser`]: it flattens a markup node tree into
//! plain text and a list of entity spans (hyperlink targets with their
//! displayed text and exact byte offsets), truncating once a boilerplate
//! section begins.  [`data`] computes the on-disk layout the surrounding
//! tooling uses, [`api`] and [`util`] normalise endpoint URLs, [`title`]
//! holds the page-title record, and [`strings`] carries the byte-level
//! facts about UTF-8 text that the offset bookkeeping rests on.

pub mod api;
pub mod data;
pub mod parser;
pub mod strings;
pub mod title;
pub mod util;
