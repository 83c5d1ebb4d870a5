//! A read-only engine for plugin files.
pub mod answers;
pub mod asked;
pub mod carriers;
pub mod coverage;
pub mod curves;
pub mod database;
pub mod decode;
pub mod diff;
pub mod discover;
pub mod dispatch;
pub mod error;
pub mod filter;
pub mod format;
pub mod formid;
pub mod hardcoded;
pub mod index;
pub mod ipc;
pub mod json;
pub mod laws;
pub mod layout;
pub mod listing;
pub mod matched;
pub mod order;
pub mod picks;
pub mod places;
pub mod query;
pub mod reader;
pub mod replies;
pub mod schema;
pub mod selectors;
pub mod settle;
pub mod strings;
pub mod text;
pub mod tree;
pub mod wildcard;
pub mod wording;
