//! Client-side engine for a paginated, tree-shaped discussion API: a lazy paginator
//! over continuation tokens, a reply-tree builder that reconciles deferred expansions
//! and out-of-order arrivals, and polling streams with bounded de-duplication.
//!
//! Everything that talks to the network lives outside this crate; the types here are
//! state machines that say what to fetch next and absorb what was fetched.

pub mod client;
pub mod comment_list;
pub mod errors;
pub mod listing;
pub mod messages;
pub mod options;
pub mod responses;
pub mod stream;
pub mod submission;
pub mod subreddit;
pub mod text;
pub mod traits;
pub mod user;
