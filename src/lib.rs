//! Query and indexing core of a local, append-only social-feed database.
//!
//! The library keeps a relational index of the messages of a replicated log
//! (keys, authors, messages, mentions and contacts), ingests log records one at
//! a time, and answers keyset-paginated searches over threads and posts.

mod cursor;
mod filters;
mod index;
mod ingest;
mod page;
mod query;

pub use cursor::{decode_cursor, encode_cursor, lemma_cursor_round_trip};
pub use index::{
    find_or_create, lemma_find_or_create_idempotent, position_of, Contact, Index, IngestError,
    Mention, Message, SsbMessage, FOLLOWING, MAX_ID,
};
pub use ingest::{insert_message, lemma_sequence_is_fresh};
pub use page::{
    get_end_cursor, get_start_cursor, page_edges, page_info, plan_page, select_window, Bound,
    OrderBy, PageInfo, PagePlan, Privacy, QueryError, Row, DEFAULT_PAGE_SIZE,
};
pub use query::{
    lemma_both_cursors_refused, lemma_default_page, lemma_no_selector_keeps_all_roots,
    lemma_post_filters_intersection, lemma_posts_respect_privacy,
    lemma_thread_selectors_union, lemma_threads_respect_privacy, Author, Like, Post,
    PostConnection, PostsArgs, Query, Thread, ThreadConnection, ThreadsArgs,
};
