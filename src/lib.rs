//! A minimal template engine: `{{ name }}` placeholders are replaced by the
//! values that a resolver gives for their trimmed names.

mod adapter;
mod engine;
mod error;
mod laws;
mod text;

pub use adapter::{found_in, has_name, looked_up, minitmpl};
pub use engine::{
    answered_by, close_marker, consulted, expand, gives, lookups, minitmpl_fn, names, open_marker,
    outcome, prepend, scan, shown, Scan,
};
pub use error::{Error, Failure};
pub use laws::{
    closed, interleave, lemma_all_resolved, lemma_empty_template, lemma_first_unresolved,
    lemma_plain_template, lemma_unterminated, literals, placeholders,
};
pub use text::{find, is_white_space, occurs_at, split_first, trimmed, trimmed_end, trimmed_start};
