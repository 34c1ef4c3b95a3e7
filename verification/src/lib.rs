//! A minimal wiki over markdown notes: hashtag categories, backlinks,
//! link translation and site assembly, with their contracts proved.
use vstd::prelude::*;

pub mod text;
pub mod markdown;
pub mod hashtag_parser;
pub mod filesystem;
pub mod link_translator;
pub mod html_aggregator;
pub mod sorted_set_map;
pub mod analyzer;
pub mod hashtag_linker;
pub mod path;
pub mod wiki;

verus! {
}
