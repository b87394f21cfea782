//! Link extraction for content discovery.
//!
//! Given the text of a fetched document and the location it was fetched from,
//! the library finds the link-like substrings in the text, resolves each of
//! them against the base location, keeps those that stay on the base's host,
//! and expands every kept path into the chain of its ancestor paths. The
//! result is the set of locations that the document implies.
//!
//! The pattern engine and the URL parser are outside crates. What they return
//! is named, not described: the contracts say exactly what the library does
//! with it.

pub mod diagnostic;
pub mod expander;
pub mod extractor;
pub mod link_set;
pub mod matcher;
pub mod resolver;

pub use diagnostic::Diagnostic;
pub use expander::{get_sub_paths_from_path, path_segments};
pub use extractor::{add_link_to_set_of_links, get_links, links_from_matches, Extraction};
pub use link_set::LinkSet;
pub use matcher::{find_raw_matches, find_trimmed_matches, trim_quotes, LINKFINDER_REGEX};
pub use resolver::{base_host, paths_to_expand, resolve_link, same_host, Resolution};
