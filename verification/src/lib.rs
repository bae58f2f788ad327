//! Verified core of a hosts-file merger.
//!
//! The library turns raw hosts-file text (lines of the form
//! `<destination> <hostname> <hostname> ...`, with `#` comments) into a
//! deduplicated mapping from destination address to a set of hostnames,
//! subtracts an ignore mapping, and renders the result back to text with a
//! configurable number of hostnames per line.

pub mod aggregate;
pub mod filter;
pub mod mapping;
pub mod serialize;
pub mod text;

pub use aggregate::hosts_to_hashmap;
pub use filter::ignore;
pub use mapping::HostMapping;
pub use serialize::hashmap_to_hosts;
pub use text::remove_comments;
