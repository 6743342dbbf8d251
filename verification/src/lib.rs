//! Longest-prefix-match routing over 128-bit keys.
//!
//! A prefix table maps prefixes of IPv6 addresses to points of presence. The
//! table is kept as a flat array of trie nodes; a query walks it from the root
//! and answers with the longest stored prefix among the query's leading bits.
//!
//! - [`bits`]: reading a field of bits out of a key.
//! - [`prefix`]: the leading bits of a key as a number.
//! - [`table`]: prefix tables as maps, and what the longest match of a query is.
//! - [`lc_trie`]: the node table, its construction and the walk.
//! - [`routing`]: a prefix set that can be changed, and routing over it.
//! - [`error`]: the refusals.

pub mod bits;
pub mod error;
pub mod lc_trie;
pub mod prefix;
pub mod routing;
pub mod table;
