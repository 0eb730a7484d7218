//! IPv4 subnet partitioning.
//!
//! Given a base block in CIDR notation and a minimum number of usable hosts
//! per subnet, the library picks the smallest subnet size that still meets
//! the requirement, cuts the base block into subnets of that size and
//! describes each of them.
//!
//! - [`utils`]: netmask, wildcard mask, network and broadcast address.
//! - [`subnet`]: the descriptor of one subnet.
//! - [`selector`]: the choice of the prefix length of the subnets.
//! - [`partition`]: the subnets of a base block in address order.
//! - [`parallel`]: the same, shared out among workers and merged.
//! - [`parsing`]: the request as text, read and checked.
//! - [`render`]: descriptors as JSON text.
//! - [`text`]: decimal numbers, white space and fields of text.
//! - [`error`]: the failures.
//!
//! Every function is verified against its contract. The contracts speak of
//! addresses and prefix lengths as natural numbers and of a descriptor as
//! the [`subnet::Block`] it stands for.

pub mod error;
pub mod parallel;
pub mod parsing;
pub mod partition;
pub mod render;
pub mod selector;
pub mod subnet;
pub mod text;
pub mod utils;
