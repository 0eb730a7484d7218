//! The failures that the library reports.

use vstd::prelude::*;

verus! {

/// Why a request was turned down.
#[derive(Clone, Copy, Debug, PartialEq, Eq, Structural)]
pub enum SubnetError {
    /// The address is not four decimal octets of 0 to 255 joined by dots,
    /// or the base block is not written as `<address>/<prefix length>`.
    MalformedAddress,
    /// The prefix length is not a decimal number of 0 to 32.
    InvalidPrefixLength,
    /// The minimum host count is not a decimal number that fits 32 bits.
    MalformedHostCount,
    /// The minimum host count is larger than the usable hosts of the base block.
    HostRequirementExceedsCapacity,
    /// The worker count is not a decimal number of 1 to 32.
    InvalidWorkerCount,
    /// No prefix length between the base prefix length and 30 gives enough usable hosts.
    NoFeasiblePrefix,
    /// A worker did not deliver its share of the subnets.
    AggregateFailure,
}

} // verus!
