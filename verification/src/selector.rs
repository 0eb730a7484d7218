//! The choice of the prefix length into which a base block is cut.

use vstd::prelude::*;
use crate::error::SubnetError;
use crate::subnet::{usable_host_count, usable_hosts};
use crate::utils::{lemma_block_size_decreases, Cidr};

verus! {

/// `chosen` is the prefix length to cut a base block of prefix length `base`
/// into, for subnets of at least `min_hosts` usable hosts each: the largest
/// prefix length from `base` up to 30 whose blocks still hold that many.
///
/// The search stops at 30, so a block is never cut into point-to-point blocks
/// or host routes, however small the requirement.
pub open spec fn is_selected(base: nat, min_hosts: nat, chosen: nat) -> bool {
    &&& base <= chosen <= 30
    &&& usable_hosts(chosen) >= min_hosts
    &&& forall|longer: nat| chosen < longer <= 30 ==> #[trigger] usable_hosts(longer) < min_hosts
}

/// Finds the prefix length of the smallest subnets that still hold `min_ip`
/// usable hosts each, within a base block of prefix length `cidr`.
///
/// A point-to-point block (31) or a host route (32) is not cut any further
/// and comes back unchanged, whatever `min_ip` asks. A requirement that the
/// base block itself cannot meet is refused.
pub fn find_sub_cidr(min_ip: u32, cidr: Cidr) -> (r: Result<Cidr, SubnetError>)
    ensures
        cidr > 32 ==> r == Err::<Cidr, SubnetError>(SubnetError::InvalidPrefixLength),
        cidr == 31 || cidr == 32 ==> r == Ok::<Cidr, SubnetError>(cidr),
        cidr <= 30 && min_ip <= usable_hosts(cidr as nat) ==> r is Ok,
        cidr <= 30 && min_ip > usable_hosts(cidr as nat) ==> r == Err::<Cidr, SubnetError>(
            SubnetError::NoFeasiblePrefix,
        ),
        cidr <= 30 ==> (r matches Ok(chosen) ==> is_selected(
            cidr as nat,
            min_ip as nat,
            chosen as nat,
        )),
{
    if cidr > 32 {
        return Err(SubnetError::InvalidPrefixLength);
    }
    if cidr == 32 || cidr == 31 {
        return Ok(cidr);
    }
    let mut candidate: u32 = 30;
    loop
        invariant
            cidr <= candidate <= 30,
            forall|longer: nat|
                candidate < longer <= 30 ==> #[trigger] usable_hosts(longer) < min_ip,
        decreases candidate,
    {
        proof {
            lemma_block_size_decreases(cidr as nat, candidate as nat);
        }
        if usable_host_count(candidate) >= min_ip {
            return Ok(candidate);
        }
        if candidate == cidr {
            return Err(SubnetError::NoFeasiblePrefix);
        }
        candidate = candidate - 1;
    }
}

/// At most one prefix length is selected for a base prefix length and a
/// requirement.
pub proof fn lemma_selection_is_unique(base: nat, min_hosts: nat, first: nat, second: nat)
    requires
        is_selected(base, min_hosts, first),
        is_selected(base, min_hosts, second),
    ensures
        first == second,
{
}

} // verus!
