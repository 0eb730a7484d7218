//! The descriptor of one subnet and the rule that builds it.

use vstd::prelude::*;
use vstd::arithmetic::power2::pow2;
use crate::utils::{
    block_size, broadcast_of, create_broadcast, create_network, lemma_block_in_address_space,
    lemma_block_size_decreases, lemma_mask_rounds_down, masked, masks_of, netmask_of,
    network_of, wildcard_of, Cidr, Ip,
};

verus! {

/// A subnet as numbers: what a [`SubNet`] stands for.
pub struct Block {
    /// The first address of the block.
    pub network: nat,
    /// The first address that a host can have.
    pub first: nat,
    /// The last address that a host can have.
    pub last: nat,
    /// The last address of the block.
    pub broadcast: nat,
    /// The prefix length.
    pub cidr: nat,
    /// The number of addresses that hosts can have.
    pub usable: nat,
}

impl Block {
    /// The address lies in the block, from its network address to its
    /// broadcast address.
    pub open spec fn contains(&self, address: nat) -> bool {
        self.network <= address <= self.broadcast
    }
}

/// The number of usable host addresses in a block of the given prefix length.
///
/// A block of up to 30 network bits keeps its first address for the network
/// and its last for broadcast. A point-to-point block (31 bits) has neither,
/// so both of its addresses are usable, and a host route (32 bits) is one
/// usable address.
pub open spec fn usable_hosts(cidr: nat) -> nat {
    if cidr >= 32 {
        1
    } else if cidr == 31 {
        2
    } else {
        (block_size(cidr) - 2) as nat
    }
}

/// The block of the given prefix length that holds the address `ip`.
pub open spec fn block_of(ip: nat, cidr: nat) -> Block {
    let network = network_of(ip, cidr);
    let broadcast = broadcast_of(network, wildcard_of(cidr));
    Block {
        network,
        first: if cidr >= 31 { network } else { network + 1 },
        last: if cidr >= 31 { broadcast } else { (broadcast - 1) as nat },
        broadcast,
        cidr,
        usable: usable_hosts(cidr),
    }
}

/// The descriptor of one subnet.
#[derive(Clone, Copy, Debug, PartialEq, Eq, Structural)]
pub struct SubNet {
    /// The first address of the block.
    pub network: Ip,
    /// The first address that a host can have.
    pub first: Ip,
    /// The last address that a host can have.
    pub last: Ip,
    /// The last address of the block.
    pub broadcast: Ip,
    /// The prefix length.
    pub cidr: Cidr,
    /// The number of addresses that hosts can have.
    pub nb_usable_ip: u32,
}

impl View for SubNet {
    type V = Block;

    open spec fn view(&self) -> Block {
        Block {
            network: self.network as nat,
            first: self.first as nat,
            last: self.last as nat,
            broadcast: self.broadcast as nat,
            cidr: self.cidr as nat,
            usable: self.nb_usable_ip as nat,
        }
    }
}

/// What each descriptor of a sequence stands for.
pub open spec fn views(subnets: Seq<SubNet>) -> Seq<Block> {
    subnets.map_values(|subnet: SubNet| subnet@)
}

/// Every descriptor of a sequence is well formed.
pub open spec fn all_wf(subnets: Seq<SubNet>) -> bool {
    forall|i: int| 0 <= i < subnets.len() ==> (#[trigger] subnets[i]).wf()
}

impl SubNet {
    /// A descriptor is well formed when it is the block of its own prefix
    /// length at its own network address.
    pub open spec fn wf(&self) -> bool {
        &&& self.cidr <= 32
        &&& self@ == block_of(self.network as nat, self.cidr as nat)
    }

    /// Describes the block of prefix length `cidr` that holds `ip`.
    /// `nb_usable_ip` is the number of usable hosts of that prefix length,
    /// which a caller that builds many descriptors computes once.
    pub fn new(ip: Ip, cidr: Cidr, nb_usable_ip: u32) -> (subnet: SubNet)
        requires
            cidr <= 32,
            nb_usable_ip == usable_hosts(cidr as nat),
        ensures
            subnet@ == block_of(ip as nat, cidr as nat),
            subnet.wf(),
            netmask_of(cidr as nat) <= u32::MAX,
            subnet.network == masked(ip, netmask_of(cidr as nat) as u32),
    {
        let network: Ip;
        let first: Ip;
        let last: Ip;
        let broadcast: Ip;

        proof {
            vstd::arithmetic::power2::lemma2_to64();
            lemma_block_in_address_space(ip as nat, cidr as nat);
            lemma_mask_rounds_down(ip, cidr as nat);
        }
        if cidr == 32 {
            network = ip;
            first = ip;
            last = ip;
            broadcast = ip;
        } else if cidr == 31 {
            network = ip & 0xfffffffe;
            proof {
                assert(ip & 0xfffffffe == ip - ip % 2) by (bit_vector);
            }
            first = network;
            last = network + 1;
            broadcast = last;
        } else {
            let (netmask, wildmask) = masks_of(cidr);
            proof {
                lemma_mask_rounds_down(ip, cidr as nat);
            }
            network = create_network(&netmask, &ip);
            first = network + 1;
            broadcast = create_broadcast(&network, &wildmask);
            last = broadcast - 1;
        }

        SubNet { network, first, last, broadcast, cidr, nb_usable_ip }
    }
}

/// Computes the number of usable host addresses of a prefix length.
pub fn usable_host_count(cidr: Cidr) -> (count: u32)
    requires
        cidr <= 32,
    ensures
        count == usable_hosts(cidr as nat),
{
    if cidr == 32 {
        1
    } else if cidr == 31 {
        2
    } else {
        let host_bits: u32 = 32 - cidr;
        let size: u64 = 1u64 << host_bits;
        proof {
            vstd::arithmetic::power2::lemma2_to64();
            vstd::bits::lemma_u64_shl_is_mul(1u64, host_bits as u64);
        }
        (size - 2) as u32
    }
}

/// The addresses of a block are in order: the network address, the first
/// and the last usable address, the broadcast address. The block holds the
/// address it was made for, and it ends within the 32-bit address space.
pub proof fn lemma_block_is_ordered(ip: nat, cidr: nat)
    requires
        ip < pow2(32),
        cidr <= 32,
    ensures
        block_of(ip, cidr).network <= block_of(ip, cidr).first,
        block_of(ip, cidr).first <= block_of(ip, cidr).last,
        block_of(ip, cidr).last <= block_of(ip, cidr).broadcast,
        block_of(ip, cidr).broadcast < pow2(32),
        block_of(ip, cidr).contains(ip),
        block_of(ip, cidr).broadcast - block_of(ip, cidr).network + 1 == block_size(cidr),
        cidr <= 30 ==> block_of(ip, cidr).usable + 2 == block_size(cidr),
{
    lemma_block_in_address_space(ip, cidr);
    lemma_block_size_decreases(cidr, cidr);
}

/// In a well-formed descriptor the network address, the first and the last
/// usable address and the broadcast address are in order, and the number
/// of usable hosts is that of the prefix length.
pub proof fn lemma_wf_descriptor_is_ordered(subnet: SubNet)
    requires
        subnet.wf(),
    ensures
        subnet.network <= subnet.first <= subnet.last <= subnet.broadcast,
        subnet.nb_usable_ip == usable_hosts(subnet.cidr as nat),
        subnet.broadcast - subnet.network + 1 == block_size(subnet.cidr as nat),
{
    vstd::arithmetic::power2::lemma2_to64();
    lemma_block_is_ordered(subnet.network as nat, subnet.cidr as nat);
}

/// A point-to-point block is the address with its lowest bit cleared and
/// the address after it, both usable: the first usable address is the
/// network address, and the last one is the broadcast address.
pub proof fn lemma_point_to_point_block(ip: u32)
    ensures
        (ip & 0xffff_fffe) + 1 <= u32::MAX,
        block_of(ip as nat, 31) == (Block {
            network: (ip & 0xffff_fffe) as nat,
            first: (ip & 0xffff_fffe) as nat,
            last: ((ip & 0xffff_fffe) + 1) as nat,
            broadcast: ((ip & 0xffff_fffe) + 1) as nat,
            cidr: 31,
            usable: 2,
        }),
{
    vstd::arithmetic::power2::lemma2_to64();
    assert(ip & 0xffff_fffe == ip - ip % 2 && (ip & 0xffff_fffe) < 0xffff_ffff) by (bit_vector);
}

/// A host route is its one address, which is usable.
pub proof fn lemma_host_route_block(ip: u32)
    ensures
        block_of(ip as nat, 32) == (Block {
            network: ip as nat,
            first: ip as nat,
            last: ip as nat,
            broadcast: ip as nat,
            cidr: 32,
            usable: 1,
        }),
{
    vstd::arithmetic::power2::lemma2_to64();
}

/// Two descriptors that stand for the same block are the same descriptor,
/// and so for two sequences of them.
pub proof fn lemma_views_determine_descriptors(first: Seq<SubNet>, second: Seq<SubNet>)
    requires
        views(first) == views(second),
    ensures
        first == second,
{
    assert(first.len() == views(first).len());
    assert forall|i: int| 0 <= i < first.len() implies first[i] == second[i] by {
        assert(views(first)[i] == first[i]@);
    }
}

} // verus!
