//! Address arithmetic: netmask, wildcard mask, network and broadcast address.

use vstd::prelude::*;
use vstd::arithmetic::power2::pow2;
use crate::error::SubnetError;

verus! {

/// An IPv4 address: four octets, the first one in the highest byte.
pub type Ip = u32;

/// A prefix length: the number of leading network bits, 0 to 32.
pub type Cidr = u32;

/// The number of addresses in a block of the given prefix length.
pub open spec fn block_size(cidr: nat) -> nat {
    pow2((32 - cidr) as nat)
}

/// The netmask of a prefix length, as a number: all 32 bits but the host bits.
pub open spec fn netmask_of(cidr: nat) -> nat {
    (pow2(32) - block_size(cidr)) as nat
}

/// The wildcard mask of a prefix length, as a number: the host bits.
pub open spec fn wildcard_of(cidr: nat) -> nat {
    (block_size(cidr) - 1) as nat
}

/// The network address of the block of the given prefix length that holds
/// `ip`: `ip` rounded down to a multiple of the block size.
pub open spec fn network_of(ip: nat, cidr: nat) -> nat {
    (ip - ip % block_size(cidr)) as nat
}

/// An address with the bits cleared that the netmask leaves out.
pub open spec fn masked(ip: u32, netmask: u32) -> u32 {
    ip & netmask
}

/// The last address of the block that starts at `network` and has the given
/// wildcard mask.
pub open spec fn broadcast_of(network: nat, wildmask: nat) -> nat {
    network + wildmask
}

/// The netmask and the wildcard mask of a valid prefix length.
pub(crate) fn masks_of(cidr: Cidr) -> (masks: (Ip, Ip))
    requires
        cidr <= 32,
    ensures
        masks.0 == netmask_of(cidr as nat),
        masks.1 == wildcard_of(cidr as nat),
        masks.1 == !masks.0,
{
    if cidr == 0 {
        proof {
            vstd::arithmetic::power2::lemma2_to64();
            assert(!0u32 == 0xffff_ffffu32) by (bit_vector);
        }
        return (0, u32::MAX);
    }
    let right_len: u32 = 32 - cidr;
    let netmask: u32 = (u32::MAX >> right_len) << right_len;
    proof {
        lemma_shifted_mask(right_len);
        assert(!netmask == 0xffff_ffffu32 - netmask) by (bit_vector);
    }
    (netmask, !netmask)
}

/// Derives the netmask and the wildcard mask of a prefix length.
/// A prefix length above 32 is refused.
pub fn create_netmask(cidr: Cidr) -> (r: Result<(Ip, Ip), SubnetError>)
    ensures
        r is Ok <==> cidr <= 32,
        r matches Ok(masks) ==> {
            &&& masks.0 == netmask_of(cidr as nat)
            &&& masks.1 == wildcard_of(cidr as nat)
            &&& masks.1 == !masks.0
        },
        r matches Err(e) ==> e == SubnetError::InvalidPrefixLength,
{
    if cidr > 32 {
        return Err(SubnetError::InvalidPrefixLength);
    }
    Ok(masks_of(cidr))
}

/// Clears the host bits of an address.
pub fn create_network(netmask: &Ip, ip: &Ip) -> (network: Ip)
    ensures
        network == masked(*ip, *netmask),
{
    *ip & *netmask
}

/// Adds the wildcard mask to a network address, which gives the last address
/// of its block.
pub fn create_broadcast(network: &Ip, wildmask: &Ip) -> (broadcast: Ip)
    requires
        *network + *wildmask <= u32::MAX,
    ensures
        broadcast == broadcast_of(*network as nat, *wildmask as nat),
{
    *network + *wildmask
}

/// Masking with the netmask of a prefix length rounds an address down to a
/// multiple of the block size.
pub proof fn lemma_mask_rounds_down(ip: u32, cidr: nat)
    requires
        cidr <= 32,
    ensures
        netmask_of(cidr) <= u32::MAX,
        masked(ip, netmask_of(cidr) as u32) == network_of(ip as nat, cidr),
{
    vstd::arithmetic::power2::lemma2_to64();
    if cidr == 0 {
        assert(ip & 0u32 == 0u32) by (bit_vector);
    } else {
        let host_bits: u32 = (32 - cidr) as u32;
        let size: nat = pow2(host_bits as nat);
        let quotient: u32 = ip >> host_bits;
        lemma_shifted_mask(host_bits);
        assert(ip & ((0xffff_ffffu32 >> host_bits) << host_bits) == (ip >> host_bits) << host_bits)
            by (bit_vector)
            requires
                host_bits < 32,
        ;
        vstd::bits::lemma_u32_shr_is_div(ip, host_bits);
        vstd::arithmetic::div_mod::lemma_fundamental_div_mod(ip as int, size as int);
        assert(quotient * size == size * quotient) by (nonlinear_arith);
        vstd::bits::lemma_u32_shl_is_mul(quotient, host_bits);
    }
}

/// The netmask of a prefix length is that many leading one bits, and zero
/// bits after them: the bit at position `bit`, counted from the lowest, is
/// set where it is one of the `cidr` highest.
pub proof fn lemma_netmask_bits(cidr: nat, bit: u32)
    requires
        cidr <= 32,
        bit < 32,
    ensures
        netmask_of(cidr) <= u32::MAX,
        ((netmask_of(cidr) as u32) >> bit) & 1 == 1 <==> bit >= 32 - cidr,
{
    if cidr == 0 {
        assert((0u32 >> bit) & 1 == 0) by (bit_vector);
    } else {
        let host_bits: u32 = (32 - cidr) as u32;
        lemma_shifted_mask(host_bits);
        assert(((((0xffff_ffffu32 >> host_bits) << host_bits) >> bit) & 1 == 1) <==> bit
            >= host_bits) by (bit_vector)
            requires
                host_bits < 32,
                bit < 32,
        ;
    }
}

/// Masking an address that is already masked changes nothing.
pub proof fn lemma_masking_is_idempotent(ip: u32, cidr: nat)
    requires
        cidr <= 32,
    ensures
        netmask_of(cidr) <= u32::MAX,
        ({
            let netmask = netmask_of(cidr) as u32;
            masked(masked(ip, netmask), netmask) == masked(ip, netmask)
        }),
{
    lemma_mask_rounds_down(ip, cidr);
    let netmask: u32 = netmask_of(cidr) as u32;
    assert((ip & netmask) & netmask == ip & netmask) by (bit_vector);
}

/// From the network address to the broadcast address, both counted, a block
/// holds as many addresses as its prefix length says.
pub proof fn lemma_block_spans_its_size(network: u32, cidr: nat)
    requires
        cidr <= 32,
    ensures
        broadcast_of(network as nat, wildcard_of(cidr)) - network + 1 == pow2((32 - cidr) as nat),
{
    vstd::arithmetic::power2::lemma_pow2_pos((32 - cidr) as nat);
}

/// A longer prefix length gives a smaller block, never an empty one, and no
/// block is larger than the address space.
pub proof fn lemma_block_size_decreases(shorter: nat, longer: nat)
    requires
        shorter <= longer <= 32,
    ensures
        0 < block_size(longer) <= block_size(shorter) <= pow2(32),
        longer <= 30 ==> block_size(longer) >= 4,
        pow2(32) == 0x1_0000_0000,
{
    vstd::arithmetic::power2::lemma2_to64();
}

/// A block lies within the 32-bit address space: it starts at a multiple of
/// its size, at or below each of its addresses, and ends below 2^32.
pub proof fn lemma_block_in_address_space(ip: nat, cidr: nat)
    requires
        ip < pow2(32),
        cidr <= 32,
    ensures
        network_of(ip, cidr) <= ip,
        ip < network_of(ip, cidr) + block_size(cidr) <= pow2(32),
        network_of(ip, cidr) % block_size(cidr) == 0,
        network_of(network_of(ip, cidr), cidr) == network_of(ip, cidr),
{
    let size: int = block_size(cidr) as int;
    let count: int = pow2(cidr) as int;
    let quotient: int = ip as int / size;
    vstd::arithmetic::power2::lemma_pow2_adds((32 - cidr) as nat, cidr);
    vstd::arithmetic::div_mod::lemma_fundamental_div_mod(ip as int, size);
    assert(quotient < count) by (nonlinear_arith)
        requires
            size * quotient < size * count,
            size > 0,
    ;
    assert(size * quotient + size <= size * count) by (nonlinear_arith)
        requires
            quotient < count,
            size > 0,
    ;
    vstd::arithmetic::div_mod::lemma_mod_multiples_basic(quotient, size);
    assert(size * quotient == quotient * size) by (nonlinear_arith);
}

/// All ones, with the lowest `host_bits` bits cleared, is 2^32 - 2^host_bits.
proof fn lemma_shifted_mask(host_bits: u32)
    requires
        host_bits < 32,
    ensures
        (u32::MAX >> host_bits) << host_bits == pow2(32) - pow2(host_bits as nat),
        0 < pow2(host_bits as nat) <= u32::MAX,
        pow2(32) == 0x1_0000_0000,
{
    vstd::arithmetic::power2::lemma2_to64();
    vstd::bits::lemma_u32_shl_is_mul(1u32, host_bits);
    assert((0xffff_ffffu32 >> host_bits) << host_bits == 0x1_0000_0000 - (1u32 << host_bits))
        by (bit_vector)
        requires
            host_bits < 32,
    ;
}

} // verus!
