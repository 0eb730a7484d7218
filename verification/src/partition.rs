//! The partition of a base block into subnets of one size, in address order.

use vstd::prelude::*;
use vstd::arithmetic::power2::pow2;
use crate::subnet::{
    all_wf, block_of, usable_host_count, usable_hosts, views, Block, SubNet,
};
use crate::utils::{
    block_size, create_network, lemma_block_in_address_space, lemma_block_size_decreases,
    lemma_mask_rounds_down, masks_of, network_of, Cidr, Ip,
};

verus! {

/// The number of subnets of prefix length `sub_cidr` in a block of prefix
/// length `base_cidr`.
pub open spec fn subnet_count(base_cidr: nat, sub_cidr: nat) -> nat {
    pow2((sub_cidr - base_cidr) as nat)
}

/// The block number `index` of the run of blocks of prefix length `cidr`
/// that starts with the block that holds `ip`.
pub open spec fn nth_block(ip: nat, cidr: nat, index: nat) -> Block {
    block_of(network_of(ip, cidr) + index * block_size(cidr), cidr)
}

/// `count` blocks of that run in address order, from block number `from` on.
pub open spec fn blocks(ip: nat, cidr: nat, from: nat, count: nat) -> Seq<Block> {
    Seq::new(count, |i: int| nth_block(ip, cidr, (from + i) as nat))
}

/// A run of `count` blocks from block number `from` on ends within the
/// 32-bit address space.
pub open spec fn run_fits(ip: nat, cidr: nat, from: nat, count: nat) -> bool {
    network_of(ip, cidr) + (from + count) * block_size(cidr) <= pow2(32)
}

/// The base block at `ip` can be cut into subnets of prefix length
/// `sub_cidr`: the prefix lengths are in order, and as many subnets as the
/// base block holds, counted from the one that holds `ip`, end within the
/// 32-bit address space.
pub open spec fn can_partition(ip: nat, base_cidr: nat, sub_cidr: nat) -> bool {
    &&& base_cidr <= sub_cidr <= 32
    &&& network_of(ip, sub_cidr) + block_size(base_cidr) <= pow2(32)
}

/// The blocks tile the base block: the first one starts at the network
/// address of the base block, each further one starts one address above the
/// broadcast address of the one before, and the last one ends at the
/// broadcast address of the base block. So the blocks are in address order,
/// no two of them share an address, and every address of the base block lies
/// in one of them.
pub open spec fn tiles(blocks: Seq<Block>, base: Block) -> bool {
    &&& blocks.len() >= 1
    &&& blocks.first().network == base.network
    &&& blocks.last().broadcast == base.broadcast
    &&& forall|i: int|
        0 <= i < blocks.len() - 1 ==> (#[trigger] blocks[i]).broadcast + 1 == blocks[i
            + 1].network
    &&& forall|i: int|
        0 <= i < blocks.len() ==> (#[trigger] blocks[i]).network <= blocks[i].broadcast
    &&& forall|i: int, j: int|
        0 <= i < j < blocks.len() ==> (#[trigger] blocks[i]).broadcast < (
        #[trigger] blocks[j]).network
    &&& forall|address: nat| #[trigger]
        base.contains(address) ==> exists|i: int|
            0 <= i < blocks.len() && (#[trigger] blocks[i]).contains(address)
}

/// Computes the number of subnets of prefix length `sub_cidr` in a block of
/// prefix length `base_cidr`.
pub fn count_subnets(base_cidr: Cidr, sub_cidr: Cidr) -> (count: u64)
    requires
        base_cidr <= sub_cidr <= 32,
    ensures
        count == subnet_count(base_cidr as nat, sub_cidr as nat),
{
    proof {
        lemma_subnets_fill_base(base_cidr as nat, sub_cidr as nat);
        vstd::bits::lemma_u64_shl_is_mul(1u64, (sub_cidr - base_cidr) as u64);
    }
    1u64 << (sub_cidr - base_cidr)
}

/// Tells whether the base block at `base_network` can be cut into subnets
/// of prefix length `sub_cidr`.
pub fn partition_fits(base_network: Ip, base_cidr: Cidr, sub_cidr: Cidr) -> (fits: bool)
    ensures
        fits == can_partition(base_network as nat, base_cidr as nat, sub_cidr as nat),
{
    if base_cidr > sub_cidr || sub_cidr > 32 {
        return false;
    }
    let (netmask, _) = masks_of(sub_cidr);
    let aligned: u32 = create_network(&netmask, &base_network);
    let base_size: u64 = 1u64 << (32 - base_cidr);
    proof {
        lemma_mask_rounds_down(base_network, sub_cidr as nat);
        lemma_block_size_decreases(base_cidr as nat, sub_cidr as nat);
        vstd::bits::lemma_u64_shl_is_mul(1u64, (32 - base_cidr) as u64);
    }
    aligned as u64 + base_size <= 0x1_0000_0000
}

/// Describes every subnet of prefix length `sub_cidr` of the base block, in
/// address order: the first one is the subnet that holds `base_network`,
/// and each further one starts one address above the broadcast address of
/// the one before. Where `base_network` is the network address of the base
/// block, the subnets tile the base block.
pub fn enumerate(base_network: Ip, base_cidr: Cidr, sub_cidr: Cidr) -> (subnets: Vec<SubNet>)
    requires
        can_partition(base_network as nat, base_cidr as nat, sub_cidr as nat),
    ensures
        views(subnets@) == blocks(
            base_network as nat,
            sub_cidr as nat,
            0,
            subnet_count(base_cidr as nat, sub_cidr as nat),
        ),
        all_wf(subnets@),
        base_network as nat % block_size(base_cidr as nat) == 0 ==> tiles(
            views(subnets@),
            block_of(base_network as nat, base_cidr as nat),
        ),
{
    let count: u64 = count_subnets(base_cidr, sub_cidr);
    proof {
        lemma_subnets_fill_base(base_cidr as nat, sub_cidr as nat);
        if base_network as nat % block_size(base_cidr as nat) == 0 {
            lemma_partition_tiles_base_block(
                base_network as nat,
                base_cidr as nat,
                sub_cidr as nat,
            );
        }
    }
    enumerate_range(base_network, sub_cidr, 0, count)
}

/// Describes `len` subnets of prefix length `sub_cidr` in address order,
/// from subnet number `start_index` on, counting from the subnet that holds
/// `base_network`.
///
/// The first address is found at once, as `start_index` block sizes above
/// the first subnet; each further subnet starts one address above the
/// broadcast address of the one before.
pub fn enumerate_range(base_network: Ip, sub_cidr: Cidr, start_index: u64, len: u64) -> (subnets:
    Vec<SubNet>)
    requires
        sub_cidr <= 32,
        run_fits(base_network as nat, sub_cidr as nat, start_index as nat, len as nat),
    ensures
        views(subnets@) == blocks(
            base_network as nat,
            sub_cidr as nat,
            start_index as nat,
            len as nat,
        ),
        all_wf(subnets@),
{
    let mut subnets: Vec<SubNet> = Vec::new();
    if len == 0 {
        return subnets;
    }
    let ghost ip: nat = base_network as nat;
    let ghost cidr: nat = sub_cidr as nat;
    let ghost size: nat = block_size(cidr);
    let nb_usable_ip: u32 = usable_host_count(sub_cidr);
    let stride: u64 = 1u64 << (32 - sub_cidr);
    let (netmask, _) = masks_of(sub_cidr);
    let aligned: u32 = create_network(&netmask, &base_network);
    proof {
        lemma_mask_rounds_down(base_network, cidr);
        lemma_block_size_decreases(cidr, cidr);
        vstd::bits::lemma_u64_shl_is_mul(1u64, (32 - sub_cidr) as u64);
        assert(start_index * size < (start_index + len) * size) by (nonlinear_arith)
            requires
                len > 0,
                size > 0,
        ;
    }
    let start: u64 = aligned as u64 + start_index * stride;
    let mut current: SubNet = SubNet::new(start as u32, sub_cidr, nb_usable_ip);
    subnets.push(current);
    let mut done: u64 = 1;
    while done < len
        invariant
            1 <= done <= len,
            sub_cidr <= 32,
            ip == base_network,
            cidr == sub_cidr,
            nb_usable_ip == usable_hosts(cidr),
            run_fits(ip, cidr, start_index as nat, len as nat),
            subnets@.len() == done,
            current == subnets@[done - 1],
            views(subnets@) == blocks(ip, cidr, start_index as nat, done as nat),
            all_wf(subnets@),
        decreases len - done,
    {
        let ghost before: Seq<SubNet> = subnets@;
        let ghost index: nat = (start_index + done - 1) as nat;
        proof {
            lemma_block_size_decreases(cidr, cidr);
            lemma_nth_block(ip, cidr, index);
            lemma_nth_block(ip, cidr, index + 1);
            assert(views(subnets@)[done - 1] == nth_block(ip, cidr, index));
            assert((index + 2) * block_size(cidr) <= (start_index + len) * block_size(cidr))
                by (nonlinear_arith)
                requires
                    index + 2 <= start_index + len,
            ;
            assert((index + 2) * block_size(cidr) == (index + 1) * block_size(cidr) + block_size(
                cidr,
            )) by (nonlinear_arith);
        }
        current = SubNet::new(current.broadcast + 1, sub_cidr, nb_usable_ip);
        subnets.push(current);
        done = done + 1;
        proof {
            let after: Seq<Block> = blocks(ip, cidr, start_index as nat, done as nat);
            assert forall|i: int| 0 <= i < done implies views(subnets@)[i] == after[i] by {
                if i < done - 1 {
                    assert(views(before)[i] == blocks(
                        ip,
                        cidr,
                        start_index as nat,
                        (done - 1) as nat,
                    )[i]);
                }
            }
        }
    }
    subnets
}

/// The block that starts one address above the last address of a block of
/// the same prefix length follows it at once and is as large: between the
/// two there is no gap and no address in both, and the second one lies
/// above the first.
pub proof fn lemma_next_block_follows(ip: nat, cidr: nat)
    requires
        ip < pow2(32),
        cidr <= 32,
        block_of(ip, cidr).broadcast + 1 < pow2(32),
    ensures
        ({
            let block = block_of(ip, cidr);
            let next = block_of(block.broadcast + 1, cidr);
            &&& next.network == block.broadcast + 1
            &&& next.broadcast - next.network == block.broadcast - block.network
            &&& next.first - next.network == block.first - block.network
            &&& next.broadcast - next.last == block.broadcast - block.last
            &&& next.cidr == block.cidr
            &&& next.usable == block.usable
            &&& block.network <= block.broadcast < next.network <= next.broadcast < pow2(32)
        }),
{
    lemma_nth_block(ip, cidr, 0);
    lemma_nth_block(ip, cidr, 1);
    lemma_block_in_address_space(ip, cidr);
    lemma_block_in_address_space(block_of(ip, cidr).broadcast + 1, cidr);
    lemma_block_size_decreases(cidr, cidr);
}

/// The subnets of the base block that holds an address tile it, and each of
/// them is the block at its own multiple of the subnet size above the
/// network address of the base block.
pub proof fn lemma_subnets_tile_block_of(ip: nat, base_cidr: nat, sub_cidr: nat)
    requires
        ip < pow2(32),
        base_cidr <= sub_cidr <= 32,
    ensures
        ({
            let base = block_of(ip, base_cidr);
            let count = subnet_count(base_cidr, sub_cidr);
            let subnets = blocks(base.network, sub_cidr, 0, count);
            &&& can_partition(base.network, base_cidr, sub_cidr)
            &&& subnets.len() == count
            &&& tiles(subnets, base)
            &&& forall|i: int|
                0 <= i < count ==> #[trigger] subnets[i] == block_of(
                    (base.network + i * block_size(sub_cidr)) as nat,
                    sub_cidr,
                )
        }),
{
    let network: nat = network_of(ip, base_cidr);
    let count: nat = subnet_count(base_cidr, sub_cidr);
    lemma_block_in_address_space(ip, base_cidr);
    lemma_block_size_decreases(base_cidr, sub_cidr);
    lemma_partition_tiles_base_block(network, base_cidr, sub_cidr);
    assert(block_of(network, base_cidr) == block_of(ip, base_cidr));
    assert forall|i: int| 0 <= i < count implies #[trigger] blocks(
        network,
        sub_cidr,
        0,
        count,
    )[i] == block_of((network + i * block_size(sub_cidr)) as nat, sub_cidr) by {
        lemma_aligned_to_base_is_aligned_to_sub(network, base_cidr, sub_cidr);
    }
}

/// A network address of a base block is a network address of its subnets
/// too.
proof fn lemma_aligned_to_base_is_aligned_to_sub(network: nat, base_cidr: nat, sub_cidr: nat)
    requires
        base_cidr <= sub_cidr <= 32,
        network % block_size(base_cidr) == 0,
    ensures
        network % block_size(sub_cidr) == 0,
        network_of(network, sub_cidr) == network,
{
    let count: nat = subnet_count(base_cidr, sub_cidr);
    let size: nat = block_size(sub_cidr);
    let multiple: int = network as int / block_size(base_cidr) as int;
    lemma_subnets_fill_base(base_cidr, sub_cidr);
    lemma_block_size_decreases(base_cidr, sub_cidr);
    vstd::arithmetic::div_mod::lemma_fundamental_div_mod(
        network as int,
        block_size(base_cidr) as int,
    );
    assert(network == (count * multiple) * size) by (nonlinear_arith)
        requires
            network == block_size(base_cidr) * multiple,
            count * size == block_size(base_cidr),
    ;
    vstd::arithmetic::div_mod::lemma_mod_multiples_basic(count * multiple, size as int);
}

/// The subnets of a base block tile it, where the base block is given by
/// its network address.
pub proof fn lemma_partition_tiles_base_block(network: nat, base_cidr: nat, sub_cidr: nat)
    requires
        base_cidr <= sub_cidr <= 32,
        network < pow2(32),
        network % block_size(base_cidr) == 0,
    ensures
        can_partition(network, base_cidr, sub_cidr),
        block_of(network, base_cidr).network == network,
        blocks(network, sub_cidr, 0, subnet_count(base_cidr, sub_cidr)).len() == subnet_count(
            base_cidr,
            sub_cidr,
        ),
        tiles(
            blocks(network, sub_cidr, 0, subnet_count(base_cidr, sub_cidr)),
            block_of(network, base_cidr),
        ),
{
    let count: nat = subnet_count(base_cidr, sub_cidr);
    let size: nat = block_size(sub_cidr);
    let run = blocks(network, sub_cidr, 0, count);
    lemma_subnets_fill_base(base_cidr, sub_cidr);
    lemma_block_in_address_space(network, base_cidr);
    lemma_aligned_to_base_is_aligned_to_sub(network, base_cidr, sub_cidr);
    assert forall|i: int| 0 <= i < count implies {
        &&& (#[trigger] run[i]).network == network + i * size
        &&& run[i].broadcast == network + i * size + size - 1
    } by {
        lemma_nth_block(network, sub_cidr, i as nat);
    }
    assert(run.last().broadcast == network + block_size(base_cidr) - 1) by {
        assert((count - 1) * size + size == count * size) by (nonlinear_arith);
    }
    assert forall|i: int| 0 <= i < run.len() - 1 implies (#[trigger] run[i]).broadcast + 1
        == run[i + 1].network by {
        assert((i + 1) * size == i * size + size) by (nonlinear_arith);
    }
    assert forall|i: int, j: int| 0 <= i < j < run.len() implies (#[trigger] run[i]).broadcast
        < (#[trigger] run[j]).network by {
        assert(i * size + size <= j * size) by (nonlinear_arith)
            requires
                i + 1 <= j,
                size > 0,
        ;
    }
    assert forall|address: nat| #[trigger]
        block_of(network, base_cidr).contains(address) implies exists|i: int|
        0 <= i < run.len() && (#[trigger] run[i]).contains(address) by {
        let offset: int = address - network;
        let i: int = offset / (size as int);
        vstd::arithmetic::div_mod::lemma_fundamental_div_mod(offset, size as int);
        assert(i < count) by (nonlinear_arith)
            requires
                size * i <= offset,
                offset < count * size,
                size > 0,
        ;
        assert(size * i == i * size) by (nonlinear_arith);
        assert(run[i].contains(address));
    }
}

/// Each block of a run starts at its own multiple of the block size above
/// the first one and is followed at once by the next.
pub proof fn lemma_nth_block(ip: nat, cidr: nat, index: nat)
    requires
        ip < pow2(32),
        cidr <= 32,
    ensures
        nth_block(ip, cidr, index).network == network_of(ip, cidr) + index * block_size(cidr),
        nth_block(ip, cidr, index).broadcast + 1 == nth_block(ip, cidr, index + 1).network,
        nth_block(ip, cidr, index).network <= nth_block(ip, cidr, index).first,
        nth_block(ip, cidr, index).first <= nth_block(ip, cidr, index).last,
        nth_block(ip, cidr, index).last <= nth_block(ip, cidr, index).broadcast,
        nth_block(ip, cidr, index + 1) == block_of(
            nth_block(ip, cidr, index).broadcast + 1,
            cidr,
        ),
{
    lemma_block_in_address_space(ip, cidr);
    lemma_block_size_decreases(cidr, cidr);
    lemma_multiple_is_network(network_of(ip, cidr), cidr, index);
    lemma_multiple_is_network(network_of(ip, cidr), cidr, index + 1);
    assert((index + 1) * block_size(cidr) == index * block_size(cidr) + block_size(cidr))
        by (nonlinear_arith);
}

/// A base block holds as many addresses as all of its subnets together.
pub proof fn lemma_subnets_fill_base(base_cidr: nat, sub_cidr: nat)
    requires
        base_cidr <= sub_cidr <= 32,
    ensures
        subnet_count(base_cidr, sub_cidr) * block_size(sub_cidr) == block_size(base_cidr),
        1 <= subnet_count(base_cidr, sub_cidr) <= pow2(32),
        pow2(32) == 0x1_0000_0000,
{
    vstd::arithmetic::power2::lemma2_to64();
    vstd::arithmetic::power2::lemma_pow2_adds(
        (sub_cidr - base_cidr) as nat,
        (32 - sub_cidr) as nat,
    );
}

/// A whole number of blocks above a network address lies a network address.
proof fn lemma_multiple_is_network(network: nat, cidr: nat, index: nat)
    requires
        cidr <= 32,
        network % block_size(cidr) == 0,
    ensures
        network_of(network + index * block_size(cidr), cidr) == network + index * block_size(cidr),
{
    let size: int = block_size(cidr) as int;
    lemma_block_size_decreases(cidr, cidr);
    vstd::arithmetic::div_mod::lemma_mod_multiples_vanish(index as int, network as int, size);
    assert(size * index == index * size) by (nonlinear_arith);
}

} // verus!
