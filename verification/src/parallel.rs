//! The partition shared out among workers: each worker describes its own
//! range of the subnets, and the parts are merged in the order of the
//! workers' numbers.

use vstd::prelude::*;
use crate::error::SubnetError;
use crate::partition::{
    blocks, can_partition, count_subnets, enumerate_range, lemma_partition_tiles_base_block,
    lemma_subnets_fill_base, run_fits, subnet_count, tiles,
};
use crate::subnet::{all_wf, block_of, views, Block, SubNet};
use crate::utils::{block_size, Cidr, Ip};

verus! {

/// The number of the first subnet that a worker describes, when `count`
/// subnets are shared out among `workers` workers.
pub open spec fn worker_start(count: nat, workers: nat, worker: nat) -> nat {
    worker * (count / workers)
}

/// The number of subnets that a worker describes: an equal share for each,
/// and what is left over for the last worker too.
pub open spec fn worker_len(count: nat, workers: nat, worker: nat) -> nat {
    if worker + 1 == workers {
        (count - worker_start(count, workers, worker)) as nat
    } else {
        count / workers
    }
}

/// What the workers describe, put together in the order of the workers'
/// numbers, for the workers below `upto`.
pub open spec fn merged_blocks(ip: nat, cidr: nat, count: nat, workers: nat, upto: nat) -> Seq<
    Block,
>
    decreases upto,
{
    if upto == 0 {
        Seq::empty()
    } else {
        merged_blocks(ip, cidr, count, workers, (upto - 1) as nat) + blocks(
            ip,
            cidr,
            worker_start(count, workers, (upto - 1) as nat),
            worker_len(count, workers, (upto - 1) as nat),
        )
    }
}

/// Every worker delivered its part.
pub open spec fn all_delivered(parts: Seq<Option<Vec<SubNet>>>) -> bool {
    forall|i: int| 0 <= i < parts.len() ==> (#[trigger] parts[i]) is Some
}

/// The parts that were delivered, one after another in the order of the
/// workers' numbers.
pub open spec fn joined(parts: Seq<Option<Vec<SubNet>>>) -> Seq<SubNet>
    decreases parts.len(),
{
    if parts.len() == 0 {
        Seq::empty()
    } else {
        joined(parts.drop_last()) + match parts.last() {
            Some(part) => part@,
            None => Seq::empty(),
        }
    }
}

/// Each worker delivered a part, and the part of each stands for the range
/// of subnets that falls to it when `count` subnets are shared out among as
/// many workers as there are parts.
pub open spec fn each_describes_its_range(
    parts: Seq<Option<Vec<SubNet>>>,
    ip: nat,
    cidr: nat,
    count: nat,
) -> bool {
    forall|worker: int|
        0 <= worker < parts.len() ==> {
            &&& (#[trigger] parts[worker]) matches Some(part)
            &&& all_wf(part@)
            &&& views(part@) == blocks(
                ip,
                cidr,
                worker_start(count, parts.len(), worker as nat),
                worker_len(count, parts.len(), worker as nat),
            )
        }
}

/// Computes the range of subnet numbers that a worker describes, as the
/// number of its first subnet and the number of its subnets.
pub fn worker_range(subnet_count: u64, worker_count: u8, worker: u8) -> (range: (u64, u64))
    requires
        worker < worker_count,
    ensures
        range.0 == worker_start(subnet_count as nat, worker_count as nat, worker as nat),
        range.1 == worker_len(subnet_count as nat, worker_count as nat, worker as nat),
{
    proof {
        lemma_worker_ranges_partition(subnet_count as nat, worker_count as nat, worker as nat);
    }
    let share: u64 = subnet_count / (worker_count as u64);
    let start: u64 = (worker as u64) * share;
    let len: u64 = if worker + 1 == worker_count {
        subnet_count - start
    } else {
        share
    };
    (start, len)
}

/// Puts the parts of the workers together in the order of the workers'
/// numbers, whatever the order in which they were finished. Where a worker
/// delivered nothing, the whole result is refused: no part of it comes back.
pub fn merge(parts: &Vec<Option<Vec<SubNet>>>) -> (r: Result<Vec<SubNet>, SubnetError>)
    ensures
        r is Ok <==> all_delivered(parts@),
        r matches Ok(subnets) ==> subnets@ == joined(parts@),
        r matches Err(e) ==> e == SubnetError::AggregateFailure,
{
    let mut checked: usize = 0;
    while checked < parts.len()
        invariant
            checked <= parts@.len(),
            forall|i: int| 0 <= i < checked ==> (#[trigger] parts@[i]) is Some,
        decreases parts@.len() - checked,
    {
        if parts[checked].is_none() {
            return Err(SubnetError::AggregateFailure);
        }
        checked = checked + 1;
    }
    let mut subnets: Vec<SubNet> = Vec::new();
    let mut worker: usize = 0;
    while worker < parts.len()
        invariant
            worker <= parts@.len(),
            subnets@ == joined(parts@.take(worker as int)),
        decreases parts@.len() - worker,
    {
        let ghost before: Seq<SubNet> = subnets@;
        match &parts[worker] {
            Some(part) => {
                let mut taken: usize = 0;
                while taken < part.len()
                    invariant
                        taken <= part@.len(),
                        subnets@ == before + part@.take(taken as int),
                    decreases part@.len() - taken,
                {
                    subnets.push(part[taken]);
                    taken = taken + 1;
                }
            },
            None => {},
        }
        proof {
            assert(parts@.take(worker + 1).drop_last() =~= parts@.take(worker as int));
        }
        worker = worker + 1;
    }
    assert(parts@.take(worker as int) =~= parts@);
    Ok(subnets)
}

/// Describes every subnet of prefix length `sub_cidr` of the base block as
/// `worker_count` workers do it between them: each worker describes its own
/// range of the subnets without looking at any other, and the parts are
/// merged in the order of the workers' numbers. A worker count of 0 is
/// refused.
///
/// The workers' jobs run one after another here. A caller with threads
/// gives each thread one call of [`enumerate_range`] on the range that
/// [`worker_range`] names and hands the parts to [`merge`].
pub fn enumerate_parallel(
    base_network: Ip,
    base_cidr: Cidr,
    sub_cidr: Cidr,
    worker_count: u8,
) -> (r: Result<Vec<SubNet>, SubnetError>)
    requires
        can_partition(base_network as nat, base_cidr as nat, sub_cidr as nat),
    ensures
        worker_count == 0 ==> r == Err::<Vec<SubNet>, SubnetError>(
            SubnetError::InvalidWorkerCount,
        ),
        worker_count > 0 ==> (r matches Ok(subnets) && {
            &&& views(subnets@) == blocks(
                base_network as nat,
                sub_cidr as nat,
                0,
                subnet_count(base_cidr as nat, sub_cidr as nat),
            )
            &&& all_wf(subnets@)
            &&& base_network as nat % block_size(base_cidr as nat) == 0 ==> tiles(
                views(subnets@),
                block_of(base_network as nat, base_cidr as nat),
            )
        }),
{
    if worker_count == 0 {
        return Err(SubnetError::InvalidWorkerCount);
    }
    let ghost ip: nat = base_network as nat;
    let ghost cidr: nat = sub_cidr as nat;
    let count: u64 = count_subnets(base_cidr, sub_cidr);
    proof {
        lemma_subnets_fill_base(base_cidr as nat, sub_cidr as nat);
    }
    let mut parts: Vec<Option<Vec<SubNet>>> = Vec::new();
    let mut worker: u8 = 0;
    while worker < worker_count
        invariant
            worker <= worker_count,
            sub_cidr <= 32,
            ip == base_network,
            cidr == sub_cidr,
            run_fits(ip, cidr, 0, count as nat),
            parts@.len() == worker,
            forall|w: int|
                0 <= w < worker ==> {
                    &&& (#[trigger] parts@[w]) matches Some(part)
                    &&& all_wf(part@)
                    &&& views(part@) == blocks(
                        ip,
                        cidr,
                        worker_start(count as nat, worker_count as nat, w as nat),
                        worker_len(count as nat, worker_count as nat, w as nat),
                    )
                },
        decreases worker_count - worker,
    {
        let (start, len) = worker_range(count, worker_count, worker);
        proof {
            lemma_worker_ranges_partition(count as nat, worker_count as nat, worker as nat);
            assert((start + len) * block_size(cidr) <= count * block_size(cidr))
                by (nonlinear_arith)
                requires
                    start + len <= count,
            ;
        }
        let part: Vec<SubNet> = enumerate_range(base_network, sub_cidr, start, len);
        parts.push(Some(part));
        worker = worker + 1;
    }
    proof {
        lemma_merged_parts_are_the_whole(parts@, ip, cidr, count as nat);
        if ip % block_size(base_cidr as nat) == 0 {
            lemma_partition_tiles_base_block(ip, base_cidr as nat, cidr);
        }
    }
    merge(&parts)
}

/// The ranges of the workers follow one another from 0 to `count` with
/// nothing left out and nothing taken twice.
pub proof fn lemma_worker_ranges_partition(count: nat, workers: nat, worker: nat)
    requires
        worker < workers,
    ensures
        worker_start(count, workers, 0) == 0,
        worker_start(count, workers, worker) + worker_len(count, workers, worker) <= count,
        worker + 1 < workers ==> worker_start(count, workers, worker + 1) == worker_start(
            count,
            workers,
            worker,
        ) + worker_len(count, workers, worker),
        worker + 1 == workers ==> worker_start(count, workers, worker) + worker_len(
            count,
            workers,
            worker,
        ) == count,
{
    let share: int = count as int / workers as int;
    vstd::arithmetic::div_mod::lemma_fundamental_div_mod(count as int, workers as int);
    assert((worker + 1) * share == worker * share + share) by (nonlinear_arith);
    assert((worker + 1) * share <= workers * share) by (nonlinear_arith)
        requires
            worker + 1 <= workers,
            share >= 0,
    ;
}

/// However many workers share the work, the merged result is the same: the
/// whole run of blocks in address order, as one worker alone describes it.
pub proof fn lemma_worker_count_is_irrelevant(
    ip: nat,
    cidr: nat,
    count: nat,
    workers: nat,
    other_workers: nat,
)
    requires
        workers >= 1,
        other_workers >= 1,
    ensures
        merged_blocks(ip, cidr, count, workers, workers) == blocks(ip, cidr, 0, count),
        merged_blocks(ip, cidr, count, workers, workers) == merged_blocks(
            ip,
            cidr,
            count,
            other_workers,
            other_workers,
        ),
{
    lemma_merged_prefix(ip, cidr, count, workers, workers);
    lemma_merged_prefix(ip, cidr, count, other_workers, other_workers);
}

/// Where each worker described its own range, the merged parts are the whole
/// run of subnets in address order, whatever the number of workers.
pub proof fn lemma_merged_parts_are_the_whole(
    parts: Seq<Option<Vec<SubNet>>>,
    ip: nat,
    cidr: nat,
    count: nat,
)
    requires
        parts.len() >= 1,
        each_describes_its_range(parts, ip, cidr, count),
    ensures
        all_delivered(parts),
        views(joined(parts)) == blocks(ip, cidr, 0, count),
        all_wf(joined(parts)),
{
    lemma_joined_prefix(parts, ip, cidr, count, parts.len());
    assert(parts.take(parts.len() as int) =~= parts);
    lemma_worker_count_is_irrelevant(ip, cidr, count, parts.len(), 1);
}

/// The parts of the workers below `upto`, put together, are the run of
/// blocks up to the first subnet of worker `upto`.
proof fn lemma_merged_prefix(ip: nat, cidr: nat, count: nat, workers: nat, upto: nat)
    requires
        upto <= workers,
        workers >= 1,
    ensures
        upto < workers ==> merged_blocks(ip, cidr, count, workers, upto) == blocks(
            ip,
            cidr,
            0,
            worker_start(count, workers, upto),
        ),
        upto == workers ==> merged_blocks(ip, cidr, count, workers, upto) == blocks(
            ip,
            cidr,
            0,
            count,
        ),
    decreases upto,
{
    if upto > 0 {
        let worker: nat = (upto - 1) as nat;
        lemma_merged_prefix(ip, cidr, count, workers, worker);
        lemma_worker_ranges_partition(count, workers, worker);
    }
}

/// The delivered parts of the workers below `upto`, put together, stand
/// for what those workers were to describe.
proof fn lemma_joined_prefix(
    parts: Seq<Option<Vec<SubNet>>>,
    ip: nat,
    cidr: nat,
    count: nat,
    upto: nat,
)
    requires
        upto <= parts.len(),
        each_describes_its_range(parts, ip, cidr, count),
    ensures
        views(joined(parts.take(upto as int))) == merged_blocks(
            ip,
            cidr,
            count,
            parts.len(),
            upto,
        ),
        all_wf(joined(parts.take(upto as int))),
    decreases upto,
{
    let taken: Seq<Option<Vec<SubNet>>> = parts.take(upto as int);
    if upto > 0 {
        lemma_joined_prefix(parts, ip, cidr, count, (upto - 1) as nat);
        assert(taken.drop_last() =~= parts.take(upto - 1));
    }
}

} // verus!
