//! What the BIOS transfers of a traversal read: runs of sectors, and the
//! sectors that transfers past a given point covered.

use vstd::prelude::*;

use crate::disk::{
    follows_plan, log_extends, new_transfers, step_count, transfer_plan, Bios, Disk, IoMethod,
    Transfer,
};

verus! {
/// The sectors `start, start + 1, ..., start + count - 1`.
pub open spec fn sector_run(start: int, count: int) -> Seq<u32> {
    Seq::new(count as nat, |i: int| (start + i) as u32)
}

/// The transfers made over two successive steps are those of the first step
/// followed by those of the second.
pub proof fn lemma_new_transfers_concat<B: Bios>(b0: B, b1: B, b2: B)
    requires
        log_extends(b0, b1),
        log_extends(b1, b2),
    ensures
        log_extends(b0, b2),
        new_transfers(b0, b2) == new_transfers(b0, b1) + new_transfers(b1, b2),
{
    assert(b2.transfers().subrange(0, b0.transfers().len() as int) =~= b2.transfers().subrange(
        0,
        b1.transfers().len() as int,
    ).subrange(0, b0.transfers().len() as int));
    assert(new_transfers(b0, b2) =~= new_transfers(b0, b1) + new_transfers(b1, b2));
}

/// Every transfer in `ts` starts below sector `limit`: none of them reads
/// from the data area when `limit` is where it begins.
pub open spec fn reads_below(limit: int, ts: Seq<Transfer>) -> bool {
    forall|i: int| 0 <= i < ts.len() ==> (#[trigger] ts[i]).lba < limit
}

/// The sectors that the transfers `ts` starting at or after sector `from`
/// covered, transfer by transfer.
pub open spec fn sectors_read_from(from: int, ts: Seq<Transfer>) -> Seq<u32>
    decreases ts.len(),
{
    if ts.len() == 0 {
        seq![]
    } else {
        (if ts[0].lba >= from {
            sector_run(ts[0].lba as int, ts[0].count as int)
        } else {
            seq![]
        }) + sectors_read_from(from, ts.drop_first())
    }
}

/// The sectors a plan of transfers covers, transfer by transfer.
pub open spec fn plan_sectors(plan: Seq<(int, int)>) -> Seq<u32>
    decreases plan.len(),
{
    if plan.len() == 0 {
        seq![]
    } else {
        sector_run(plan[0].0, plan[0].1) + plan_sectors(plan.drop_first())
    }
}

pub proof fn lemma_sectors_read_concat(from: int, a: Seq<Transfer>, b: Seq<Transfer>)
    ensures
        sectors_read_from(from, a + b) == sectors_read_from(from, a) + sectors_read_from(from, b),
    decreases a.len(),
{
    if a.len() == 0 {
        assert(a + b =~= b);
        assert(sectors_read_from(from, a) =~= Seq::<u32>::empty());
        assert(Seq::<u32>::empty() + sectors_read_from(from, b) =~= sectors_read_from(from, b));
    } else {
        lemma_sectors_read_concat(from, a.drop_first(), b);
        assert((a + b).drop_first() =~= a.drop_first() + b);
        assert((a + b)[0] == a[0]);
        let head = if a[0].lba >= from {
            sector_run(a[0].lba as int, a[0].count as int)
        } else {
            Seq::<u32>::empty()
        };
        assert(sectors_read_from(from, a + b) =~= head + (sectors_read_from(from, a.drop_first())
            + sectors_read_from(from, b)));
    }
}

pub proof fn lemma_reads_below_concat(limit: int, a: Seq<Transfer>, b: Seq<Transfer>)
    requires
        reads_below(limit, a),
        reads_below(limit, b),
    ensures
        reads_below(limit, a + b),
{
    assert forall|i: int| 0 <= i < (a + b).len() implies (#[trigger] (a + b)[i]).lba < limit by {
        if i < a.len() {
            assert((a + b)[i] == a[i]);
        } else {
            assert((a + b)[i] == b[i - a.len()]);
        }
    }
}

pub proof fn lemma_sectors_read_below(from: int, ts: Seq<Transfer>)
    requires
        reads_below(from, ts),
    ensures
        sectors_read_from(from, ts) == Seq::<u32>::empty(),
    decreases ts.len(),
{
    if ts.len() > 0 {
        assert(ts[0].lba < from);
        assert forall|i: int| 0 <= i < ts.drop_first().len() implies (#[trigger] ts.drop_first()[i]).lba
            < from by {
            assert(ts.drop_first()[i] == ts[i + 1]);
        }
        lemma_sectors_read_below(from, ts.drop_first());
        assert(sectors_read_from(from, ts) =~= Seq::<u32>::empty());
    }
}

/// Transfers made exactly as planned, all from `from` on, cover the sectors
/// of the plan.
pub proof fn lemma_sectors_read_plan(from: int, ts: Seq<Transfer>, plan: Seq<(int, int)>)
    requires
        follows_plan(ts, plan),
        ts.len() == plan.len(),
        forall|i: int| 0 <= i < plan.len() ==> (#[trigger] plan[i]).0 >= from,
        forall|i: int| 0 <= i < plan.len() ==> 0 <= (#[trigger] plan[i]).1,
    ensures
        sectors_read_from(from, ts) == plan_sectors(plan),
    decreases ts.len(),
{
    if ts.len() > 0 {
        assert(plan[0].0 >= from);
        assert(follows_plan(ts.drop_first(), plan.drop_first())) by {
            assert forall|i: int| 0 <= i < ts.drop_first().len() implies #[trigger] ts.drop_first()[i].lba
                == plan.drop_first()[i].0 && ts.drop_first()[i].count == plan.drop_first()[i].1 by {
                assert(ts.drop_first()[i] == ts[i + 1]);
                assert(plan.drop_first()[i] == plan[i + 1]);
            }
        }
        assert forall|i: int| 0 <= i < plan.drop_first().len() implies (#[trigger] plan.drop_first()[i]).0
            >= from && 0 <= plan.drop_first()[i].1 by {
            assert(plan.drop_first()[i] == plan[i + 1]);
        }
        lemma_sectors_read_plan(from, ts.drop_first(), plan.drop_first());
        assert(ts[0].lba == plan[0].0 && ts[0].count == plan[0].1);
        assert(sector_run(ts[0].lba as int, ts[0].count as int) =~= sector_run(plan[0].0, plan[0].1));
    }
}

/// The plan for reading `n` sectors from `lba` covers exactly those sectors,
/// and every transfer in it starts within them.
pub proof fn lemma_plan_covers(disk: Disk, lba: int, n: int)
    requires
        disk.wf(),
        0 <= n,
    ensures
        plan_sectors(transfer_plan(disk, lba, n)) == sector_run(lba, n),
        forall|i: int|
            0 <= i < transfer_plan(disk, lba, n).len() ==> lba <= (#[trigger] transfer_plan(
                disk,
                lba,
                n,
            )[i]).0 && 0 <= transfer_plan(disk, lba, n)[i].1,
    decreases n,
{
    if n == 0 {
        assert(sector_run(lba, 0) =~= Seq::<u32>::empty());
    } else {
        let k = step_count(disk, lba, n);
        if let IoMethod::Chs(g) = disk.io_method {
            vstd::arithmetic::div_mod::lemma_mod_bound(lba, g.sector as int);
        }
        assert(1 <= k <= n);
        let p = transfer_plan(disk, lba, n);
        let rest = transfer_plan(disk, lba + k, n - k);
        assert(p == seq![(lba, k)] + rest);
        lemma_plan_covers(disk, lba + k, n - k);
        assert(p.drop_first() =~= rest);
        assert(sector_run(lba, n) =~= sector_run(lba, k) + sector_run(lba + k, n - k));
        assert forall|i: int| 0 <= i < p.len() implies lba <= (#[trigger] p[i]).0 && 0 <= p[i].1 by {
            if i > 0 {
                assert(p[i] == rest[i - 1]);
            }
        }
    }
}

/// Some transfer in `ts` reported failure.
pub open spec fn some_transfer_failed(ts: Seq<Transfer>) -> bool {
    exists|i: int| 0 <= i < ts.len() && !(#[trigger] ts[i]).ok
}

pub proof fn lemma_failed_concat(a: Seq<Transfer>, b: Seq<Transfer>)
    ensures
        some_transfer_failed(a) || some_transfer_failed(b) ==> some_transfer_failed(a + b),
{
    if some_transfer_failed(a) {
        let i = choose|i: int| 0 <= i < a.len() && !(#[trigger] a[i]).ok;
        assert((a + b)[i] == a[i]);
    } else if some_transfer_failed(b) {
        let i = choose|i: int| 0 <= i < b.len() && !(#[trigger] b[i]).ok;
        assert((a + b)[a.len() + i] == b[i]);
    }
}

/// The requests, as (first sector, sector count), of the transfers in `ts`
/// that start at or after sector `from`, in order.
pub open spec fn requests_from(from: int, ts: Seq<Transfer>) -> Seq<(int, int)>
    decreases ts.len(),
{
    if ts.len() == 0 {
        seq![]
    } else {
        (if ts[0].lba >= from {
            seq![(ts[0].lba as int, ts[0].count as int)]
        } else {
            seq![]
        }) + requests_from(from, ts.drop_first())
    }
}

/// The transfers that reading each run of `rs` with one sector read asks for,
/// run after run.
pub open spec fn plan_of_runs(disk: Disk, rs: Seq<(int, int)>) -> Seq<(int, int)>
    decreases rs.len(),
{
    if rs.len() == 0 {
        seq![]
    } else {
        transfer_plan(disk, rs[0].0, rs[0].1) + plan_of_runs(disk, rs.drop_first())
    }
}

pub proof fn lemma_requests_concat(from: int, a: Seq<Transfer>, b: Seq<Transfer>)
    ensures
        requests_from(from, a + b) == requests_from(from, a) + requests_from(from, b),
    decreases a.len(),
{
    if a.len() == 0 {
        assert(a + b =~= b);
        assert(requests_from(from, a) =~= Seq::<(int, int)>::empty());
        assert(Seq::<(int, int)>::empty() + requests_from(from, b) =~= requests_from(from, b));
    } else {
        lemma_requests_concat(from, a.drop_first(), b);
        assert((a + b).drop_first() =~= a.drop_first() + b);
        assert((a + b)[0] == a[0]);
        let head = if a[0].lba >= from {
            seq![(a[0].lba as int, a[0].count as int)]
        } else {
            Seq::<(int, int)>::empty()
        };
        assert(requests_from(from, a + b) =~= head + (requests_from(from, a.drop_first())
            + requests_from(from, b)));
    }
}

pub proof fn lemma_requests_below(from: int, ts: Seq<Transfer>)
    requires
        reads_below(from, ts),
    ensures
        requests_from(from, ts) == Seq::<(int, int)>::empty(),
    decreases ts.len(),
{
    if ts.len() > 0 {
        assert(ts[0].lba < from);
        assert forall|i: int| 0 <= i < ts.drop_first().len() implies (#[trigger] ts.drop_first()[i]).lba
            < from by {
            assert(ts.drop_first()[i] == ts[i + 1]);
        }
        lemma_requests_below(from, ts.drop_first());
        assert(requests_from(from, ts) =~= Seq::<(int, int)>::empty());
    }
}

/// Transfers made exactly as planned, all from `from` on, are the plan's
/// requests.
pub proof fn lemma_requests_plan(from: int, ts: Seq<Transfer>, plan: Seq<(int, int)>)
    requires
        follows_plan(ts, plan),
        ts.len() == plan.len(),
        forall|i: int| 0 <= i < plan.len() ==> (#[trigger] plan[i]).0 >= from,
    ensures
        requests_from(from, ts) == plan,
    decreases ts.len(),
{
    if ts.len() == 0 {
        assert(plan =~= Seq::<(int, int)>::empty());
    } else {
        assert(plan[0].0 >= from);
        assert(follows_plan(ts.drop_first(), plan.drop_first())) by {
            assert forall|i: int| 0 <= i < ts.drop_first().len() implies #[trigger] ts.drop_first()[i].lba
                == plan.drop_first()[i].0 && ts.drop_first()[i].count == plan.drop_first()[i].1 by {
                assert(ts.drop_first()[i] == ts[i + 1]);
                assert(plan.drop_first()[i] == plan[i + 1]);
            }
        }
        assert forall|i: int| 0 <= i < plan.drop_first().len() implies (#[trigger] plan.drop_first()[i]).0
            >= from by {
            assert(plan.drop_first()[i] == plan[i + 1]);
        }
        lemma_requests_plan(from, ts.drop_first(), plan.drop_first());
        assert(ts[0].lba == plan[0].0 && ts[0].count == plan[0].1);
        assert(plan =~= seq![plan[0]] + plan.drop_first());
    }
}

pub proof fn lemma_plan_of_runs_push(disk: Disk, rs: Seq<(int, int)>, r: (int, int))
    ensures
        plan_of_runs(disk, rs.push(r)) == plan_of_runs(disk, rs) + transfer_plan(disk, r.0, r.1),
    decreases rs.len(),
{
    if rs.len() == 0 {
        assert(rs.push(r).drop_first() =~= Seq::<(int, int)>::empty());
        assert(plan_of_runs(disk, Seq::<(int, int)>::empty()) =~= Seq::<(int, int)>::empty());
        assert(plan_of_runs(disk, rs.push(r)) =~= transfer_plan(disk, r.0, r.1) + Seq::<(int, int)>::empty());
        assert(plan_of_runs(disk, rs) =~= Seq::<(int, int)>::empty());
        assert(Seq::<(int, int)>::empty() + transfer_plan(disk, r.0, r.1) =~= transfer_plan(disk, r.0, r.1));
        assert(transfer_plan(disk, r.0, r.1) + Seq::<(int, int)>::empty() =~= transfer_plan(disk, r.0, r.1));
    } else {
        assert(rs.push(r).drop_first() =~= rs.drop_first().push(r));
        lemma_plan_of_runs_push(disk, rs.drop_first(), r);
        assert(rs.push(r)[0] == rs[0]);
        assert(plan_of_runs(disk, rs.push(r)) =~= transfer_plan(disk, rs[0].0, rs[0].1) + (
        plan_of_runs(disk, rs.drop_first()) + transfer_plan(disk, r.0, r.1)));
    }
}

} // verus!
