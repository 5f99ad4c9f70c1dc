//! Compute Engine: per-node CPU allocation, container lifecycle
//! advancement, task completion detection, and the materialization of
//! pending scale commands into container objects.
//!
//! Each frame, every node counts its active compute slots — one per
//! cold-starting container and one per admitted ready task — and divides
//! its CPU capacity equally among them (max-min fair, no weighting).

use vstd::prelude::*;
use crate::env::SimEnv;
use crate::scale::ScaleCmd;
use crate::model::{
    containers_mem, FnContainer, FnContainerState, FnDag, FnId, FnRunningState, Func, Node, ReqId,
    Request, IDX_MAX, REQ_CAP, RES_MAX,
};

verus! {

broadcast use vstd::seq_lib::group_seq_properties;

/// Addition clamped at a cap; how realized-usage metrics accumulate.
pub open spec fn add_clamp(a: int, b: int, cap: int) -> int {
    if a + b > cap {
        cap
    } else {
        a + b
    }
}

/// The smaller of two amounts.
pub open spec fn min_int(a: int, b: int) -> int {
    if a < b {
        a
    } else {
        b
    }
}

/// Number of cold-starting containers in the list.
pub open spec fn count_starting(cs: Seq<FnContainer>) -> int
    decreases cs.len(),
{
    if cs.len() == 0 {
        0
    } else {
        count_starting(cs.drop_last()) + if cs.last().is_starting() {
            1int
        } else {
            0int
        }
    }
}

pub proof fn lemma_count_starting_bound(cs: Seq<FnContainer>)
    ensures
        0 <= count_starting(cs) <= cs.len(),
    decreases cs.len(),
{
    if cs.len() > 0 {
        lemma_count_starting_bound(cs.drop_last());
    }
}

/// If no container is counted as starting, none is starting.
pub proof fn lemma_count_starting_zero(cs: Seq<FnContainer>, j: int)
    requires
        count_starting(cs) == 0,
        0 <= j < cs.len(),
    ensures
        !cs[j].is_starting(),
    decreases cs.len(),
{
    lemma_count_starting_bound(cs.drop_last());
    if j < cs.len() - 1 {
        lemma_count_starting_zero(cs.drop_last(), j);
    }
}

/// Whether (function, request) is one of this frame's admitted tasks.
pub open spec fn pair_in(admitted: Seq<(FnId, ReqId)>, f: FnId, r: ReqId) -> bool {
    admitted.contains((f, r))
}

/// What one frame of equal-share compute does to one task's remaining
/// demand: an admitted task consumes its share, clamped so it cannot
/// consume more than it needs; an unadmitted task is untouched.
pub open spec fn task_left_after(t: (ReqId, FnRunningState), fnid: FnId, admitted: Seq<(FnId, ReqId)>, share: int) -> int {
    if pair_in(admitted, fnid, t.0) {
        t.1.left_calc - min_int(share, t.1.left_calc as int)
    } else {
        t.1.left_calc as int
    }
}

/// The container's task list after one compute frame: admitted tasks lose
/// their share of demand, tasks reaching zero are removed, order is kept.
pub open spec fn run_tasks(
    tasks: Seq<(ReqId, FnRunningState)>,
    fnid: FnId,
    admitted: Seq<(FnId, ReqId)>,
    share: int,
) -> Seq<(ReqId, FnRunningState)>
    decreases tasks.len(),
{
    if tasks.len() == 0 {
        tasks
    } else {
        let rest = run_tasks(tasks.drop_last(), fnid, admitted, share);
        let t = tasks.last();
        let nl = task_left_after(t, fnid, admitted, share);
        if pair_in(admitted, fnid, t.0) && nl == 0 {
            rest
        } else {
            rest.push((t.0, FnRunningState { left_calc: nl as u64, data_recv: t.1.data_recv }))
        }
    }
}

/// The requests whose tasks complete this frame, in list order.
pub open spec fn done_of(
    tasks: Seq<(ReqId, FnRunningState)>,
    fnid: FnId,
    admitted: Seq<(FnId, ReqId)>,
    share: int,
) -> Seq<ReqId>
    decreases tasks.len(),
{
    if tasks.len() == 0 {
        Seq::empty()
    } else {
        let rest = done_of(tasks.drop_last(), fnid, admitted, share);
        let t = tasks.last();
        if pair_in(admitted, fnid, t.0) && task_left_after(t, fnid, admitted, share) == 0 {
            rest.push(t.0)
        } else {
            rest
        }
    }
}

/// Number of admitted tasks in the list.
pub open spec fn tasks_calc_cnt(
    tasks: Seq<(ReqId, FnRunningState)>,
    fnid: FnId,
    admitted: Seq<(FnId, ReqId)>,
) -> int
    decreases tasks.len(),
{
    if tasks.len() == 0 {
        0
    } else {
        tasks_calc_cnt(tasks.drop_last(), fnid, admitted) + if pair_in(
            admitted,
            fnid,
            tasks.last().0,
        ) {
            1int
        } else {
            0int
        }
    }
}

/// CPU handed to the container this frame: one share per admitted task,
/// accumulated with a clamp at `cap`.
pub open spec fn tasks_alloc(
    tasks: Seq<(ReqId, FnRunningState)>,
    fnid: FnId,
    admitted: Seq<(FnId, ReqId)>,
    share: int,
    cap: int,
) -> int
    decreases tasks.len(),
{
    if tasks.len() == 0 {
        0
    } else {
        let rest = tasks_alloc(tasks.drop_last(), fnid, admitted, share, cap);
        if pair_in(admitted, fnid, tasks.last().0) {
            add_clamp(rest, share, cap)
        } else {
            rest
        }
    }
}

/// CPU the container's admitted tasks actually consumed this frame,
/// accumulated with a clamp at `cap`.
pub open spec fn tasks_used(
    tasks: Seq<(ReqId, FnRunningState)>,
    fnid: FnId,
    admitted: Seq<(FnId, ReqId)>,
    share: int,
    cap: int,
) -> int
    decreases tasks.len(),
{
    if tasks.len() == 0 {
        0
    } else {
        let rest = tasks_used(tasks.drop_last(), fnid, admitted, share, cap);
        let t = tasks.last();
        if pair_in(admitted, fnid, t.0) {
            add_clamp(rest, min_int(share, t.1.left_calc as int), cap)
        } else {
            rest
        }
    }
}

pub proof fn lemma_clamped_fold_bounds(
    tasks: Seq<(ReqId, FnRunningState)>,
    fnid: FnId,
    admitted: Seq<(FnId, ReqId)>,
    share: int,
    cap: int,
)
    requires
        0 <= share,
        0 <= cap,
    ensures
        0 <= tasks_alloc(tasks, fnid, admitted, share, cap) <= cap,
        0 <= tasks_used(tasks, fnid, admitted, share, cap) <= cap,
        0 <= tasks_calc_cnt(tasks, fnid, admitted) <= tasks.len(),
    decreases tasks.len(),
{
    if tasks.len() > 0 {
        lemma_clamped_fold_bounds(tasks.drop_last(), fnid, admitted, share, cap);
    }
}

/// The tasks that survive a compute frame keep their (distinct) request
/// ids, and none of them is a completed one.
#[verifier::rlimit(100)]
#[verifier::spinoff_prover]
pub proof fn lemma_run_tasks_ids(
    tasks: Seq<(ReqId, FnRunningState)>,
    fnid: FnId,
    admitted: Seq<(FnId, ReqId)>,
    share: int,
)
    requires
        0 <= share,
        forall|k1: int, k2: int| 0 <= k1 < k2 < tasks.len() ==> tasks[k1].0 != tasks[k2].0,
    ensures
        forall|k: int|
            0 <= k < run_tasks(tasks, fnid, admitted, share).len() ==> exists|k0: int|
                0 <= k0 < tasks.len() && tasks[k0].0 == #[trigger] run_tasks(
                    tasks,
                    fnid,
                    admitted,
                    share,
                )[k].0 && tasks[k0].1.data_recv == run_tasks(tasks, fnid, admitted, share)[k].1.data_recv
                && run_tasks(tasks, fnid, admitted, share)[k].1.left_calc <= tasks[k0].1.left_calc,
        forall|k1: int, k2: int|
            0 <= k1 < k2 < run_tasks(tasks, fnid, admitted, share).len() ==> run_tasks(
                tasks,
                fnid,
                admitted,
                share,
            )[k1].0 != run_tasks(tasks, fnid, admitted, share)[k2].0,
        forall|k: int, d: int|
            0 <= k < run_tasks(tasks, fnid, admitted, share).len() && 0 <= d < done_of(
                tasks,
                fnid,
                admitted,
                share,
            ).len() ==> run_tasks(tasks, fnid, admitted, share)[k].0 != done_of(
                tasks,
                fnid,
                admitted,
                share,
            )[d],
        forall|d: int|
            0 <= d < done_of(tasks, fnid, admitted, share).len() ==> exists|k0: int|
                0 <= k0 < tasks.len() && tasks[k0].0 == #[trigger] done_of(
                    tasks,
                    fnid,
                    admitted,
                    share,
                )[d] && pair_in(admitted, fnid, tasks[k0].0),
        forall|d1: int, d2: int|
            0 <= d1 < d2 < done_of(tasks, fnid, admitted, share).len() ==> done_of(
                tasks,
                fnid,
                admitted,
                share,
            )[d1] != done_of(tasks, fnid, admitted, share)[d2],
    decreases tasks.len(),
{
    if tasks.len() > 0 {
        lemma_run_tasks_ids(tasks.drop_last(), fnid, admitted, share);
        let pre = tasks.drop_last();
        let rest = run_tasks(pre, fnid, admitted, share);
        let drest = done_of(pre, fnid, admitted, share);
        let t = tasks.last();
        assert forall|k: int| 0 <= k < rest.len() implies rest[k].0 != t.0 by {
            let k0 = choose|k0: int|
                0 <= k0 < pre.len() && pre[k0].0 == rest[k].0 && pre[k0].1.data_recv
                    == rest[k].1.data_recv && rest[k].1.left_calc <= pre[k0].1.left_calc;
            assert(tasks[k0].0 != tasks[tasks.len() - 1].0);
        }
        assert forall|d: int| 0 <= d < drest.len() implies drest[d] != t.0 by {
            let k0 = choose|k0: int|
                0 <= k0 < pre.len() && pre[k0].0 == drest[d] && pair_in(admitted, fnid, pre[k0].0);
            assert(tasks[k0].0 != tasks[tasks.len() - 1].0);
        }
        let cur = run_tasks(tasks, fnid, admitted, share);
        let dcur = done_of(tasks, fnid, admitted, share);
        if pair_in(admitted, fnid, t.0) && task_left_after(t, fnid, admitted, share) == 0 {
            assert(cur == rest);
            assert(dcur == drest.push(t.0));
            assert forall|d: int| 0 <= d < dcur.len() implies exists|k0: int|
                0 <= k0 < tasks.len() && tasks[k0].0 == #[trigger] dcur[d] && pair_in(
                    admitted,
                    fnid,
                    tasks[k0].0,
                ) by {
                if d == dcur.len() - 1 {
                    assert(tasks[tasks.len() - 1].0 == dcur[d]);
                } else {
                    let k0 = choose|k0: int|
                        0 <= k0 < pre.len() && pre[k0].0 == drest[d] && pair_in(
                            admitted,
                            fnid,
                            pre[k0].0,
                        );
                    assert(tasks[k0].0 == dcur[d] && pair_in(admitted, fnid, tasks[k0].0));
                }
            }
            assert forall|k: int| 0 <= k < cur.len() implies exists|k0: int|
                0 <= k0 < tasks.len() && tasks[k0].0 == #[trigger] cur[k].0 && tasks[k0].1.data_recv
                    == cur[k].1.data_recv && cur[k].1.left_calc <= tasks[k0].1.left_calc by {
                let k0 = choose|k0: int|
                    0 <= k0 < pre.len() && pre[k0].0 == rest[k].0 && pre[k0].1.data_recv
                        == rest[k].1.data_recv && rest[k].1.left_calc <= pre[k0].1.left_calc;
                assert(tasks[k0].0 == cur[k].0 && tasks[k0].1.data_recv == cur[k].1.data_recv
                    && cur[k].1.left_calc <= tasks[k0].1.left_calc);
            }
        } else {
            let nl = task_left_after(t, fnid, admitted, share);
            assert(cur == rest.push((t.0, FnRunningState { left_calc: nl as u64, data_recv: t.1.data_recv })));
            assert(dcur == drest);
            assert forall|k: int| 0 <= k < cur.len() implies exists|k0: int|
                0 <= k0 < tasks.len() && tasks[k0].0 == #[trigger] cur[k].0 && tasks[k0].1.data_recv
                    == cur[k].1.data_recv && cur[k].1.left_calc <= tasks[k0].1.left_calc by {
                if k == cur.len() - 1 {
                    assert(tasks[tasks.len() - 1].0 == cur[k].0);
                    assert(tasks[tasks.len() - 1].1.data_recv == cur[k].1.data_recv);
                    assert(0 <= nl <= t.1.left_calc);
                    assert(cur[k].1.left_calc == nl as u64);
                } else {
                    let k0 = choose|k0: int|
                        0 <= k0 < pre.len() && pre[k0].0 == rest[k].0 && pre[k0].1.data_recv
                            == rest[k].1.data_recv && rest[k].1.left_calc <= pre[k0].1.left_calc;
                    assert(tasks[k0].0 == cur[k].0 && tasks[k0].1.data_recv == cur[k].1.data_recv
                        && cur[k].1.left_calc <= tasks[k0].1.left_calc);
                }
            }
            assert forall|d: int| 0 <= d < dcur.len() implies exists|k0: int|
                0 <= k0 < tasks.len() && tasks[k0].0 == #[trigger] dcur[d] && pair_in(
                    admitted,
                    fnid,
                    tasks[k0].0,
                ) by {
                let k0 = choose|k0: int|
                    0 <= k0 < pre.len() && pre[k0].0 == drest[d] && pair_in(
                        admitted,
                        fnid,
                        pre[k0].0,
                    );
                assert(tasks[k0].0 == dcur[d] && pair_in(admitted, fnid, tasks[k0].0));
            }
        }
    }
}

impl SimEnv {
    /// Advance one cold-starting container by one frame: consume the
    /// slot's CPU share (for metrics, capped at the cold-start demand) and
    /// count the cold start down, transitioning to running when it ends.
    fn sim_compute_container_starting(&self, fnid: FnId, fc: &mut FnContainer, cpu_for_one_task: u64)
        requires
            (fnid as int) < self.fns@.len(),
            old(fc).fn_id == fnid,
            old(fc).is_starting(),
        ensures
            final(fc).fn_id == old(fc).fn_id,
            final(fc).req_fn_state == old(fc).req_fn_state,
            final(fc).this_frame_used == old(fc).this_frame_used,
            final(fc).cpu_alloced == cpu_for_one_task,
            final(fc).cpu_used == min_int(
                cpu_for_one_task as int,
                self.fns@[fnid as int].cold_start_container_cpu_use as int,
            ),
            final(fc).state == (match old(fc).state {
                FnContainerState::Starting { left_frames } => {
                    if left_frames > 1 {
                        FnContainerState::Starting { left_frames: (left_frames - 1) as u64 }
                    } else {
                        FnContainerState::Running
                    }
                },
                FnContainerState::Running => FnContainerState::Running,
            }),
    {
        let cold_cpu = self.func(fnid).cold_start_container_cpu_use;
        let container_cpu_used = if cpu_for_one_task < cold_cpu {
            cpu_for_one_task
        } else {
            cold_cpu
        };
        fc.set_cpu_use_rate(cpu_for_one_task, container_cpu_used);
        // count the cold start down; reaching zero means the container
        // enters its running state in the same frame
        let left = match &fc.state {
            FnContainerState::Starting { left_frames } => *left_frames,
            FnContainerState::Running => 0,
        };
        if left > 1 {
            fc.state = FnContainerState::Starting { left_frames: left - 1 };
        } else {
            fc.state = FnContainerState::Running;
        }
    }

    /// Run one frame of an already-running container: every admitted task
    /// consumes the equal CPU share (clamped at its remaining demand),
    /// tasks reaching zero demand complete and are removed, and the
    /// realized usage is recorded on the node (saturating at `cpu_cap`)
    /// and on the container (saturating at `RES_MAX`).
    fn sim_compute_container_running(
        &self,
        fnid: FnId,
        container_node_cpu: &mut u64,
        fc: &mut FnContainer,
        cpu_for_one_task: u64,
        req_fns_2_run: &Vec<(FnId, ReqId)>,
        cpu_cap: u64,
    ) -> (done_reqs: Vec<ReqId>)
        requires
            old(fc).fn_id == fnid,
            cpu_for_one_task <= RES_MAX,
            *old(container_node_cpu) <= cpu_cap,
            cpu_cap <= RES_MAX,
        ensures
            final(fc).fn_id == old(fc).fn_id,
            final(fc).state == old(fc).state,
            final(fc).req_fn_state@ == run_tasks(
                old(fc).req_fn_state@,
                fnid,
                req_fns_2_run@,
                cpu_for_one_task as int,
            ),
            done_reqs@ == done_of(
                old(fc).req_fn_state@,
                fnid,
                req_fns_2_run@,
                cpu_for_one_task as int,
            ),
            *final(container_node_cpu) == add_clamp(
                *old(container_node_cpu) as int,
                tasks_used(
                    old(fc).req_fn_state@,
                    fnid,
                    req_fns_2_run@,
                    cpu_for_one_task as int,
                    RES_MAX as int,
                ),
                cpu_cap as int,
            ),
            tasks_calc_cnt(old(fc).req_fn_state@, fnid, req_fns_2_run@) > 0 ==> {
                &&& final(fc).this_frame_used
                &&& final(fc).cpu_alloced == tasks_alloc(
                    old(fc).req_fn_state@,
                    fnid,
                    req_fns_2_run@,
                    cpu_for_one_task as int,
                    RES_MAX as int,
                )
                &&& final(fc).cpu_used == tasks_used(
                    old(fc).req_fn_state@,
                    fnid,
                    req_fns_2_run@,
                    cpu_for_one_task as int,
                    RES_MAX as int,
                )
            },
            tasks_calc_cnt(old(fc).req_fn_state@, fnid, req_fns_2_run@) == 0 ==> {
                &&& final(fc).this_frame_used == old(fc).this_frame_used
                &&& final(fc).cpu_alloced == 1
                &&& final(fc).cpu_used == 0
            },
    {
        let ghost tseq = old(fc).req_fn_state@;
        let ghost adm = req_fns_2_run@;
        let ghost share = cpu_for_one_task as int;
        let mut done_reqs: Vec<ReqId> = Vec::new();
        let mut kept: Vec<(ReqId, FnRunningState)> = Vec::new();
        let mut calc_cnt: u64 = 0;
        let mut container_alloced_cpu: u64 = 0;
        let mut container_used_cpu: u64 = 0;
        let mut k: usize = 0;
        let n_tasks = fc.req_fn_state.len();
        proof {
            assert(fc.req_fn_state@ =~= tseq.skip(0));
            assert(tseq.take(0) =~= Seq::<(ReqId, FnRunningState)>::empty());
        }
        while k < n_tasks
            invariant
                cpu_for_one_task <= RES_MAX,
                *old(container_node_cpu) <= cpu_cap,
                cpu_cap <= RES_MAX,
                share == cpu_for_one_task as int,
                adm == req_fns_2_run@,
                n_tasks == tseq.len(),
                k <= n_tasks,
                fc.req_fn_state@ == tseq.skip(k as int),
                fc.fn_id == old(fc).fn_id,
                fc.fn_id == fnid,
                fc.state == old(fc).state,
                fc.this_frame_used == old(fc).this_frame_used,
                kept@ == run_tasks(tseq.take(k as int), fnid, adm, share),
                done_reqs@ == done_of(tseq.take(k as int), fnid, adm, share),
                calc_cnt == tasks_calc_cnt(tseq.take(k as int), fnid, adm),
                calc_cnt <= k,
                container_alloced_cpu == tasks_alloc(
                    tseq.take(k as int),
                    fnid,
                    adm,
                    share,
                    RES_MAX as int,
                ),
                container_used_cpu == tasks_used(
                    tseq.take(k as int),
                    fnid,
                    adm,
                    share,
                    RES_MAX as int,
                ),
                *container_node_cpu == add_clamp(
                    *old(container_node_cpu) as int,
                    tasks_used(tseq.take(k as int), fnid, adm, share, RES_MAX as int),
                    cpu_cap as int,
                ),
            decreases n_tasks - k,
        {
            proof {
                assert(tseq.take(k + 1).drop_last() =~= tseq.take(k as int));
                assert(tseq.take(k + 1).last() == tseq[k as int]);
                assert(tseq.skip(k as int)[0] == tseq[k as int]);
                lemma_clamped_fold_bounds(tseq.take(k as int), fnid, adm, share, RES_MAX as int);
            }
            let mut t = fc.req_fn_state.remove(0);
            proof {
                assert(fc.req_fn_state@ =~= tseq.skip(k + 1));
            }
            let is_admitted = contains_pair(req_fns_2_run, fnid, t.0);
            if is_admitted {
                calc_cnt = calc_cnt + 1;
                // the share is consumed, clamped at the remaining demand
                let used_cpu = if cpu_for_one_task < t.1.left_calc {
                    cpu_for_one_task
                } else {
                    t.1.left_calc
                };
                t.1.left_calc = t.1.left_calc - used_cpu;
                *container_node_cpu = if *container_node_cpu + used_cpu > cpu_cap {
                    cpu_cap
                } else {
                    *container_node_cpu + used_cpu
                };
                container_alloced_cpu = if container_alloced_cpu + cpu_for_one_task > RES_MAX {
                    RES_MAX
                } else {
                    container_alloced_cpu + cpu_for_one_task
                };
                container_used_cpu = if container_used_cpu + used_cpu > RES_MAX {
                    RES_MAX
                } else {
                    container_used_cpu + used_cpu
                };
                if t.1.left_calc == 0 {
                    done_reqs.push(t.0);
                } else {
                    kept.push(t);
                }
            } else {
                kept.push(t);
            }
            k = k + 1;
        }
        proof {
            assert(tseq.take(tseq.len() as int) =~= tseq);
        }
        fc.req_fn_state = kept;
        if calc_cnt > 0 {
            fc.this_frame_used = true;
            fc.set_cpu_use_rate(container_alloced_cpu, container_used_cpu);
        } else {
            fc.set_cpu_use_rate(1, 0);
        }
        done_reqs
    }
}

impl SimEnv {
    /// The memory this node's containers reserve together.
    fn node_containers_mem(&self, n: &Node) -> (r: u64)
        requires
            self.fns_wf(),
            n.fn_containers@.len() <= IDX_MAX,
            forall|j: int|
                0 <= j < n.fn_containers@.len() ==> (#[trigger] n.fn_containers@[j].fn_id as int)
                    < self.fns@.len(),
        ensures
            r == crate::model::containers_mem(n.fn_containers@, self.fns@),
    {
        proof {
            assert forall|j: int|
                0 <= j < n.fn_containers@.len() implies (#[trigger] n.fn_containers@[j].res_mem(
                self.fns@,
            )) <= RES_MAX by {
                assert(self.fns@[n.fn_containers@[j].fn_id as int].wf(self.fns@.len() as nat));
            }
        }
        let mut sum: u64 = 0;
        let mut j: usize = 0;
        while j < n.fn_containers.len()
            invariant
                self.fns_wf(),
                n.fn_containers@.len() <= IDX_MAX,
                forall|j2: int|
                    0 <= j2 < n.fn_containers@.len()
                        ==> (#[trigger] n.fn_containers@[j2].fn_id as int) < self.fns@.len(),
                forall|j2: int|
                    0 <= j2 < n.fn_containers@.len() ==> (#[trigger] n.fn_containers@[j2].res_mem(
                        self.fns@,
                    )) <= RES_MAX,
                j <= n.fn_containers@.len(),
                sum == crate::model::containers_mem(n.fn_containers@.take(j as int), self.fns@),
                sum <= (j as int) * (RES_MAX as int),
            decreases n.fn_containers@.len() - j,
        {
            proof {
                assert(n.fn_containers@.take(j + 1).drop_last() =~= n.fn_containers@.take(
                    j as int,
                ));
                assert(n.fn_containers@.take(j + 1).last() == n.fn_containers@[j as int]);
                assert((j + 1) * (RES_MAX as int) == (j as int) * (RES_MAX as int) + (
                RES_MAX as int)) by (nonlinear_arith);
                assert((j + 1) * (RES_MAX as int) <= (IDX_MAX as int) * (RES_MAX as int))
                    by (nonlinear_arith)
                    requires
                        0 <= j + 1 <= IDX_MAX,
                ;
            }
            let c = &n.fn_containers[j];
            let add = match &c.state {
                FnContainerState::Starting { .. } => self.fns[c.fn_id].cold_start_container_mem_use,
                FnContainerState::Running => self.fns[c.fn_id].mem,
            };
            sum = sum + add;
            j = j + 1;
        }
        proof {
            assert(n.fn_containers@.take(n.fn_containers@.len() as int) =~= n.fn_containers@);
        }
        sum
    }

    /// Count this node's compute slots for the frame: one per cold-starting
    /// container, one per running task whose data has fully arrived and
    /// whose steady-state memory reservation still fits; reserve that
    /// memory at admission. Returns the admitted set, the cold-start count
    /// and the equal CPU share, or nothing when the frame is idle here.
    #[verifier::rlimit(100)]
    #[verifier::spinoff_prover]
    fn sim_compute_collect_compute_data(&self, n: &mut Node) -> (r: Option<
        (Vec<(FnId, ReqId)>, usize, u64),
    >)
        requires
            self.fns_wf(),
            old(n).fn_containers@.len() <= IDX_MAX,
            forall|j: int|
                0 <= j < old(n).fn_containers@.len()
                    ==> (#[trigger] old(n).fn_containers@[j].fn_id as int) < self.fns@.len(),
            forall|j1: int, j2: int|
                0 <= j1 < j2 < old(n).fn_containers@.len() ==> old(n).fn_containers@[j1].fn_id
                    != old(n).fn_containers@[j2].fn_id,
            forall|j: int, k1: int, k2: int|
                0 <= j < old(n).fn_containers@.len() && 0 <= k1 < k2
                    < old(n).fn_containers@[j].req_fn_state@.len()
                    ==> (#[trigger] old(n).fn_containers@[j].req_fn_state@[k1].0)
                    != (#[trigger] old(n).fn_containers@[j].req_fn_state@[k2].0),
            forall|j: int|
                0 <= j < old(n).fn_containers@.len()
                    ==> (#[trigger] old(n).fn_containers@[j]).req_fn_state@.len() <= REQ_CAP,
            old(n).mem <= old(n).rsc_limit.mem,
            old(n).rsc_limit.mem <= RES_MAX,
            old(n).rsc_limit.cpu <= RES_MAX,
        ensures
            final(n).fn_containers == old(n).fn_containers,
            final(n).node_id == old(n).node_id,
            final(n).rsc_limit == old(n).rsc_limit,
            final(n).cpu == old(n).cpu,
            final(n).mem >= old(n).mem,
            final(n).mem <= old(n).rsc_limit.mem,
            r is None ==> {
                &&& final(n).mem == old(n).mem
                &&& final(n).frame_run_count == old(n).frame_run_count
                &&& count_starting(old(n).fn_containers@) == 0
            },
            final(n).mem == admitted_end_mem(self.fns@, *old(n)),
            r is None ==> greedy_admitted(self.fns@, *old(n)).len() == 0,
            r is Some ==> {
                let tup = r->0;
                let adm = tup.0;
                let st = tup.1;
                let share = tup.2;
                &&& st == count_starting(old(n).fn_containers@)
                &&& adm@ == greedy_admitted(self.fns@, *old(n))
                &&& adm@.len() + st >= 1
                &&& share == old(n).rsc_limit.cpu as int / (adm@.len() + st as int)
                &&& share == spec_node_share(self.fns@, *old(n))
                &&& share <= RES_MAX
                &&& final(n).frame_run_count == adm@.len() + st
            },
            // every ready task left out no longer fits in memory
            forall|j: int, k: int|
                0 <= j < old(n).fn_containers@.len() && 0 <= k
                    < old(n).fn_containers@[j].req_fn_state@.len()
                    && old(n).fn_containers@[j].is_running()
                    && (#[trigger] old(n).fn_containers@[j].req_fn_state@[k]).1.spec_data_recv_done()
                    && !(match r {
                    Some(rr) => pair_in(
                        rr.0@,
                        old(n).fn_containers@[j].fn_id,
                        old(n).fn_containers@[j].req_fn_state@[k].0,
                    ),
                    None => false,
                }) ==> final(n).mem + self.fns@[old(n).fn_containers@[j].fn_id as int].mem
                    > old(n).rsc_limit.mem,
    {
        let n_containers = n.fn_containers.len();
        // count the cold-starting containers: each consumes one slot
        let mut starting_container_cnt: usize = 0;
        let mut j: usize = 0;
        while j < n_containers
            invariant
                n_containers == n.fn_containers@.len(),
                j <= n_containers,
                starting_container_cnt == count_starting(n.fn_containers@.take(j as int)),
                starting_container_cnt <= j,
            decreases n_containers - j,
        {
            proof {
                assert(n.fn_containers@.take(j + 1).drop_last() =~= n.fn_containers@.take(
                    j as int,
                ));
                assert(n.fn_containers@.take(j + 1).last() == n.fn_containers@[j as int]);
                lemma_count_starting_bound(n.fn_containers@.take(j as int));
            }
            match &n.fn_containers[j].state {
                FnContainerState::Starting { .. } => {
                    starting_container_cnt = starting_container_cnt + 1;
                },
                FnContainerState::Running => {},
            }
            j = j + 1;
        }
        proof {
            assert(n.fn_containers@.take(n_containers as int) =~= n.fn_containers@);
        }
        // admit ready tasks while their steady-state memory still fits
        let mut req_fns_2_run: Vec<(FnId, ReqId)> = Vec::new();
        let ghost pre_mem = n.mem;
        proof {
            assert(old(n).fn_containers@.skip(0) =~= old(n).fn_containers@);
            assert(req_fns_2_run@ =~= Seq::<(FnId, ReqId)>::empty());
        }
        let mut j: usize = 0;
        while j < n_containers
            invariant
                self.fns_wf(),
                n_containers == n.fn_containers@.len(),
                n.fn_containers == old(n).fn_containers,
                n.node_id == old(n).node_id,
                n.rsc_limit == old(n).rsc_limit,
                n.cpu == old(n).cpu,
                n.frame_run_count == old(n).frame_run_count,
                n_containers <= IDX_MAX,
                forall|j2: int|
                    0 <= j2 < n_containers ==> (#[trigger] old(n).fn_containers@[j2].fn_id as int)
                        < self.fns@.len(),
                forall|j1: int, j2: int|
                    0 <= j1 < j2 < n_containers ==> old(n).fn_containers@[j1].fn_id
                        != old(n).fn_containers@[j2].fn_id,
                forall|j2: int, k1: int, k2: int|
                    0 <= j2 < n_containers && 0 <= k1 < k2
                        < old(n).fn_containers@[j2].req_fn_state@.len()
                        ==> (#[trigger] old(n).fn_containers@[j2].req_fn_state@[k1].0)
                        != (#[trigger] old(n).fn_containers@[j2].req_fn_state@[k2].0),
                forall|j2: int|
                    0 <= j2 < n_containers ==> (#[trigger] old(n).fn_containers@[j2]).req_fn_state@.len()
                        <= REQ_CAP,
                pre_mem == old(n).mem,
                j <= n_containers,
                n.mem >= old(n).mem,
                n.mem <= n.rsc_limit.mem,
                n.rsc_limit.mem <= RES_MAX,
                req_fns_2_run@.len() <= (j as int) * (REQ_CAP as int),
                req_fns_2_run@.len() == 0 ==> n.mem == old(n).mem,
                admit_node(
                    self.fns@,
                    old(n).fn_containers@.skip(j as int),
                    old(n).rsc_limit.mem as int,
                    n.mem as int,
                    req_fns_2_run@,
                ) == admit_node(
                    self.fns@,
                    old(n).fn_containers@,
                    old(n).rsc_limit.mem as int,
                    old(n).mem as int,
                    Seq::<(FnId, ReqId)>::empty(),
                ),
                forall|j2: int, k: int|
                    0 <= j2 < j && 0 <= k < old(n).fn_containers@[j2].req_fn_state@.len()
                        && old(n).fn_containers@[j2].is_running()
                        && (#[trigger] old(n).fn_containers@[j2].req_fn_state@[k]).1.spec_data_recv_done()
                        && !pair_in(
                        req_fns_2_run@,
                        old(n).fn_containers@[j2].fn_id,
                        old(n).fn_containers@[j2].req_fn_state@[k].0,
                    ) ==> n.mem + self.fns@[old(n).fn_containers@[j2].fn_id as int].mem
                        > n.rsc_limit.mem,
            decreases n_containers - j,
        {
            let fnid = n.fn_containers[j].fn_id;
            let is_running = match &n.fn_containers[j].state {
                FnContainerState::Starting { .. } => false,
                FnContainerState::Running => true,
            };
            proof {
                assert(old(n).fn_containers@.skip(j as int)[0] == old(n).fn_containers@[j as int]);
                assert(old(n).fn_containers@.skip(j as int).skip(1) =~= old(n).fn_containers@.skip(
                    j + 1,
                ));
            }
            let ghost pre_mem_j = n.mem;
            let ghost pre_adm_j = req_fns_2_run@;
            let ghost sub0 = admit_tasks(
                self.fns@,
                old(n).fn_containers@[j as int].fn_id,
                old(n).fn_containers@[j as int].req_fn_state@,
                old(n).rsc_limit.mem as int,
                n.mem as int,
                req_fns_2_run@,
            );
            if is_running {
                let n_tasks = n.fn_containers[j].req_fn_state.len();
                proof {
                    assert(old(n).fn_containers@[j as int].req_fn_state@.skip(0)
                        =~= old(n).fn_containers@[j as int].req_fn_state@);
                }
                let mut k: usize = 0;
                while k < n_tasks
                    invariant
                        self.fns_wf(),
                        n_containers == n.fn_containers@.len(),
                        n.fn_containers == old(n).fn_containers,
                        n.node_id == old(n).node_id,
                        n.rsc_limit == old(n).rsc_limit,
                        n.cpu == old(n).cpu,
                        n.frame_run_count == old(n).frame_run_count,
                        n_containers <= IDX_MAX,
                        (j as int) < n_containers,
                        fnid == old(n).fn_containers@[j as int].fn_id,
                        (fnid as int) < self.fns@.len(),
                        old(n).fn_containers@[j as int].is_running(),
                        n_tasks == old(n).fn_containers@[j as int].req_fn_state@.len(),
                        n_tasks <= REQ_CAP,
                        forall|j2: int|
                            0 <= j2 < n_containers
                                ==> (#[trigger] old(n).fn_containers@[j2].fn_id as int)
                                < self.fns@.len(),
                        forall|j1: int, j2: int|
                            0 <= j1 < j2 < n_containers ==> old(n).fn_containers@[j1].fn_id
                                != old(n).fn_containers@[j2].fn_id,
                        forall|j2: int, k1: int, k2: int|
                            0 <= j2 < n_containers && 0 <= k1 < k2
                                < old(n).fn_containers@[j2].req_fn_state@.len()
                                ==> (#[trigger] old(n).fn_containers@[j2].req_fn_state@[k1].0)
                                != (#[trigger] old(n).fn_containers@[j2].req_fn_state@[k2].0),
                        forall|j2: int|
                            0 <= j2 < n_containers
                                ==> (#[trigger] old(n).fn_containers@[j2]).req_fn_state@.len()
                                <= REQ_CAP,
                        pre_mem == old(n).mem,
                        k <= n_tasks,
                        n.mem >= old(n).mem,
                        n.mem <= n.rsc_limit.mem,
                        n.rsc_limit.mem <= RES_MAX,
                        req_fns_2_run@.len() <= (j as int) * (REQ_CAP as int) + k,
                        req_fns_2_run@.len() == 0 ==> n.mem == old(n).mem,
                        sub0 == admit_tasks(
                            self.fns@,
                            old(n).fn_containers@[j as int].fn_id,
                            old(n).fn_containers@[j as int].req_fn_state@,
                            old(n).rsc_limit.mem as int,
                            pre_mem_j as int,
                            pre_adm_j,
                        ),
                        admit_tasks(
                            self.fns@,
                            old(n).fn_containers@[j as int].fn_id,
                            old(n).fn_containers@[j as int].req_fn_state@.skip(k as int),
                            old(n).rsc_limit.mem as int,
                            n.mem as int,
                            req_fns_2_run@,
                        ) == sub0,
                        admit_node(
                            self.fns@,
                            old(n).fn_containers@.skip(j + 1),
                            old(n).rsc_limit.mem as int,
                            sub0.0,
                            sub0.1,
                        ) == admit_node(
                            self.fns@,
                            old(n).fn_containers@,
                            old(n).rsc_limit.mem as int,
                            old(n).mem as int,
                            Seq::<(FnId, ReqId)>::empty(),
                        ),
                        forall|j2: int, k2: int|
                            ((0 <= j2 < j && 0 <= k2
                                < old(n).fn_containers@[j2].req_fn_state@.len()) || (j2 == j && 0
                                <= k2 < k)) && old(n).fn_containers@[j2].is_running()
                                && (#[trigger] old(n).fn_containers@[j2].req_fn_state@[k2]).1.spec_data_recv_done()
                                && !pair_in(
                                req_fns_2_run@,
                                old(n).fn_containers@[j2].fn_id,
                                old(n).fn_containers@[j2].req_fn_state@[k2].0,
                            ) ==> n.mem + self.fns@[old(n).fn_containers@[j2].fn_id as int].mem
                                > n.rsc_limit.mem,
                    decreases n_tasks - k,
                {
                    proof {
                        let tseq = old(n).fn_containers@[j as int].req_fn_state@;
                        assert(tseq.skip(k as int)[0] == tseq[k as int]);
                        assert(tseq.skip(k as int).skip(1) =~= tseq.skip(k + 1));
                    }
                    let ready = n.fn_containers[j].req_fn_state[k].1.data_recv_done();
                    let reqid = n.fn_containers[j].req_fn_state[k].0;
                    let fm = self.fns[fnid].mem;
                    if ready && n.rsc_limit.mem - n.mem >= fm {
                        n.mem = n.mem + fm;
                        req_fns_2_run.push((fnid, reqid));
                    }
                    k = k + 1;
                }
                proof {
                    assert(old(n).fn_containers@[j as int].req_fn_state@.skip(n_tasks as int)
                        =~= Seq::<(ReqId, FnRunningState)>::empty());
                }
            }
            proof {
                assert((j + 1) * (REQ_CAP as int) == (j as int) * (REQ_CAP as int) + (
                REQ_CAP as int)) by (nonlinear_arith);
            }
            j = j + 1;
        }
        proof {
            assert(old(n).fn_containers@.skip(n_containers as int) =~= Seq::<FnContainer>::empty());
        }
        if req_fns_2_run.len() == 0 && starting_container_cnt == 0 {
            None
        } else {
            proof {
                assert((n_containers as int) * (REQ_CAP as int) <= (IDX_MAX as int) * (
                REQ_CAP as int)) by (nonlinear_arith)
                    requires
                        0 <= n_containers <= IDX_MAX,
                ;
            }
            // every slot gets the same equal share of the node's CPU
            let slots: u64 = req_fns_2_run.len() as u64 + starting_container_cnt as u64;
            let each_fn_cpu = n.rsc_limit.cpu / slots;
            n.frame_run_count = slots;
            Some((req_fns_2_run, starting_container_cnt, each_fn_cpu))
        }
    }
}

impl SimEnv {
    /// Run one compute frame on one node: count the slots and the equal
    /// share, advance cold starts, deplete admitted tasks, and release the
    /// frame-scoped task reservations. Returns the (function, request)
    /// pairs whose tasks completed here this frame.
    #[verifier::loop_isolation(false)]
    #[verifier::rlimit(100)]
    #[verifier::spinoff_prover]
    fn sim_compute_node(&self, n: &mut Node) -> (done_pairs: Vec<(FnId, ReqId)>)
        requires
            self.fns_wf(),
            old(n).fn_containers@.len() <= IDX_MAX,
            forall|j: int|
                0 <= j < old(n).fn_containers@.len()
                    ==> (#[trigger] old(n).fn_containers@[j].fn_id as int) < self.fns@.len(),
            forall|j1: int, j2: int|
                0 <= j1 < j2 < old(n).fn_containers@.len() ==> old(n).fn_containers@[j1].fn_id
                    != old(n).fn_containers@[j2].fn_id,
            forall|j: int, k1: int, k2: int|
                0 <= j < old(n).fn_containers@.len() && 0 <= k1 < k2
                    < old(n).fn_containers@[j].req_fn_state@.len()
                    ==> (#[trigger] old(n).fn_containers@[j].req_fn_state@[k1].0)
                    != (#[trigger] old(n).fn_containers@[j].req_fn_state@[k2].0),
            forall|j: int|
                0 <= j < old(n).fn_containers@.len()
                    ==> (#[trigger] old(n).fn_containers@[j]).req_fn_state@.len() <= REQ_CAP,
            forall|j: int|
                0 <= j < old(n).fn_containers@.len() ==> match (
                #[trigger] old(n).fn_containers@[j]).state {
                    FnContainerState::Starting { left_frames } => 1 <= left_frames <= RES_MAX,
                    FnContainerState::Running => true,
                },
            old(n).mem == crate::model::containers_mem(old(n).fn_containers@, self.fns@),
            old(n).mem <= old(n).rsc_limit.mem,
            old(n).rsc_limit.mem <= RES_MAX,
            old(n).rsc_limit.cpu <= RES_MAX,
        ensures
            final(n).node_id == old(n).node_id,
            final(n).rsc_limit == old(n).rsc_limit,
            final(n).cpu <= old(n).rsc_limit.cpu,
            final(n).mem == crate::model::containers_mem(final(n).fn_containers@, self.fns@),
            final(n).mem <= old(n).rsc_limit.mem,
            final(n).fn_containers@.len() == old(n).fn_containers@.len(),
            forall|j: int|
                0 <= j < old(n).fn_containers@.len() ==> (#[trigger] final(n).fn_containers@[j]).fn_id
                    == old(n).fn_containers@[j].fn_id,
            forall|j: int|
                0 <= j < old(n).fn_containers@.len() ==> match (
                #[trigger] final(n).fn_containers@[j]).state {
                    FnContainerState::Starting { left_frames } => 1 <= left_frames <= RES_MAX
                        && old(n).fn_containers@[j].is_starting(),
                    FnContainerState::Running => true,
                },
            forall|j: int, k: int|
                0 <= j < old(n).fn_containers@.len() && 0 <= k
                    < final(n).fn_containers@[j].req_fn_state@.len() ==> exists|k0: int|
                    0 <= k0 < old(n).fn_containers@[j].req_fn_state@.len()
                        && old(n).fn_containers@[j].req_fn_state@[k0].0 == (#[trigger] final(n).fn_containers@[j].req_fn_state@[k]).0
                        && old(n).fn_containers@[j].req_fn_state@[k0].1.data_recv == final(n).fn_containers@[j].req_fn_state@[k].1.data_recv && final(n).fn_containers@[j].req_fn_state@[k].1.left_calc <= old(
                        n,
                    ).fn_containers@[j].req_fn_state@[k0].1.left_calc,
            forall|j: int, k1: int, k2: int|
                0 <= j < old(n).fn_containers@.len() && 0 <= k1 < k2
                    < final(n).fn_containers@[j].req_fn_state@.len()
                    ==> (#[trigger] final(n).fn_containers@[j].req_fn_state@[k1].0)
                    != (#[trigger] final(n).fn_containers@[j].req_fn_state@[k2].0),
            compute_node_post(self.fns@, *old(n), *final(n)),
            done_pairs@ == node_done_of(
                old(n).fn_containers@,
                greedy_admitted(self.fns@, *old(n)),
                spec_node_share(self.fns@, *old(n)),
            ),
    {
        n.cpu = 0;
        let collected = self.sim_compute_collect_compute_data(n);
        let ghost pre0 = *old(n);
        let (req_fns_2_run, cpu_for_one_task): (Vec<(FnId, ReqId)>, u64) = match collected {
            Some((a, _s, sh)) => {
                proof {
                    assert(a@ == greedy_admitted(self.fns@, pre0));
                    assert(sh as int == spec_node_share(self.fns@, pre0));
                }
                (a, sh)
            },
            None => {
                proof {
                    assert forall|j: int|
                        0 <= j < n.fn_containers@.len() implies !(
                    #[trigger] n.fn_containers@[j]).is_starting() by {
                        lemma_count_starting_zero(n.fn_containers@, j);
                    }
                    assert(greedy_admitted(self.fns@, pre0) =~= Seq::<(FnId, ReqId)>::empty());
                    assert(spec_node_slots(self.fns@, pre0) == 0);
                }
                (Vec::new(), 0)
            },
        };
        proof {
            assert(req_fns_2_run@ == greedy_admitted(self.fns@, pre0));
            assert(cpu_for_one_task as int == spec_node_share(self.fns@, pre0));
        }
        let ghost frc0 = n.frame_run_count;
        let ghost pre = *old(n);
        let ghost cseq = pre.fn_containers@;
        let ghost mem0 = n.mem;
        // cold starts consume their slot's share and count down
        let n_containers = n.fn_containers.len();
        let mut j: usize = 0;
        while j < n_containers
            invariant
                self.fns_wf(),
                n_containers == cseq.len(),
                n.fn_containers@.len() == cseq.len(),
                j <= n_containers,
                forall|j2: int|
                    0 <= j2 < cseq.len() ==> (#[trigger] cseq[j2].fn_id as int) < self.fns@.len(),
                forall|j2: int|
                    j <= j2 < cseq.len() ==> #[trigger] n.fn_containers@[j2] == cseq[j2],
                forall|j2: int|
                    0 <= j2 < j ==> {
                        let oc = #[trigger] cseq[j2];
                        let nc = n.fn_containers@[j2];
                        &&& nc.fn_id == oc.fn_id
                        &&& nc.req_fn_state == oc.req_fn_state
                        &&& nc.this_frame_used == oc.this_frame_used
                        &&& (oc.is_starting() ==> nc.cpu_alloced == cpu_for_one_task
                            && nc.cpu_used == min_int(
                            cpu_for_one_task as int,
                            self.fns@[oc.fn_id as int].cold_start_container_cpu_use as int,
                        ))
                        &&& (!oc.is_starting() ==> nc.cpu_alloced == oc.cpu_alloced && nc.cpu_used
                            == oc.cpu_used)
                        &&& nc.state == (match oc.state {
                            FnContainerState::Starting { left_frames } => {
                                if left_frames > 1 {
                                    FnContainerState::Starting {
                                        left_frames: (left_frames - 1) as u64,
                                    }
                                } else if left_frames == 1 {
                                    FnContainerState::Running
                                } else {
                                    oc.state
                                }
                            },
                            FnContainerState::Running => FnContainerState::Running,
                        })
                    },
                n.node_id == pre.node_id,
                n.rsc_limit == pre.rsc_limit,
                n.mem == mem0,
                n.cpu == 0,
                n.frame_run_count == frc0,
            decreases n_containers - j,
        {
            let ghost snap = n.fn_containers@;
            let is_starting = match &n.fn_containers[j].state {
                FnContainerState::Starting { .. } => true,
                FnContainerState::Running => false,
            };
            if is_starting {
                let mut c = n.fn_containers.remove(j);
                let fnid = c.fn_id;
                self.sim_compute_container_starting(fnid, &mut c, cpu_for_one_task);
                n.fn_containers.insert(j, c);
                proof {
                    assert(n.fn_containers@ =~= snap.update(j as int, n.fn_containers@[j as int]));
                }
            }
            j = j + 1;
        }
        let ghost midseq = n.fn_containers@;
        proof {
            assert forall|j2: int|
                0 <= j2 < cseq.len() implies match (#[trigger] midseq[j2]).state {
                FnContainerState::Starting { left_frames } => 1 <= left_frames <= RES_MAX
                    && cseq[j2].is_starting(),
                FnContainerState::Running => true,
            } by {
                assert(match old(n).fn_containers@[j2].state {
                    FnContainerState::Starting { left_frames } => 1 <= left_frames <= RES_MAX,
                    FnContainerState::Running => true,
                });
            }
            assert forall|j2: int|
                0 <= j2 < cseq.len() implies (#[trigger] midseq[j2]).state == advance_state(
                cseq[j2].state,
            ) by {
                assert(match old(n).fn_containers@[j2].state {
                    FnContainerState::Starting { left_frames } => 1 <= left_frames <= RES_MAX,
                    FnContainerState::Running => true,
                });
            }
        }
        // running containers deplete their admitted tasks
        let mut done_pairs: Vec<(FnId, ReqId)> = Vec::new();
        proof {
            assert(cseq.take(0) =~= Seq::<FnContainer>::empty());
            assert(n.cpu == 0);
        }
        let mut j: usize = 0;
        while j < n_containers
            invariant
                self.fns_wf(),
                n_containers == cseq.len(),
                midseq.len() == cseq.len(),
                n.fn_containers@.len() == cseq.len(),
                j <= n_containers,
                cpu_for_one_task <= RES_MAX,
                forall|j2: int|
                    0 <= j2 < cseq.len() ==> (#[trigger] cseq[j2].fn_id as int) < self.fns@.len(),
                forall|j1: int, j2: int|
                    0 <= j1 < j2 < cseq.len() ==> cseq[j1].fn_id != cseq[j2].fn_id,
                forall|j2: int, k1: int, k2: int|
                    0 <= j2 < cseq.len() && 0 <= k1 < k2 < cseq[j2].req_fn_state@.len()
                        ==> (#[trigger] cseq[j2].req_fn_state@[k1].0) != (#[trigger] cseq[j2].req_fn_state@[k2].0),
                forall|j2: int|
                    0 <= j2 < cseq.len() ==> (#[trigger] midseq[j2]).fn_id == cseq[j2].fn_id,
                forall|j2: int|
                    0 <= j2 < cseq.len() ==> (#[trigger] midseq[j2]).req_fn_state
                        == cseq[j2].req_fn_state,
                forall|j2: int|
                    0 <= j2 < cseq.len() ==> match (#[trigger] midseq[j2]).state {
                        FnContainerState::Starting { left_frames } => 1 <= left_frames <= RES_MAX
                            && cseq[j2].is_starting(),
                        FnContainerState::Running => true,
                    },
                forall|j2: int|
                    j <= j2 < cseq.len() ==> #[trigger] n.fn_containers@[j2] == midseq[j2],
                forall|j2: int|
                    0 <= j2 < j ==> {
                        let mc = #[trigger] midseq[j2];
                        let nc = n.fn_containers@[j2];
                        let cnt = tasks_calc_cnt(mc.req_fn_state@, mc.fn_id, req_fns_2_run@);
                        &&& nc.fn_id == mc.fn_id
                        &&& nc.state == mc.state
                        &&& (mc.is_running() ==> nc.req_fn_state@ == run_tasks(
                            mc.req_fn_state@,
                            mc.fn_id,
                            req_fns_2_run@,
                            cpu_for_one_task as int,
                        ))
                        &&& (mc.is_running() && cnt > 0 ==> nc.this_frame_used && nc.cpu_alloced
                            == tasks_alloc(
                            mc.req_fn_state@,
                            mc.fn_id,
                            req_fns_2_run@,
                            cpu_for_one_task as int,
                            RES_MAX as int,
                        ) && nc.cpu_used == tasks_used(
                            mc.req_fn_state@,
                            mc.fn_id,
                            req_fns_2_run@,
                            cpu_for_one_task as int,
                            RES_MAX as int,
                        ))
                        &&& (mc.is_running() && cnt == 0 ==> nc.this_frame_used
                            == mc.this_frame_used && nc.cpu_alloced == 1 && nc.cpu_used == 0)
                        &&& (!mc.is_running() ==> nc == mc)
                    },
                n.cpu == node_cpu_fold(
                    cseq.take(j as int),
                    req_fns_2_run@,
                    cpu_for_one_task as int,
                    pre.rsc_limit.cpu as int,
                ),
                done_pairs@ == node_done_of(
                    cseq.take(j as int),
                    req_fns_2_run@,
                    cpu_for_one_task as int,
                ),
                n.node_id == pre.node_id,
                n.rsc_limit == pre.rsc_limit,
                n.mem == mem0,
                n.cpu <= pre.rsc_limit.cpu,
                n.frame_run_count == frc0,
            decreases n_containers - j,
        {
            let ghost snap = n.fn_containers@;
            let ghost donesnap = done_pairs@;
            let is_running = match &n.fn_containers[j].state {
                FnContainerState::Starting { .. } => false,
                FnContainerState::Running => true,
            };
            if is_running {
                let mut c = n.fn_containers.remove(j);
                let fnid = c.fn_id;
                let mut node_cpu = n.cpu;
                let cap = n.rsc_limit.cpu;
                let dr = self.sim_compute_container_running(
                    fnid,
                    &mut node_cpu,
                    &mut c,
                    cpu_for_one_task,
                    &req_fns_2_run,
                    cap,
                );
                n.cpu = node_cpu;
                n.fn_containers.insert(j, c);
                proof {
                    assert(n.fn_containers@ =~= snap.update(j as int, n.fn_containers@[j as int]));
                    lemma_run_tasks_ids(
                        midseq[j as int].req_fn_state@,
                        fnid,
                        req_fns_2_run@,
                        cpu_for_one_task as int,
                    );
                }
                let mut d: usize = 0;
                let n_done = dr.len();
                while d < n_done
                    invariant
                        n_done == dr@.len(),
                        d <= n_done,
                        (j as int) < cseq.len(),
                        midseq.len() == cseq.len(),
                        fnid == cseq[j as int].fn_id,
                        midseq[j as int].req_fn_state == cseq[j as int].req_fn_state,
                        forall|j1: int, j2: int|
                            0 <= j1 < j2 < cseq.len() ==> cseq[j1].fn_id != cseq[j2].fn_id,
                        forall|d2: int|
                            0 <= d2 < dr@.len() ==> exists|k0: int|
                                0 <= k0 < cseq[j as int].req_fn_state@.len()
                                    && cseq[j as int].req_fn_state@[k0].0 == #[trigger] dr@[d2],
                        forall|d1: int, d2: int| 0 <= d1 < d2 < dr@.len() ==> dr@[d1] != dr@[d2],
                        done_pairs@.len() == donesnap.len() + d,
                        forall|d2: int|
                            0 <= d2 < donesnap.len() ==> #[trigger] done_pairs@[d2]
                                == donesnap[d2],
                        forall|d2: int|
                            donesnap.len() <= d2 < done_pairs@.len() ==> #[trigger] done_pairs@[d2]
                                == (fnid, dr@[d2 - donesnap.len()]),
                        forall|d2: int|
                            0 <= d2 < donesnap.len() ==> (#[trigger] donesnap[d2]) == done_pairs@[d2],
                    decreases n_done - d,
                {
                    done_pairs.push((fnid, dr[d]));
                    d = d + 1;
                }
                proof {
                    assert(cseq.take(j + 1).drop_last() =~= cseq.take(j as int));
                    assert(cseq.take(j + 1).last() == cseq[j as int]);
                    assert(midseq[j as int].state is Running);
                    assert(advance_state(cseq[j as int].state) is Running);
                    assert(dr@ == done_of(
                        cseq[j as int].req_fn_state@,
                        cseq[j as int].fn_id,
                        req_fns_2_run@,
                        cpu_for_one_task as int,
                    ));
                    assert(done_pairs@ =~= node_done_of(
                        cseq.take(j + 1),
                        req_fns_2_run@,
                        cpu_for_one_task as int,
                    ));
                    assert(n.cpu == node_cpu_fold(
                        cseq.take(j + 1),
                        req_fns_2_run@,
                        cpu_for_one_task as int,
                        pre.rsc_limit.cpu as int,
                    ));
                }
            } else {
                proof {
                    assert(cseq.take(j + 1).drop_last() =~= cseq.take(j as int));
                    assert(cseq.take(j + 1).last() == cseq[j as int]);
                    assert(!(midseq[j as int].state is Running));
                    assert(!(advance_state(cseq[j as int].state) is Running));
                    assert(done_pairs@ =~= node_done_of(
                        cseq.take(j + 1),
                        req_fns_2_run@,
                        cpu_for_one_task as int,
                    ));
                    assert(n.cpu == node_cpu_fold(
                        cseq.take(j + 1),
                        req_fns_2_run@,
                        cpu_for_one_task as int,
                        pre.rsc_limit.cpu as int,
                    ));
                }
            }
            j = j + 1;
        }
        // release the frame-scoped task reservations: reserved memory is
        // again exactly what the containers hold
        proof {
            assert forall|j2: int|
                0 <= j2 < n.fn_containers@.len() implies (#[trigger] n.fn_containers@[j2].fn_id as int)
                < self.fns@.len() by {
                assert(n.fn_containers@[j2].fn_id == cseq[j2].fn_id);
            }
        }
        let new_mem = self.node_containers_mem(&n);
        n.mem = new_mem;
        proof {
            assert forall|j2: int|
                0 <= j2 < cseq.len() implies (#[trigger] n.fn_containers@[j2].res_mem(self.fns@))
                <= cseq[j2].res_mem(self.fns@) by {
                assert(self.fns@[cseq[j2].fn_id as int].wf(self.fns@.len() as nat));
            }
            crate::model::lemma_containers_mem_le(cseq, n.fn_containers@, self.fns@);
            assert forall|j2: int|
                0 <= j2 < cseq.len() implies match (#[trigger] n.fn_containers@[j2]).state {
                FnContainerState::Starting { left_frames } => 1 <= left_frames <= RES_MAX
                    && cseq[j2].is_starting(),
                FnContainerState::Running => true,
            } by {
                assert(n.fn_containers@[j2].state == midseq[j2].state);
            }
            assert forall|j2: int, k: int|
                0 <= j2 < cseq.len() && 0 <= k < n.fn_containers@[j2].req_fn_state@.len() implies exists|
                k0: int,
            |
                0 <= k0 < cseq[j2].req_fn_state@.len() && cseq[j2].req_fn_state@[k0].0 == (
                #[trigger] n.fn_containers@[j2].req_fn_state@[k]).0
                    && cseq[j2].req_fn_state@[k0].1.data_recv
                    == n.fn_containers@[j2].req_fn_state@[k].1.data_recv
                    && n.fn_containers@[j2].req_fn_state@[k].1.left_calc
                    <= cseq[j2].req_fn_state@[k0].1.left_calc by {
                if midseq[j2].is_running() {
                    lemma_run_tasks_ids(
                        midseq[j2].req_fn_state@,
                        midseq[j2].fn_id,
                        req_fns_2_run@,
                        cpu_for_one_task as int,
                    );
                    let rt = run_tasks(
                        midseq[j2].req_fn_state@,
                        midseq[j2].fn_id,
                        req_fns_2_run@,
                        cpu_for_one_task as int,
                    );
                    assert(n.fn_containers@[j2].req_fn_state@ == rt);
                    let k0 = choose|k0: int|
                        0 <= k0 < midseq[j2].req_fn_state@.len()
                            && midseq[j2].req_fn_state@[k0].0 == rt[k].0
                            && midseq[j2].req_fn_state@[k0].1.data_recv == rt[k].1.data_recv
                            && rt[k].1.left_calc <= midseq[j2].req_fn_state@[k0].1.left_calc;
                    assert(cseq[j2].req_fn_state@[k0] == midseq[j2].req_fn_state@[k0]);
                } else {
                    assert(n.fn_containers@[j2].req_fn_state@[k] == cseq[j2].req_fn_state@[k]);
                }
            }
            assert forall|j2: int, k1: int, k2: int|
                0 <= j2 < cseq.len() && 0 <= k1 < k2
                    < n.fn_containers@[j2].req_fn_state@.len() implies (
            #[trigger] n.fn_containers@[j2].req_fn_state@[k1].0) != (
            #[trigger] n.fn_containers@[j2].req_fn_state@[k2].0) by {
                if midseq[j2].is_running() {
                    lemma_run_tasks_ids(
                        midseq[j2].req_fn_state@,
                        midseq[j2].fn_id,
                        req_fns_2_run@,
                        cpu_for_one_task as int,
                    );
                } else {
                    assert(n.fn_containers@[j2].req_fn_state@[k1] == cseq[j2].req_fn_state@[k1]);
                    assert(n.fn_containers@[j2].req_fn_state@[k2] == cseq[j2].req_fn_state@[k2]);
                }
            }
            // assemble the exact per-node frame effect
            assert(cseq.take(n_containers as int) =~= cseq);
            assert(done_pairs@ == node_done_of(
                cseq,
                greedy_admitted(self.fns@, pre0),
                spec_node_share(self.fns@, pre0),
            ));
            assert forall|j2: int|
                0 <= j2 < cseq.len() implies {
                let oc = #[trigger] pre0.fn_containers@[j2];
                let nc = n.fn_containers@[j2];
                &&& nc.fn_id == oc.fn_id
                &&& nc.state == advance_state(oc.state)
                &&& (advance_state(oc.state) is Running ==> nc.req_fn_state@ == run_tasks(
                    oc.req_fn_state@,
                    oc.fn_id,
                    greedy_admitted(self.fns@, pre0),
                    spec_node_share(self.fns@, pre0),
                ))
                &&& (!(advance_state(oc.state) is Running) ==> nc.req_fn_state == oc.req_fn_state)
            } by {
                assert(midseq[j2].state == advance_state(cseq[j2].state));
                assert(n.fn_containers@[j2].state == midseq[j2].state);
                if midseq[j2].is_running() {
                    assert(n.fn_containers@[j2].req_fn_state@ == run_tasks(
                        midseq[j2].req_fn_state@,
                        midseq[j2].fn_id,
                        req_fns_2_run@,
                        cpu_for_one_task as int,
                    ));
                } else {
                    assert(n.fn_containers@[j2].req_fn_state == midseq[j2].req_fn_state);
                }
            }
            assert(compute_node_post(self.fns@, pre0, *n));
        }
        done_pairs
    }
}

impl SimEnv {
    /// Record a completed task in its request: mark the function done and,
    /// if that was the request's last pending function, report the request
    /// to the completion sink. A completion that no live request with that
    /// binding can explain is ignored and reported as unhandled.
    fn apply_task_done(&mut self, fnid: FnId, reqid: ReqId) -> (handled: bool)
        requires
            old(self).wf(),
        ensures
            final(self).wf(),
            final(self).fns@ == old(self).fns@,
            final(self).dags@ == old(self).dags@,
            final(self).nodes@ == old(self).nodes@,
            final(self).node_speeds@ == old(self).node_speeds@,
            final(self).scale_cmds@ == old(self).scale_cmds@,
            final(self).env_id@ == old(self).env_id@,
            final(self).hpa_action == old(self).hpa_action,
            final(self).distance2hpa == old(self).distance2hpa,
            final(self).current_frame == old(self).current_frame,
            final(self).requests@.len() == old(self).requests@.len(),
            forall|r: int|
                0 <= r < old(self).requests@.len() && r != reqid ==> final(self).requests@[r]
                    == old(self).requests@[r],
            handled == ((reqid as int) < old(self).requests@.len() && old(self).requests@[reqid as int] is Some && (fnid as int) < old(self).fns@.len() && old(self).requests@[reqid as int]->0.spec_bound(fnid as int)),
            !handled ==> final(self).requests@ == old(self).requests@ && final(self).done_requests@
                == old(self).done_requests@,
            handled ==> {
                let oldreq = old(self).requests@[reqid as int]->0;
                let newreq = final(self).requests@[reqid as int]->0;
                &&& final(self).requests@[reqid as int] is Some
                &&& newreq.fn_node@ == oldreq.fn_node@
                &&& newreq.req_id == oldreq.req_id
                &&& newreq.dag_i == oldreq.dag_i
                &&& newreq.done_fns@ == oldreq.done_fns@.update(fnid as int, true)
                &&& final(self).done_requests@ == (if !oldreq.done_fns@[fnid as int]
                    && newreq.spec_is_done(old(self).dags@[oldreq.dag_i as int]) {
                    old(self).done_requests@.push(reqid)
                } else {
                    old(self).done_requests@
                })
            },
    {
        if !(reqid < self.requests.len() && fnid < self.fns.len()) {
            return false;
        }
        let eligible = match &self.requests[reqid] {
            Some(req) => req.fn_node[fnid].is_some(),
            None => false,
        };
        if !eligible {
            return false;
        }
        proof {
            assert(self.requests@[reqid as int]->0.wf(
                reqid as int,
                self.dags@,
                self.fns@,
                self.nodes@.len() as nat,
            ));
        }
        let mut slot: Option<Request> = None;
        self.requests.set_and_swap(reqid, &mut slot);
        let mut req = slot.unwrap();
        let was_done = req.done_fns[fnid];
        req.fn_done(fnid);
        let newly_finished = !was_done && req.is_done(&self.dags[req.dag_i]);
        self.requests.set(reqid, Some(req));
        if newly_finished {
            self.done_requests.push(reqid);
        }
        proof {
            let post = *self;
            assert(post.requests@ =~= old(self).requests@.update(
                reqid as int,
                post.requests@[reqid as int],
            ));
            assert(post.requests@[reqid as int]->0.wf(
                reqid as int,
                post.dags@,
                post.fns@,
                post.nodes@.len() as nat,
            ));
            assert forall|r: int|
                0 <= r < post.requests@.len() && (#[trigger] post.requests@[r]) is Some implies post.requests@[r]->0.wf(
                r,
                post.dags@,
                post.fns@,
                post.nodes@.len() as nat,
            ) by {
                if r != reqid as int {
                    assert(old(self).requests@[r]->0.wf(
                        r,
                        old(self).dags@,
                        old(self).fns@,
                        old(self).nodes@.len() as nat,
                    ));
                }
            }
            assert forall|i: int, j: int, k: int|
                post.valid_task_idx(i, j, k) implies #[trigger] post.task_linked(i, j, k) by {
                assert(old(self).valid_task_idx(i, j, k));
                assert(old(self).task_linked(i, j, k));
            }
        }
        true
    }

    /// One compute frame over every node, in node order: allocate equal
    /// CPU shares, advance cold starts, deplete and complete admitted
    /// tasks, and record completions in the owning requests, reporting
    /// each request that finished its whole DAG to the completion sink.
    pub fn sim_computes(&mut self)
        requires
            old(self).wf(),
        ensures
            final(self).wf(),
            final(self).fns@ == old(self).fns@,
            final(self).dags@ == old(self).dags@,
            final(self).node_speeds@ == old(self).node_speeds@,
            final(self).scale_cmds@ == old(self).scale_cmds@,
            final(self).env_id@ == old(self).env_id@,
            final(self).hpa_action == old(self).hpa_action,
            final(self).distance2hpa == old(self).distance2hpa,
            final(self).current_frame == old(self).current_frame,
            final(self).nodes@.len() == old(self).nodes@.len(),
            final(self).requests@.len() == old(self).requests@.len(),
            forall|r: int|
                0 <= r < old(self).requests@.len() ==> ((#[trigger] final(self).requests@[r]) is Some
                    <==> old(self).requests@[r] is Some),
            forall|r: int|
                0 <= r < old(self).requests@.len() && (#[trigger] old(self).requests@[r]) is Some
                    ==> final(self).requests@[r]->0.fn_node@ == old(self).requests@[r]->0.fn_node@
                    && final(self).requests@[r]->0.req_id == old(self).requests@[r]->0.req_id
                    && final(self).requests@[r]->0.dag_i == old(self).requests@[r]->0.dag_i,
            // done marks only grow
            forall|r: int, f: int|
                0 <= r < old(self).requests@.len() && old(self).requests@[r] is Some && (
                #[trigger] old(self).requests@[r]->0.spec_done(f)) ==> final(self).requests@[r]->0.spec_done(f),
            // the completion sink only grows
            final(self).done_requests@.len() >= old(self).done_requests@.len(),
            forall|t: int|
                0 <= t < old(self).done_requests@.len() ==> #[trigger] final(self).done_requests@[t]
                    == old(self).done_requests@[t],
            // the exact per-node frame effect, under the greedy admitted
            // set and the equal share
            forall|i: int|
                0 <= i < old(self).nodes@.len() ==> compute_node_post(
                    old(self).fns@,
                    old(self).nodes@[i],
                    #[trigger] final(self).nodes@[i],
                ),
            // every completion this frame is recorded in its request, in
            // order, and finished requests reach the sink exactly once
            applied_done(
                old(self).requests@,
                old(self).done_requests@,
                final(self).requests@,
                final(self).done_requests@,
                old(self).dags@,
                old(self).fns@.len() as int,
                nodes_done_pairs(old(self).fns@, old(self).nodes@),
            ),
    {
        let ghost pre = *self;
        let n_nodes = self.nodes.len();
        proof {
            assert(pre.nodes@.take(0) =~= Seq::<Node>::empty());
        }
        let mut i: usize = 0;
        while i < n_nodes
            invariant
                self.wf(),
                pre.wf(),
                n_nodes == pre.nodes@.len(),
                i <= n_nodes,
                self.fns@ == pre.fns@,
                self.dags@ == pre.dags@,
                self.node_speeds@ == pre.node_speeds@,
                self.scale_cmds@ == pre.scale_cmds@,
                self.env_id@ == pre.env_id@,
                self.hpa_action == pre.hpa_action,
                self.distance2hpa == pre.distance2hpa,
                self.current_frame == pre.current_frame,
                self.nodes@.len() == pre.nodes@.len(),
                self.requests@.len() == pre.requests@.len(),
                forall|r: int|
                    0 <= r < pre.requests@.len() ==> ((#[trigger] self.requests@[r]) is Some
                        <==> pre.requests@[r] is Some),
                forall|r: int|
                    0 <= r < pre.requests@.len() && (#[trigger] pre.requests@[r]) is Some
                        ==> self.requests@[r]->0.fn_node@ == pre.requests@[r]->0.fn_node@
                        && self.requests@[r]->0.req_id == pre.requests@[r]->0.req_id
                        && self.requests@[r]->0.dag_i == pre.requests@[r]->0.dag_i,
                forall|r: int, f: int|
                    0 <= r < pre.requests@.len() && pre.requests@[r] is Some && (
                    #[trigger] pre.requests@[r]->0.spec_done(f)) ==> self.requests@[r]->0.spec_done(f),
                self.done_requests@.len() >= pre.done_requests@.len(),
                forall|t: int|
                    0 <= t < pre.done_requests@.len() ==> #[trigger] self.done_requests@[t]
                        == pre.done_requests@[t],
                forall|i2: int|
                    i <= i2 < pre.nodes@.len() ==> #[trigger] self.nodes@[i2] == pre.nodes@[i2],
                forall|i2: int|
                    0 <= i2 < i ==> compute_node_post(
                        pre.fns@,
                        pre.nodes@[i2],
                        #[trigger] self.nodes@[i2],
                    ),
                applied_done(
                    pre.requests@,
                    pre.done_requests@,
                    self.requests@,
                    self.done_requests@,
                    pre.dags@,
                    pre.fns@.len() as int,
                    nodes_done_pairs(pre.fns@, pre.nodes@.take(i as int)),
                ),
            decreases n_nodes - i,
        {
            let ghost cur = *self;
            proof {
                assert(cur.nodes@[i as int].wf(i as int, cur.fns@, cur.nodes@.len() as nat));
                assert forall|j: int|
                    0 <= j < cur.nodes@[i as int].fn_containers@.len() implies (
                #[trigger] cur.nodes@[i as int].fn_containers@[j]).req_fn_state@.len() <= REQ_CAP
                    && cur.nodes@[i as int].fn_containers@.len() <= IDX_MAX by {
                    crate::env::lemma_task_counts(cur, i as int, j);
                }
                if cur.nodes@[i as int].fn_containers@.len() == 0 {
                    assert(cur.nodes@[i as int].fn_containers@.len() <= IDX_MAX);
                }
                assert forall|j: int|
                    0 <= j < cur.nodes@[i as int].fn_containers@.len() implies (
                #[trigger] cur.nodes@[i as int].fn_containers@[j]).wf(
                    cur.fns@,
                    cur.nodes@.len() as nat,
                ) by {}
            }
            let mut node = self.nodes.remove(i);
            let done_pairs = self.sim_compute_node(&mut node);
            self.nodes.insert(i, node);
            proof {
                let post = *self;
                assert(post.nodes@ =~= cur.nodes@.update(i as int, post.nodes@[i as int]));
                let on = cur.nodes@[i as int];
                let nn = post.nodes@[i as int];
                assert forall|jj: int|
                    0 <= jj < post.nodes@.len() implies (#[trigger] post.nodes@[jj]).wf(
                    jj,
                    post.fns@,
                    post.nodes@.len() as nat,
                ) by {
                    assert(cur.nodes@[jj].wf(jj, cur.fns@, cur.nodes@.len() as nat));
                    if jj == i as int {
                        assert forall|j: int|
                            0 <= j < nn.fn_containers@.len() implies (
                        #[trigger] nn.fn_containers@[j]).wf(post.fns@, post.nodes@.len() as nat) by {
                            assert(on.fn_containers@[j].wf(cur.fns@, cur.nodes@.len() as nat));
                            assert forall|k: int|
                                0 <= k < nn.fn_containers@[j].req_fn_state@.len() implies (
                            #[trigger] nn.fn_containers@[j].req_fn_state@[k]).1.wf(
                                post.nodes@.len() as nat,
                            ) by {
                                let k0 = choose|k0: int|
                                    0 <= k0 < on.fn_containers@[j].req_fn_state@.len()
                                        && on.fn_containers@[j].req_fn_state@[k0].0
                                        == nn.fn_containers@[j].req_fn_state@[k].0
                                        && on.fn_containers@[j].req_fn_state@[k0].1.data_recv
                                        == nn.fn_containers@[j].req_fn_state@[k].1.data_recv
                                        && nn.fn_containers@[j].req_fn_state@[k].1.left_calc
                                        <= on.fn_containers@[j].req_fn_state@[k0].1.left_calc;
                                assert(on.fn_containers@[j].req_fn_state@[k0].1.wf(
                                    cur.nodes@.len() as nat,
                                ));
                            }
                        }
                    }
                }
                assert forall|i2: int, j: int, k: int|
                    post.valid_task_idx(i2, j, k) implies #[trigger] post.task_linked(i2, j, k) by {
                    if i2 == i as int {
                        let k0 = choose|k0: int|
                            0 <= k0 < on.fn_containers@[j].req_fn_state@.len()
                                && on.fn_containers@[j].req_fn_state@[k0].0
                                == nn.fn_containers@[j].req_fn_state@[k].0
                                && on.fn_containers@[j].req_fn_state@[k0].1.data_recv
                                == nn.fn_containers@[j].req_fn_state@[k].1.data_recv
                                && nn.fn_containers@[j].req_fn_state@[k].1.left_calc
                                <= on.fn_containers@[j].req_fn_state@[k0].1.left_calc;
                        assert(cur.valid_task_idx(i2, j, k0));
                        assert(cur.task_linked(i2, j, k0));
                        assert(nn.fn_containers@[j].fn_id == on.fn_containers@[j].fn_id);
                    } else {
                        assert(cur.valid_task_idx(i2, j, k));
                        assert(cur.task_linked(i2, j, k));
                    }
                }
                assert(post.wf());
            }
            // record the completions in the owning requests
            proof {
                assert(pre.nodes@[i as int] == cur.nodes@[i as int]);
                assert(done_pairs@ == node_done_of(
                    pre.nodes@[i as int].fn_containers@,
                    greedy_admitted(pre.fns@, pre.nodes@[i as int]),
                    spec_node_share(pre.fns@, pre.nodes@[i as int]),
                ));
                assert(done_pairs@.take(0) =~= Seq::<(FnId, ReqId)>::empty());
                assert(nodes_done_pairs(pre.fns@, pre.nodes@.take(i as int)) + done_pairs@.take(0)
                    =~= nodes_done_pairs(pre.fns@, pre.nodes@.take(i as int)));
                assert forall|i2: int|
                    0 <= i2 < i + 1 implies compute_node_post(
                    pre.fns@,
                    pre.nodes@[i2],
                    #[trigger] self.nodes@[i2],
                ) by {
                    if i2 == i as int {
                        assert(compute_node_post(pre.fns@, cur.nodes@[i2], self.nodes@[i2]));
                    }
                }
            }
            let mut d: usize = 0;
            let n_done = done_pairs.len();
            while d < n_done
                invariant
                    self.wf(),
                    pre.wf(),
                    n_done == done_pairs@.len(),
                    d <= n_done,
                    i < n_nodes,
                    n_nodes == pre.nodes@.len(),
                    forall|i2: int|
                        i + 1 <= i2 < pre.nodes@.len() ==> #[trigger] self.nodes@[i2]
                            == pre.nodes@[i2],
                    forall|i2: int|
                        0 <= i2 < i + 1 ==> compute_node_post(
                            pre.fns@,
                            pre.nodes@[i2],
                            #[trigger] self.nodes@[i2],
                        ),
                    applied_done(
                        pre.requests@,
                        pre.done_requests@,
                        self.requests@,
                        self.done_requests@,
                        pre.dags@,
                        pre.fns@.len() as int,
                        nodes_done_pairs(pre.fns@, pre.nodes@.take(i as int)) + done_pairs@.take(
                            d as int,
                        ),
                    ),
                    self.fns@ == pre.fns@,
                    self.dags@ == pre.dags@,
                    self.node_speeds@ == pre.node_speeds@,
                    self.scale_cmds@ == pre.scale_cmds@,
                    self.env_id@ == pre.env_id@,
                    self.hpa_action == pre.hpa_action,
                    self.distance2hpa == pre.distance2hpa,
                    self.current_frame == pre.current_frame,
                    self.nodes@.len() == pre.nodes@.len(),
                    self.requests@.len() == pre.requests@.len(),
                    forall|r: int|
                        0 <= r < pre.requests@.len() ==> ((#[trigger] self.requests@[r]) is Some
                            <==> pre.requests@[r] is Some),
                    forall|r: int|
                        0 <= r < pre.requests@.len() && (#[trigger] pre.requests@[r]) is Some
                            ==> self.requests@[r]->0.fn_node@ == pre.requests@[r]->0.fn_node@
                            && self.requests@[r]->0.req_id == pre.requests@[r]->0.req_id
                            && self.requests@[r]->0.dag_i == pre.requests@[r]->0.dag_i,
                    forall|r: int, f: int|
                        0 <= r < pre.requests@.len() && pre.requests@[r] is Some && (
                        #[trigger] pre.requests@[r]->0.spec_done(f)) ==> self.requests@[r]->0.spec_done(
                            f,
                        ),
                    self.done_requests@.len() >= pre.done_requests@.len(),
                    forall|t: int|
                        0 <= t < pre.done_requests@.len() ==> #[trigger] self.done_requests@[t]
                            == pre.done_requests@[t],
                decreases n_done - d,
            {
                let pair = done_pairs[d];
                let ghost mid2 = *self;
                self.apply_task_done(pair.0, pair.1);
                proof {
                    assert forall|r: int, f: int|
                        0 <= r < pre.requests@.len() && pre.requests@[r] is Some && (
                        #[trigger] pre.requests@[r]->0.spec_done(f)) implies self.requests@[r]->0.spec_done(
                        f,
                    ) by {
                        assert(mid2.requests@[r]->0.spec_done(f));
                    }
                    // the applied chain grows by exactly this pair
                    let base = nodes_done_pairs(pre.fns@, pre.nodes@.take(i as int));
                    assert(applied_one(
                        mid2.requests@,
                        mid2.done_requests@,
                        self.requests@,
                        self.done_requests@,
                        pre.dags@,
                        pre.fns@.len() as int,
                        pair,
                    ));
                    assert((base + done_pairs@.take(d + 1)).drop_last() =~= base
                        + done_pairs@.take(d as int));
                    assert((base + done_pairs@.take(d + 1)).last() == pair);
                    assert(applied_done(
                        pre.requests@,
                        pre.done_requests@,
                        self.requests@,
                        self.done_requests@,
                        pre.dags@,
                        pre.fns@.len() as int,
                        base + done_pairs@.take(d + 1),
                    ));
                }
                d = d + 1;
            }
            proof {
                assert(done_pairs@.take(n_done as int) =~= done_pairs@);
                assert(pre.nodes@.take(i + 1).drop_last() =~= pre.nodes@.take(i as int));
                assert(pre.nodes@.take(i + 1).last() == pre.nodes@[i as int]);
                assert(nodes_done_pairs(pre.fns@, pre.nodes@.take(i + 1))
                    =~= nodes_done_pairs(pre.fns@, pre.nodes@.take(i as int)) + done_pairs@);
            }
            i = i + 1;
        }
        proof {
            assert(pre.nodes@.take(n_nodes as int) =~= pre.nodes@);
        }
    }

    /// Create one cold-starting container for the function on the first
    /// node that does not already host one and still has the cold-start
    /// memory free; a function no node can take is simply not placed this
    /// frame.
    fn scale_up_1(&mut self, fnid: FnId)
        requires
            old(self).wf(),
            (fnid as int) < old(self).fns@.len(),
        ensures
            final(self).wf(),
            final(self).fns@ == old(self).fns@,
            final(self).dags@ == old(self).dags@,
            final(self).requests@ == old(self).requests@,
            final(self).node_speeds@ == old(self).node_speeds@,
            final(self).scale_cmds@ == old(self).scale_cmds@,
            final(self).done_requests@ == old(self).done_requests@,
            final(self).env_id@ == old(self).env_id@,
            final(self).hpa_action == old(self).hpa_action,
            final(self).distance2hpa == old(self).distance2hpa,
            final(self).current_frame == old(self).current_frame,
            final(self).nodes@.len() == old(self).nodes@.len(),
            placed_up(old(self).fns@, old(self).nodes@, final(self).nodes@, fnid),
    {
        let cold_mem = self.fns[fnid].cold_start_container_mem_use;
        let cold_time = self.fns[fnid].cold_start_time;
        let n_nodes = self.nodes.len();
        let mut i: usize = 0;
        while i < n_nodes
            invariant
                self.wf(),
                *self == *old(self),
                n_nodes == self.nodes@.len(),
                i <= n_nodes,
                (fnid as int) < self.fns@.len(),
                cold_mem == self.fns@[fnid as int].cold_start_container_mem_use,
                cold_time == self.fns@[fnid as int].cold_start_time,
                forall|i2: int|
                    0 <= i2 < i ==> !up_fit(old(self).fns@, #[trigger] old(self).nodes@[i2], fnid),
            decreases n_nodes - i,
        {
            let fits = self.nodes[i].container_index(fnid).is_none() && self.nodes[i].rsc_limit.mem
                - self.nodes[i].mem >= cold_mem;
            if fits {
                proof {
                    lemma_first_up_idx(old(self).fns@, old(self).nodes@, fnid, i as int);
                    assert(first_up_idx(old(self).fns@, old(self).nodes@, fnid) == i as int);
                }
                let ghost cur = *self;
                let mut node = self.nodes.remove(i);
                let ghost oldcs = node.fn_containers@;
                node.fn_containers.push(
                    FnContainer {
                        fn_id: fnid,
                        state: FnContainerState::Starting { left_frames: cold_time },
                        req_fn_state: Vec::new(),
                        this_frame_used: false,
                        cpu_alloced: 0,
                        cpu_used: 0,
                    },
                );
                node.mem = node.mem + cold_mem;
                self.nodes.insert(i, node);
                proof {
                    let post = *self;
                    assert(post.nodes@ =~= cur.nodes@.update(i as int, post.nodes@[i as int]));
                    let nn = post.nodes@[i as int];
                    assert(nn.fn_containers@.drop_last() =~= oldcs);
                    assert(self.fns@[fnid as int].wf(self.fns@.len() as nat));
                    assert(nn.wf(i as int, post.fns@, post.nodes@.len() as nat));
                    assert forall|i2: int, j: int, k: int|
                        post.valid_task_idx(i2, j, k) implies #[trigger] post.task_linked(
                        i2,
                        j,
                        k,
                    ) by {
                        assert(cur.valid_task_idx(i2, j, k));
                        assert(cur.task_linked(i2, j, k));
                    }
                    assert(post.wf());
                    assert(post.nodes@[i as int].fn_containers@.take(
                        cur.nodes@[i as int].fn_containers@.len() as int,
                    ) =~= cur.nodes@[i as int].fn_containers@);
                    assert(placed_up(old(self).fns@, old(self).nodes@, post.nodes@, fnid));
                }
                return ;
            }
            i = i + 1;
        }
        proof {
            lemma_first_up_idx(old(self).fns@, old(self).nodes@, fnid, n_nodes as int);
        }
    }

    /// Destroy one idle container (no placed tasks) of the function, on
    /// the first node found hosting one, releasing its memory
    /// reservation; with no idle container nothing happens.
    fn scale_down_1(&mut self, fnid: FnId)
        requires
            old(self).wf(),
        ensures
            final(self).wf(),
            final(self).fns@ == old(self).fns@,
            final(self).dags@ == old(self).dags@,
            final(self).requests@ == old(self).requests@,
            final(self).node_speeds@ == old(self).node_speeds@,
            final(self).scale_cmds@ == old(self).scale_cmds@,
            final(self).done_requests@ == old(self).done_requests@,
            final(self).env_id@ == old(self).env_id@,
            final(self).hpa_action == old(self).hpa_action,
            final(self).distance2hpa == old(self).distance2hpa,
            final(self).current_frame == old(self).current_frame,
            final(self).nodes@.len() == old(self).nodes@.len(),
            removed_down(old(self).fns@, old(self).nodes@, final(self).nodes@, fnid),
    {
        let n_nodes = self.nodes.len();
        let mut i: usize = 0;
        while i < n_nodes
            invariant
                self.wf(),
                *self == *old(self),
                n_nodes == self.nodes@.len(),
                i <= n_nodes,
                forall|i2: int|
                    0 <= i2 < i ==> !down_fit(#[trigger] old(self).nodes@[i2], fnid),
            decreases n_nodes - i,
        {
            let found: Option<usize> = {
                let node = &self.nodes[i];
                match node.container_index(fnid) {
                    Some(j) => {
                        if node.fn_containers[j].req_fn_state.len() == 0 {
                            Some(j)
                        } else {
                            None
                        }
                    },
                    None => None,
                }
            };
            match found {
                Some(j) => {
                    proof {
                        lemma_first_down_idx(old(self).nodes@, fnid, i as int);
                        assert(first_down_idx(old(self).nodes@, fnid) == i as int);
                    }
                    let ghost cur = *self;
                    let mut node = self.nodes.remove(i);
                    let ghost oldcs = node.fn_containers@;
                    let c = node.fn_containers.remove(j);
                    proof {
                        assert(cur.nodes@[i as int].wf(i as int, cur.fns@, cur.nodes@.len() as nat));
                        crate::model::lemma_containers_mem_remove(oldcs, j as int, cur.fns@);
                        assert forall|j2: int|
                            0 <= j2 < oldcs.remove(j as int).len() implies (
                        #[trigger] oldcs.remove(j as int)[j2].res_mem(cur.fns@)) <= RES_MAX by {
                            assert(oldcs.remove(j as int)[j2].wf(cur.fns@, cur.nodes@.len() as nat));
                            assert(cur.fns@[oldcs.remove(j as int)[j2].fn_id as int].wf(
                                cur.fns@.len() as nat,
                            ));
                        }
                        crate::model::lemma_containers_mem_bound(oldcs.remove(j as int), cur.fns@);
                    }
                    let released = match &c.state {
                        FnContainerState::Starting { .. } => self.fns[c.fn_id].cold_start_container_mem_use,
                        FnContainerState::Running => self.fns[c.fn_id].mem,
                    };
                    node.mem = node.mem - released;
                    self.nodes.insert(i, node);
                    proof {
                        let post = *self;
                        assert(post.nodes@ =~= cur.nodes@.update(i as int, post.nodes@[i as int]));
                        let nn = post.nodes@[i as int];
                        assert(nn.fn_containers@ =~= oldcs.remove(j as int));
                        assert(nn.wf(i as int, post.fns@, post.nodes@.len() as nat));
                        assert forall|i2: int, j2: int, k: int|
                            post.valid_task_idx(i2, j2, k) implies #[trigger] post.task_linked(
                            i2,
                            j2,
                            k,
                        ) by {
                            if i2 == i as int {
                                let oj = if j2 < j as int {
                                    j2
                                } else {
                                    j2 + 1
                                };
                                assert(nn.fn_containers@[j2] == oldcs[oj]);
                                assert(cur.valid_task_idx(i2, oj, k));
                                assert(cur.task_linked(i2, oj, k));
                            } else {
                                assert(cur.valid_task_idx(i2, j2, k));
                                assert(cur.task_linked(i2, j2, k));
                            }
                        }
                        assert(post.wf());
                        // the removed container is the unique idle one
                        let cj = choose|cj: int|
                            0 <= cj < cur.nodes@[i as int].fn_containers@.len() && (
                            #[trigger] cur.nodes@[i as int].fn_containers@[cj]).fn_id == fnid
                                && cur.nodes@[i as int].fn_containers@[cj].req_fn_state@.len()
                                == 0;
                        assert(cur.nodes@[i as int].wf(i as int, cur.fns@, cur.nodes@.len() as nat));
                        if cj < j as int {
                            assert(cur.nodes@[i as int].fn_containers@[cj].fn_id
                                != cur.nodes@[i as int].fn_containers@[j as int].fn_id);
                        }
                        if (j as int) < cj {
                            assert(cur.nodes@[i as int].fn_containers@[j as int].fn_id
                                != cur.nodes@[i as int].fn_containers@[cj].fn_id);
                        }
                        assert(cj == j as int);
                        assert(removed_down(old(self).fns@, old(self).nodes@, post.nodes@, fnid));
                    }
                    return ;
                },
                None => {
                    proof {
                        assert(!down_fit(old(self).nodes@[i as int], fnid)) by {
                            if down_fit(old(self).nodes@[i as int], fnid) {
                                let cj = choose|cj: int|
                                    0 <= cj < old(self).nodes@[i as int].fn_containers@.len() && (
                                    #[trigger] old(self).nodes@[i as int].fn_containers@[cj]).fn_id
                                        == fnid && old(
                                        self,
                                    ).nodes@[i as int].fn_containers@[cj].req_fn_state@.len() == 0;
                                assert(old(self).nodes@[i as int].spec_has_container(fnid));
                            }
                        }
                    }
                },
            }
            i = i + 1;
        }
        proof {
            lemma_first_down_idx(old(self).nodes@, fnid, n_nodes as int);
        }
    }

    /// Materialize the pending scale commands into container objects:
    /// scale-up commands place cold-starting containers on nodes with
    /// room, scale-down commands destroy idle containers; afterwards the
    /// command queue is empty.
    pub fn sim_load_container(&mut self)
        requires
            old(self).wf(),
        ensures
            final(self).wf(),
            final(self).fns@ == old(self).fns@,
            final(self).dags@ == old(self).dags@,
            final(self).requests@ == old(self).requests@,
            final(self).node_speeds@ == old(self).node_speeds@,
            final(self).done_requests@ == old(self).done_requests@,
            final(self).env_id@ == old(self).env_id@,
            final(self).hpa_action == old(self).hpa_action,
            final(self).distance2hpa == old(self).distance2hpa,
            final(self).current_frame == old(self).current_frame,
            final(self).nodes@.len() == old(self).nodes@.len(),
            final(self).scale_cmds@.len() == 0,
            // each command materialized in issue order: scale-ups place
            // cold-starting containers first-fit, scale-downs remove idle
            // containers first-found
            cmds_applied(old(self).fns@, old(self).nodes@, final(self).nodes@, old(self).scale_cmds@),
    {
        let n_cmds = self.scale_cmds.len();
        proof {
            assert(old(self).scale_cmds@.take(0) =~= Seq::<ScaleCmd>::empty());
        }
        let mut idx: usize = 0;
        while idx < n_cmds
            invariant
                self.wf(),
                n_cmds == self.scale_cmds@.len(),
                idx <= n_cmds,
                self.fns@ == old(self).fns@,
                self.dags@ == old(self).dags@,
                self.requests@ == old(self).requests@,
                self.node_speeds@ == old(self).node_speeds@,
                self.scale_cmds@ == old(self).scale_cmds@,
                self.done_requests@ == old(self).done_requests@,
                self.env_id@ == old(self).env_id@,
                self.hpa_action == old(self).hpa_action,
                self.distance2hpa == old(self).distance2hpa,
                self.current_frame == old(self).current_frame,
                self.nodes@.len() == old(self).nodes@.len(),
                cmds_applied(
                    old(self).fns@,
                    old(self).nodes@,
                    self.nodes@,
                    old(self).scale_cmds@.take(idx as int),
                ),
            decreases n_cmds - idx,
        {
            let cmd = self.scale_cmds[idx];
            let ghost at_cmd = self.nodes@;
            match cmd {
                crate::scale::ScaleCmd::Up { fnid, cnt } => {
                    let mut c: usize = 0;
                    while c < cnt
                        invariant
                            self.wf(),
                            c <= cnt,
                            self.fns@ == old(self).fns@,
                            self.dags@ == old(self).dags@,
                            self.requests@ == old(self).requests@,
                            self.node_speeds@ == old(self).node_speeds@,
                            self.scale_cmds@ == old(self).scale_cmds@,
                            self.done_requests@ == old(self).done_requests@,
                            self.env_id@ == old(self).env_id@,
                            self.hpa_action == old(self).hpa_action,
                            self.distance2hpa == old(self).distance2hpa,
                            self.current_frame == old(self).current_frame,
                            self.nodes@.len() == old(self).nodes@.len(),
                            (fnid as int) < old(self).fns@.len() ==> upped_n(
                                old(self).fns@,
                                at_cmd,
                                self.nodes@,
                                fnid,
                                c as int,
                            ),
                            !((fnid as int) < old(self).fns@.len()) ==> self.nodes@ == at_cmd,
                        decreases cnt - c,
                    {
                        let ghost before = self.nodes@;
                        if fnid < self.fns.len() {
                            self.scale_up_1(fnid);
                            proof {
                                assert(placed_up(old(self).fns@, before, self.nodes@, fnid));
                            }
                        }
                        c = c + 1;
                    }
                },
                crate::scale::ScaleCmd::Down { fnid, cnt } => {
                    let mut c: usize = 0;
                    while c < cnt
                        invariant
                            self.wf(),
                            c <= cnt,
                            self.fns@ == old(self).fns@,
                            self.dags@ == old(self).dags@,
                            self.requests@ == old(self).requests@,
                            self.node_speeds@ == old(self).node_speeds@,
                            self.scale_cmds@ == old(self).scale_cmds@,
                            self.done_requests@ == old(self).done_requests@,
                            self.env_id@ == old(self).env_id@,
                            self.hpa_action == old(self).hpa_action,
                            self.distance2hpa == old(self).distance2hpa,
                            self.current_frame == old(self).current_frame,
                            self.nodes@.len() == old(self).nodes@.len(),
                            downed_n(old(self).fns@, at_cmd, self.nodes@, fnid, c as int),
                        decreases cnt - c,
                    {
                        let ghost before = self.nodes@;
                        self.scale_down_1(fnid);
                        proof {
                            assert(removed_down(old(self).fns@, before, self.nodes@, fnid));
                        }
                        c = c + 1;
                    }
                },
            }
            proof {
                assert(cmd_applied(old(self).fns@, at_cmd, self.nodes@, cmd));
                assert(old(self).scale_cmds@.take(idx + 1).drop_last() =~= old(
                    self,
                ).scale_cmds@.take(idx as int));
                assert(old(self).scale_cmds@.take(idx + 1).last() == cmd);
                assert(cmds_applied(
                    old(self).fns@,
                    old(self).nodes@,
                    self.nodes@,
                    old(self).scale_cmds@.take(idx + 1),
                ));
            }
            idx = idx + 1;
        }
        let ghost before_clear = *self;
        proof {
            assert(old(self).scale_cmds@.take(n_cmds as int) =~= old(self).scale_cmds@);
        }
        self.scale_cmds.clear();
        proof {
            assert forall|i: int, j: int, k: int|
                self.valid_task_idx(i, j, k) implies #[trigger] self.task_linked(i, j, k) by {
                assert(before_clear.task_linked(i, j, k));
            }
            assert(self.wf());
        }
    }

    /// Advance the simulation by exactly one frame: materialize pending
    /// scale effects, move in-flight data, run compute and completions,
    /// and tick the frame clock.
    pub fn sim_run(&mut self)
        requires
            old(self).wf(),
            old(self).current_frame < u64::MAX,
        ensures
            final(self).wf(),
            final(self).current_frame == old(self).current_frame + 1,
            final(self).fns@ == old(self).fns@,
            final(self).dags@ == old(self).dags@,
            final(self).node_speeds@ == old(self).node_speeds@,
            final(self).nodes@.len() == old(self).nodes@.len(),
            final(self).requests@.len() == old(self).requests@.len(),
            final(self).scale_cmds@.len() == 0,
            run_effect(*old(self), *final(self)),
    {
        self.sim_load_container();
        let ghost a = *self;
        proof {
            assert(load_effect(*old(self), a));
        }
        self.sim_transfers();
        let ghost b = *self;
        self.sim_computes();
        let ghost before_tick = *self;
        self.current_frame = self.current_frame + 1;
        proof {
            assert forall|i: int, j: int, k: int|
                self.valid_task_idx(i, j, k) implies #[trigger] self.task_linked(i, j, k) by {
                assert(before_tick.task_linked(i, j, k));
            }
            assert(self.wf());
            // the frame is the three stage effects composed, then one tick
            assert(crate::transfer::transfer_effect(a, b));
            assert(compute_effect(b, before_tick));
            assert(*self == (SimEnv {
                current_frame: (before_tick.current_frame + 1) as u64,
                ..before_tick
            }));
            assert(after_transfer(b, *self));
            assert(after_load(a, *self));
            assert(run_effect(*old(self), *self));
        }
    }
}

/// One frame's lifecycle advance of a container: a cold start counts one
/// frame down and enters the running state when it ends; running is
/// terminal — the machine is one-way.
pub open spec fn advance_state(s: FnContainerState) -> FnContainerState {
    match s {
        FnContainerState::Starting { left_frames } => {
            if left_frames > 1 {
                FnContainerState::Starting { left_frames: (left_frames - 1) as u64 }
            } else {
                FnContainerState::Running
            }
        },
        FnContainerState::Running => FnContainerState::Running,
    }
}

/// Greedy admission over one running container's task list: thread the
/// reserved memory through in order, admitting each ready task whose
/// steady-state reservation still fits.
pub open spec fn admit_tasks(
    fns: Seq<Func>,
    fnid: FnId,
    tasks: Seq<(ReqId, FnRunningState)>,
    limit: int,
    mem: int,
    acc: Seq<(FnId, ReqId)>,
) -> (int, Seq<(FnId, ReqId)>)
    decreases tasks.len(),
{
    if tasks.len() == 0 {
        (mem, acc)
    } else {
        let t = tasks[0];
        if t.1.spec_data_recv_done() && limit - mem >= fns[fnid as int].mem {
            admit_tasks(
                fns,
                fnid,
                tasks.skip(1),
                limit,
                mem + fns[fnid as int].mem,
                acc.push((fnid, t.0)),
            )
        } else {
            admit_tasks(fns, fnid, tasks.skip(1), limit, mem, acc)
        }
    }
}

/// Greedy admission over a node's containers in order; cold-starting
/// containers admit no tasks.
pub open spec fn admit_node(
    fns: Seq<Func>,
    cs: Seq<FnContainer>,
    limit: int,
    mem: int,
    acc: Seq<(FnId, ReqId)>,
) -> (int, Seq<(FnId, ReqId)>)
    decreases cs.len(),
{
    if cs.len() == 0 {
        (mem, acc)
    } else {
        let c = cs[0];
        let sub = if c.is_running() {
            admit_tasks(fns, c.fn_id, c.req_fn_state@, limit, mem, acc)
        } else {
            (mem, acc)
        };
        admit_node(fns, cs.skip(1), limit, sub.0, sub.1)
    }
}

/// Exactly the (function, request) pairs one compute frame admits on this
/// node, in admission order.
pub open spec fn greedy_admitted(fns: Seq<Func>, n: Node) -> Seq<(FnId, ReqId)> {
    admit_node(fns, n.fn_containers@, n.rsc_limit.mem as int, n.mem as int, Seq::empty()).1
}

/// The memory reserved once admission ends.
pub open spec fn admitted_end_mem(fns: Seq<Func>, n: Node) -> int {
    admit_node(fns, n.fn_containers@, n.rsc_limit.mem as int, n.mem as int, Seq::empty()).0
}

/// The node's active compute slots this frame: one per admitted task plus
/// one per cold-starting container.
pub open spec fn spec_node_slots(fns: Seq<Func>, n: Node) -> int {
    greedy_admitted(fns, n).len() + count_starting(n.fn_containers@)
}

/// The equal CPU share of one slot this frame; zero on an idle frame.
pub open spec fn spec_node_share(fns: Seq<Func>, n: Node) -> int {
    if spec_node_slots(fns, n) >= 1 {
        n.rsc_limit.cpu as int / spec_node_slots(fns, n)
    } else {
        0
    }
}

/// What one compute frame does to one node: every container's lifecycle
/// state advances one way, every running container's task list moves to
/// `run_tasks` under the greedy admitted set and the equal share, the
/// realized usage stays within capacity, the slot count is recorded, and
/// the reserved memory is again exactly what the containers hold.
pub open spec fn compute_node_post(fns: Seq<Func>, on: Node, nn: Node) -> bool {
    let admitted = greedy_admitted(fns, on);
    let share = spec_node_share(fns, on);
    &&& nn.node_id == on.node_id
    &&& nn.rsc_limit == on.rsc_limit
    &&& nn.cpu <= on.rsc_limit.cpu
    &&& nn.cpu == node_cpu_fold(on.fn_containers@, admitted, share, on.rsc_limit.cpu as int)
    &&& nn.mem == containers_mem(nn.fn_containers@, fns)
    &&& (spec_node_slots(fns, on) >= 1 ==> nn.frame_run_count == spec_node_slots(fns, on))
    &&& (spec_node_slots(fns, on) == 0 ==> nn.frame_run_count == on.frame_run_count)
    &&& nn.fn_containers@.len() == on.fn_containers@.len()
    &&& forall|j: int|
        0 <= j < on.fn_containers@.len() ==> {
            let oc = #[trigger] on.fn_containers@[j];
            let nc = nn.fn_containers@[j];
            let cnt = tasks_calc_cnt(oc.req_fn_state@, oc.fn_id, admitted);
            &&& nc.fn_id == oc.fn_id
            &&& nc.state == advance_state(oc.state)
            &&& (advance_state(oc.state) is Running ==> nc.req_fn_state@ == run_tasks(
                oc.req_fn_state@,
                oc.fn_id,
                admitted,
                share,
            ))
            &&& (!(advance_state(oc.state) is Running) ==> nc.req_fn_state == oc.req_fn_state)
            // realized utilization is recorded even on idle frames
            &&& (advance_state(oc.state) is Running && cnt > 0 ==> nc.this_frame_used
                && nc.cpu_alloced == tasks_alloc(
                oc.req_fn_state@,
                oc.fn_id,
                admitted,
                share,
                RES_MAX as int,
            ) && nc.cpu_used == tasks_used(
                oc.req_fn_state@,
                oc.fn_id,
                admitted,
                share,
                RES_MAX as int,
            ))
            &&& (advance_state(oc.state) is Running && cnt == 0 ==> nc.this_frame_used
                == oc.this_frame_used && nc.cpu_alloced == 1 && nc.cpu_used == 0)
            &&& (!(advance_state(oc.state) is Running) ==> nc.this_frame_used
                == oc.this_frame_used && nc.cpu_alloced == share && nc.cpu_used == min_int(
                share,
                fns[oc.fn_id as int].cold_start_container_cpu_use as int,
            ))
        }
}

/// The node's realized CPU this frame: each running container's admitted
/// tasks consume their clamped shares, accumulated saturating at the
/// node's CPU capacity.
pub open spec fn node_cpu_fold(
    cs: Seq<FnContainer>,
    admitted: Seq<(FnId, ReqId)>,
    share: int,
    cap: int,
) -> int
    decreases cs.len(),
{
    if cs.len() == 0 {
        0
    } else {
        let prev = node_cpu_fold(cs.drop_last(), admitted, share, cap);
        if advance_state(cs.last().state) is Running {
            add_clamp(
                prev,
                tasks_used(cs.last().req_fn_state@, cs.last().fn_id, admitted, share, RES_MAX as int),
                cap,
            )
        } else {
            prev
        }
    }
}

/// The (function, request) pairs whose tasks complete on these containers
/// this frame, in container order.
pub open spec fn node_done_of(
    cs: Seq<FnContainer>,
    admitted: Seq<(FnId, ReqId)>,
    share: int,
) -> Seq<(FnId, ReqId)>
    decreases cs.len(),
{
    if cs.len() == 0 {
        Seq::empty()
    } else {
        node_done_of(cs.drop_last(), admitted, share) + (if advance_state(
            cs.last().state,
        ) is Running {
            done_of(cs.last().req_fn_state@, cs.last().fn_id, admitted, share).map_values(
                |r: ReqId| (cs.last().fn_id, r),
            )
        } else {
            Seq::<(FnId, ReqId)>::empty()
        })
    }
}

/// All completions of one compute frame, in node order.
pub open spec fn nodes_done_pairs(fns: Seq<Func>, nodes: Seq<Node>) -> Seq<(FnId, ReqId)>
    decreases nodes.len(),
{
    if nodes.len() == 0 {
        Seq::empty()
    } else {
        nodes_done_pairs(fns, nodes.drop_last()) + node_done_of(
            nodes.last().fn_containers@,
            greedy_admitted(fns, nodes.last()),
            spec_node_share(fns, nodes.last()),
        )
    }
}

/// What recording one completed (function, request) pair does to the
/// request table and the completion sink: the function is marked done in
/// its live, bound request, and the request is reported exactly when this
/// mark finished its whole DAG; a pair no live binding explains changes
/// nothing.
pub open spec fn applied_one(
    pre_reqs: Seq<Option<Request>>,
    pre_sink: Seq<ReqId>,
    post_reqs: Seq<Option<Request>>,
    post_sink: Seq<ReqId>,
    dags: Seq<FnDag>,
    n_fns: int,
    p: (FnId, ReqId),
) -> bool {
    let handled = 0 <= (p.1 as int) < pre_reqs.len() && pre_reqs[p.1 as int] is Some && (
    p.0 as int) < n_fns && pre_reqs[p.1 as int]->0.spec_bound(p.0 as int);
    if handled {
        let oldreq = pre_reqs[p.1 as int]->0;
        &&& post_reqs.len() == pre_reqs.len()
        &&& (forall|r2: int|
            0 <= r2 < pre_reqs.len() && r2 != p.1 ==> post_reqs[r2] == pre_reqs[r2])
        &&& post_reqs[p.1 as int] is Some
        &&& post_reqs[p.1 as int]->0.fn_node@ == oldreq.fn_node@
        &&& post_reqs[p.1 as int]->0.req_id == oldreq.req_id
        &&& post_reqs[p.1 as int]->0.dag_i == oldreq.dag_i
        &&& post_reqs[p.1 as int]->0.done_fns@ == oldreq.done_fns@.update(p.0 as int, true)
        &&& post_sink == (if !oldreq.done_fns@[p.0 as int] && post_reqs[p.1 as int]->0.spec_is_done(
            dags[oldreq.dag_i as int],
        ) {
            pre_sink.push(p.1)
        } else {
            pre_sink
        })
    } else {
        post_reqs == pre_reqs && post_sink == pre_sink
    }
}

/// The pairs applied in order, each as `applied_one` says.
pub open spec fn applied_done(
    pre_reqs: Seq<Option<Request>>,
    pre_sink: Seq<ReqId>,
    post_reqs: Seq<Option<Request>>,
    post_sink: Seq<ReqId>,
    dags: Seq<FnDag>,
    n_fns: int,
    pairs: Seq<(FnId, ReqId)>,
) -> bool
    decreases pairs.len(),
{
    if pairs.len() == 0 {
        post_reqs == pre_reqs && post_sink == pre_sink
    } else {
        exists|mid_reqs: Seq<Option<Request>>, mid_sink: Seq<ReqId>|
            #![trigger applied_one(mid_reqs, mid_sink, post_reqs, post_sink, dags, n_fns, pairs.last())]
            applied_done(
                pre_reqs,
                pre_sink,
                mid_reqs,
                mid_sink,
                dags,
                n_fns,
                pairs.drop_last(),
            ) && applied_one(mid_reqs, mid_sink, post_reqs, post_sink, dags, n_fns, pairs.last())
    }
}

/// Law: slot fairness. With `slots` active compute slots on a node, every
/// slot receives exactly `cpu_limit / slots` (the same equal share), the
/// shares together never exceed the node's CPU capacity, and what the
/// integer division leaves unallocated is less than one unit per slot.
pub proof fn lemma_slot_fairness(cpu_limit: u64, slots: u64)
    requires
        1 <= slots,
    ensures
        (slots as int) * ((cpu_limit / slots) as int) <= cpu_limit,
        cpu_limit - (slots as int) * ((cpu_limit / slots) as int) < slots,
{
    vstd::arithmetic::div_mod::lemma_fundamental_div_mod(cpu_limit as int, slots as int);
    vstd::arithmetic::div_mod::lemma_mod_bound(cpu_limit as int, slots as int);
}


/// A node can take a fresh cold-starting container of the function: it
/// does not host one already and the cold-start reservation still fits.
pub open spec fn up_fit(fns: Seq<Func>, n: Node, fnid: FnId) -> bool {
    &&& !n.spec_has_container(fnid)
    &&& n.rsc_limit.mem - n.mem >= fns[fnid as int].cold_start_container_mem_use
}

/// Index of the first node that can take the container; negative one when
/// none can.
pub open spec fn first_up_idx(fns: Seq<Func>, nodes: Seq<Node>, fnid: FnId) -> int
    decreases nodes.len(),
{
    if nodes.len() == 0 {
        -1
    } else if up_fit(fns, nodes[0], fnid) {
        0
    } else {
        let r = first_up_idx(fns, nodes.skip(1), fnid);
        if r == -1 {
            -1
        } else {
            r + 1
        }
    }
}

/// The node holds an idle container (no placed tasks) of the function.
pub open spec fn down_fit(n: Node, fnid: FnId) -> bool {
    exists|j: int|
        0 <= j < n.fn_containers@.len() && (#[trigger] n.fn_containers@[j]).fn_id == fnid
            && n.fn_containers@[j].req_fn_state@.len() == 0
}

/// Index of the first node with an idle container of the function;
/// negative one when none has one.
pub open spec fn first_down_idx(nodes: Seq<Node>, fnid: FnId) -> int
    decreases nodes.len(),
{
    if nodes.len() == 0 {
        -1
    } else if down_fit(nodes[0], fnid) {
        0
    } else {
        let r = first_down_idx(nodes.skip(1), fnid);
        if r == -1 {
            -1
        } else {
            r + 1
        }
    }
}

pub proof fn lemma_first_up_idx(fns: Seq<Func>, nodes: Seq<Node>, fnid: FnId, i: int)
    requires
        0 <= i <= nodes.len(),
        forall|i2: int| 0 <= i2 < i ==> !up_fit(fns, #[trigger] nodes[i2], fnid),
    ensures
        i < nodes.len() && up_fit(fns, nodes[i], fnid) ==> first_up_idx(fns, nodes, fnid) == i,
        i == nodes.len() ==> first_up_idx(fns, nodes, fnid) == -1,
    decreases nodes.len(),
{
    if nodes.len() > 0 && !up_fit(fns, nodes[0], fnid) {
        assert forall|i2: int| 0 <= i2 < i - 1 implies !up_fit(fns, #[trigger] nodes.skip(1)[i2], fnid) by {
            assert(nodes.skip(1)[i2] == nodes[i2 + 1]);
        }
        lemma_first_up_idx(fns, nodes.skip(1), fnid, if i == 0 { 0 } else { i - 1 });
        if 0 < i < nodes.len() && up_fit(fns, nodes[i], fnid) {
            assert(nodes.skip(1)[i - 1] == nodes[i]);
        }
    }
}

pub proof fn lemma_first_down_idx(nodes: Seq<Node>, fnid: FnId, i: int)
    requires
        0 <= i <= nodes.len(),
        forall|i2: int| 0 <= i2 < i ==> !down_fit(#[trigger] nodes[i2], fnid),
    ensures
        i < nodes.len() && down_fit(nodes[i], fnid) ==> first_down_idx(nodes, fnid) == i,
        i == nodes.len() ==> first_down_idx(nodes, fnid) == -1,
    decreases nodes.len(),
{
    if nodes.len() > 0 && !down_fit(nodes[0], fnid) {
        assert forall|i2: int| 0 <= i2 < i - 1 implies !down_fit(#[trigger] nodes.skip(1)[i2], fnid) by {
            assert(nodes.skip(1)[i2] == nodes[i2 + 1]);
        }
        lemma_first_down_idx(nodes.skip(1), fnid, if i == 0 { 0 } else { i - 1 });
        if 0 < i < nodes.len() && down_fit(nodes[i], fnid) {
            assert(nodes.skip(1)[i - 1] == nodes[i]);
        }
    }
}

/// One scale-up materialization step: a cold-starting container with the
/// full countdown and its reservation appears at the end of the first
/// fitting node's list; with no fitting node nothing changes.
pub open spec fn placed_up(fns: Seq<Func>, pre: Seq<Node>, post: Seq<Node>, fnid: FnId) -> bool {
    let i = first_up_idx(fns, pre, fnid);
    if i == -1 {
        post == pre
    } else {
        &&& post.len() == pre.len()
        &&& (forall|i2: int| 0 <= i2 < pre.len() && i2 != i ==> post[i2] == pre[i2])
        &&& post[i].node_id == pre[i].node_id
        &&& post[i].rsc_limit == pre[i].rsc_limit
        &&& post[i].cpu == pre[i].cpu
        &&& post[i].frame_run_count == pre[i].frame_run_count
        &&& post[i].mem == pre[i].mem + fns[fnid as int].cold_start_container_mem_use
        &&& post[i].fn_containers@.len() == pre[i].fn_containers@.len() + 1
        &&& post[i].fn_containers@.take(pre[i].fn_containers@.len() as int)
            == pre[i].fn_containers@
        &&& post[i].fn_containers@.last().fn_id == fnid
        &&& post[i].fn_containers@.last().state == (FnContainerState::Starting {
            left_frames: fns[fnid as int].cold_start_time,
        })
        &&& post[i].fn_containers@.last().req_fn_state@.len() == 0
        &&& post[i].fn_containers@.last().this_frame_used == false
        &&& post[i].fn_containers@.last().cpu_alloced == 0
        &&& post[i].fn_containers@.last().cpu_used == 0
    }
}

/// One scale-down materialization step: the first node with an idle
/// container of the function loses that container and its reservation;
/// with none nothing changes.
pub open spec fn removed_down(fns: Seq<Func>, pre: Seq<Node>, post: Seq<Node>, fnid: FnId) -> bool {
    let i = first_down_idx(pre, fnid);
    if i == -1 {
        post == pre
    } else {
        let cj = choose|cj: int|
            0 <= cj < pre[i].fn_containers@.len() && (#[trigger] pre[i].fn_containers@[cj]).fn_id
                == fnid && pre[i].fn_containers@[cj].req_fn_state@.len() == 0;
        &&& post.len() == pre.len()
        &&& (forall|i2: int| 0 <= i2 < pre.len() && i2 != i ==> post[i2] == pre[i2])
        &&& post[i].node_id == pre[i].node_id
        &&& post[i].rsc_limit == pre[i].rsc_limit
        &&& post[i].cpu == pre[i].cpu
        &&& post[i].frame_run_count == pre[i].frame_run_count
        &&& post[i].mem == pre[i].mem - pre[i].fn_containers@[cj].res_mem(fns)
        &&& post[i].fn_containers@ == pre[i].fn_containers@.remove(cj)
    }
}

/// `cnt` successive scale-up steps.
pub open spec fn upped_n(fns: Seq<Func>, pre: Seq<Node>, post: Seq<Node>, fnid: FnId, cnt: int) -> bool
    decreases
            (if cnt <= 0 {
                0int
            } else {
                cnt
            }),
{
    if cnt <= 0 {
        post == pre
    } else {
        exists|mid: Seq<Node>|
            #![trigger placed_up(fns, mid, post, fnid)]
            upped_n(fns, pre, mid, fnid, cnt - 1) && placed_up(fns, mid, post, fnid)
    }
}

/// `cnt` successive scale-down steps.
pub open spec fn downed_n(fns: Seq<Func>, pre: Seq<Node>, post: Seq<Node>, fnid: FnId, cnt: int) -> bool
    decreases
            (if cnt <= 0 {
                0int
            } else {
                cnt
            }),
{
    if cnt <= 0 {
        post == pre
    } else {
        exists|mid: Seq<Node>|
            #![trigger removed_down(fns, mid, post, fnid)]
            downed_n(fns, pre, mid, fnid, cnt - 1) && removed_down(fns, mid, post, fnid)
    }
}

/// The effect of one pending command on the node list.
pub open spec fn cmd_applied(fns: Seq<Func>, pre: Seq<Node>, post: Seq<Node>, cmd: ScaleCmd) -> bool {
    match cmd {
        ScaleCmd::Up { fnid, cnt } => {
            if (fnid as int) < fns.len() {
                upped_n(fns, pre, post, fnid, cnt as int)
            } else {
                // a command for an unknown function places nothing
                post == pre
            }
        },
        ScaleCmd::Down { fnid, cnt } => downed_n(fns, pre, post, fnid, cnt as int),
    }
}

/// The pending commands materialized in issue order.
pub open spec fn cmds_applied(
    fns: Seq<Func>,
    pre: Seq<Node>,
    post: Seq<Node>,
    cmds: Seq<ScaleCmd>,
) -> bool
    decreases cmds.len(),
{
    if cmds.len() == 0 {
        post == pre
    } else {
        exists|mid: Seq<Node>|
            #![trigger cmd_applied(fns, mid, post, cmds.last())]
            cmds_applied(fns, pre, mid, cmds.drop_last()) && cmd_applied(
                fns,
                mid,
                post,
                cmds.last(),
            )
    }
}

/// What the materialize stage does, in full.
pub open spec fn load_effect(pre: SimEnv, post: SimEnv) -> bool {
    &&& post.wf()
    &&& post.fns@ == pre.fns@
    &&& post.dags@ == pre.dags@
    &&& post.requests@ == pre.requests@
    &&& post.node_speeds@ == pre.node_speeds@
    &&& post.done_requests@ == pre.done_requests@
    &&& post.env_id@ == pre.env_id@
    &&& post.hpa_action == pre.hpa_action
    &&& post.distance2hpa == pre.distance2hpa
    &&& post.current_frame == pre.current_frame
    &&& post.nodes@.len() == pre.nodes@.len()
    &&& post.scale_cmds@.len() == 0
    &&& cmds_applied(pre.fns@, pre.nodes@, post.nodes@, pre.scale_cmds@)
}

/// What the compute stage does, in full.
pub open spec fn compute_effect(pre: SimEnv, post: SimEnv) -> bool {
    &&& post.wf()
    &&& post.fns@ == pre.fns@
    &&& post.dags@ == pre.dags@
    &&& post.node_speeds@ == pre.node_speeds@
    &&& post.scale_cmds@ == pre.scale_cmds@
    &&& post.env_id@ == pre.env_id@
    &&& post.hpa_action == pre.hpa_action
    &&& post.distance2hpa == pre.distance2hpa
    &&& post.current_frame == pre.current_frame
    &&& post.nodes@.len() == pre.nodes@.len()
    &&& post.requests@.len() == pre.requests@.len()
    &&& forall|i: int|
        0 <= i < pre.nodes@.len() ==> compute_node_post(
            pre.fns@,
            pre.nodes@[i],
            #[trigger] post.nodes@[i],
        )
    &&& applied_done(
        pre.requests@,
        pre.done_requests@,
        post.requests@,
        post.done_requests@,
        pre.dags@,
        pre.fns@.len() as int,
        nodes_done_pairs(pre.fns@, pre.nodes@),
    )
}

/// The compute stage followed by the frame tick.
pub open spec fn after_transfer(b: SimEnv, post: SimEnv) -> bool {
    exists|c: SimEnv|
        #![trigger compute_effect(b, c)]
        compute_effect(b, c) && post == (SimEnv {
            current_frame: (c.current_frame + 1) as u64,
            ..c
        })
}

/// The transfer stage, then the compute stage and the tick.
pub open spec fn after_load(a: SimEnv, post: SimEnv) -> bool {
    exists|b: SimEnv|
        #![trigger crate::transfer::transfer_effect(a, b)]
        crate::transfer::transfer_effect(a, b) && b.wf() && after_transfer(b, post)
}

/// One whole frame: the materialize, transfer and compute stages composed
/// in order, then one tick of the clock.
pub open spec fn run_effect(pre: SimEnv, post: SimEnv) -> bool {
    exists|a: SimEnv| #![trigger load_effect(pre, a)] load_effect(pre, a) && after_load(a, post)
}

/// Whether the admitted list holds the (function, request) pair.
fn contains_pair(v: &Vec<(FnId, ReqId)>, f: FnId, r: ReqId) -> (res: bool)
    ensures
        res == v@.contains((f, r)),
{
    let mut t: usize = 0;
    while t < v.len()
        invariant
            t <= v@.len(),
            forall|t2: int| 0 <= t2 < t ==> v@[t2] != (f, r),
        decreases v@.len() - t,
    {
        if v[t].0 == f && v[t].1 == r {
            proof {
                assert(v@[t as int] == (f, r));
            }
            return true;
        }
        t = t + 1;
    }
    false
}

} // verus!
