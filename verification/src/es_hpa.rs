//! The utilization controller: compare the function's average resource
//! utilization (in `SCALE`d fixed-point units) against a configured
//! target with a tolerance band, and decide a container count.

use vstd::prelude::*;
use crate::env::{count_hosting, SimEnv};
use crate::model::{FnId, Node, IDX_MAX, RES_MAX};
use crate::scale::{
    spec_filter_desired, CarefulScaleDown, ContainerMetric, ESActionWrapper, ESScaler, ScaleCmd,
    SCALE, SKIP_ACTION,
};

verus! {

broadcast use vstd::seq_lib::group_seq_properties;

/// The monitored resource dimension and its target utilization, in
/// `SCALE`d units. Which physical resource is monitored is a
/// configuration choice.
pub enum Target {
    /// Target utilization of the monitored per-node resource.
    CpuUseRate(u64),
}

/// Summed scaled utilization of the nodes hosting a container for the
/// function: each contributes its reserved share of its memory limit.
pub open spec fn util_sum(nodes: Seq<Node>, fnid: FnId) -> int
    decreases nodes.len(),
{
    if nodes.len() == 0 {
        0
    } else {
        util_sum(nodes.drop_last(), fnid) + if nodes.last().spec_has_container(fnid) {
            (nodes.last().mem * SCALE) as int / nodes.last().rsc_limit.mem as int
        } else {
            0
        }
    }
}

/// Average scaled utilization across the function's containers; zero with
/// no containers.
pub open spec fn spec_avg_util(env: SimEnv, fnid: FnId) -> int {
    if count_hosting(env.nodes@, fnid) > 0 {
        util_sum(env.nodes@, fnid) / count_hosting(env.nodes@, fnid)
    } else {
        0
    }
}

/// Ceiling division for positive divisors.
pub open spec fn spec_ceil_div(a: int, b: int) -> int {
    (a + b - 1) / b
}

/// The utilization ratio sits within the closed tolerance band around the
/// target: scaling is skipped.
pub open spec fn spec_in_tolerance(avg: int, target: int, tol: int) -> bool {
    let ratio = (avg * SCALE) / target;
    SCALE - tol <= ratio && ratio <= SCALE + tol
}

/// Whether the utilization controller takes no action this cycle: the
/// ratio is within tolerance and the zero-containers-with-waiting-requests
/// override does not apply.
pub open spec fn spec_hpa_skip(avg: int, target: int, tol: int, ready: int) -> bool {
    !(ready > 0 && spec_ceil_div(avg, target) == 0) && spec_in_tolerance(avg, target, tol)
}

/// The utilization controller's numeric decision, taken when it does not
/// skip: the ceiling of utilization over target, forced to one when
/// requests wait with no capacity, then damped.
pub open spec fn spec_hpa_desired(avg: int, target: int, ready: int, current: int, step: int) -> int {
    let desired0 = spec_ceil_div(avg, target);
    if ready > 0 && desired0 == 0 {
        spec_filter_desired(1, current, step)
    } else {
        spec_filter_desired(desired0, current, step)
    }
}

/// The action-value form of the decision, as `action` answers it: the
/// desired container count, or `SKIP_ACTION` for a skip. The two meanings
/// can collide on the value itself, so the command path decides the skip
/// separately (`spec_hpa_skip`).
pub open spec fn spec_hpa_action(
    avg: int,
    target: int,
    tol: int,
    ready: int,
    current: int,
    step: int,
) -> int {
    if spec_hpa_skip(avg, target, tol, ready) {
        SKIP_ACTION as int
    } else {
        spec_hpa_desired(avg, target, ready, current, step)
    }
}

/// Law: the scale-down floor. Whenever at least one request waits with a
/// ready task, the utilization controller's numeric decision never drives
/// the container count to zero.
pub proof fn lemma_scale_down_floor(avg: int, target: int, ready: int, current: int, step: int)
    requires
        1 <= target,
        0 <= avg,
        0 <= step,
        0 <= current,
        1 <= ready,
    ensures
        spec_hpa_desired(avg, target, ready, current, step) >= 1,
{
}

/// The utilization controller.
pub struct HpaESScaler {
    /// The monitored dimension and its target.
    pub target: Target,
    /// How close the utilization/target ratio must be to one to skip
    /// scaling, in `SCALE`d units.
    pub target_tolerance: u64,
    /// The scale-down damping filter.
    pub scale_down_policy: CarefulScaleDown,
}

impl HpaESScaler {
    /// The configured target is positive and bounded.
    pub open spec fn wf(&self) -> bool {
        &&& (match self.target {
            Target::CpuUseRate(t) => 1 <= t <= RES_MAX,
        })
        &&& self.target_tolerance <= SCALE
    }

    pub fn new() -> (r: Self)
        ensures
            r.wf(),
            r.target == Target::CpuUseRate(500u64),
            r.target_tolerance == 100u64,
            r.scale_down_policy.max_down_step == 1,
    {
        HpaESScaler {
            target: Target::CpuUseRate(500),
            target_tolerance: 100,
            scale_down_policy: CarefulScaleDown::new(),
        }
    }

    /// The configured target, in `SCALE`d units.
    pub open spec fn spec_target(&self) -> int {
        match self.target {
            Target::CpuUseRate(t) => t as int,
        }
    }

    /// Average scaled utilization across the function's containers.
    fn avg_util_scaled(&self, env: &SimEnv, fnid: FnId) -> (r: u64)
        requires
            env.wf(),
        ensures
            r == spec_avg_util(*env, fnid),
            r <= SCALE,
    {
        let n_nodes = env.nodes.len();
        let mut sum: u64 = 0;
        let mut cnt: u64 = 0;
        let mut i: usize = 0;
        while i < n_nodes
            invariant
                env.wf(),
                n_nodes == env.nodes@.len(),
                i <= n_nodes,
                sum == util_sum(env.nodes@.take(i as int), fnid),
                cnt == count_hosting(env.nodes@.take(i as int), fnid),
                cnt <= i,
                sum <= cnt * (SCALE as int),
            decreases n_nodes - i,
        {
            proof {
                assert(env.nodes@.take(i + 1).drop_last() =~= env.nodes@.take(i as int));
                assert(env.nodes@.take(i + 1).last() == env.nodes@[i as int]);
                assert(env.nodes@[i as int].wf(i as int, env.fns@, env.nodes@.len() as nat));
                assert((cnt + 1) * (SCALE as int) == cnt * (SCALE as int) + (SCALE as int))
                    by (nonlinear_arith);
                assert(cnt * (SCALE as int) <= (IDX_MAX as int) * (SCALE as int))
                    by (nonlinear_arith)
                    requires
                        0 <= cnt <= IDX_MAX,
                ;
            }
            if self.node_hosts(env, i, fnid) {
                let node = &env.nodes[i];
                let term = node.mem * SCALE / node.rsc_limit.mem;
                proof {
                    vstd::arithmetic::div_mod::lemma_div_is_ordered(
                        node.mem as int * SCALE as int,
                        node.rsc_limit.mem as int * SCALE as int,
                        node.rsc_limit.mem as int,
                    );
                    assert(node.rsc_limit.mem as int * SCALE as int / (node.rsc_limit.mem as int)
                        == SCALE as int) by (nonlinear_arith)
                        requires
                            1 <= node.rsc_limit.mem,
                    ;
                    assert(node.mem as int * SCALE as int <= node.rsc_limit.mem as int
                        * SCALE as int) by (nonlinear_arith)
                        requires
                            node.mem <= node.rsc_limit.mem,
                    ;
                }
                sum = sum + term;
                cnt = cnt + 1;
            }
            i = i + 1;
        }
        proof {
            assert(env.nodes@.take(n_nodes as int) =~= env.nodes@);
            if cnt > 0 {
                vstd::arithmetic::div_mod::lemma_div_is_ordered(
                    sum as int,
                    cnt * (SCALE as int),
                    cnt as int,
                );
                assert(cnt * (SCALE as int) / (cnt as int) == SCALE) by (nonlinear_arith)
                    requires
                        1 <= cnt,
                ;
            }
        }
        if cnt > 0 {
            sum / cnt
        } else {
            0
        }
    }

    /// Whether node `i` hosts a container for the function.
    fn node_hosts(&self, env: &SimEnv, i: usize, fnid: FnId) -> (r: bool)
        requires
            (i as int) < env.nodes@.len(),
        ensures
            r == env.nodes@[i as int].spec_has_container(fnid),
    {
        env.nodes[i].container_index(fnid).is_some()
    }

    /// The utilization controller's decision for one function: the desired
    /// container count after damping, or `SKIP_ACTION` when the
    /// utilization ratio is close enough to the target and requests wait
    /// nowhere.
    pub fn action(&mut self, env: &SimEnv, fnid: FnId, metric: &ContainerMetric) -> (r: usize)
        requires
            env.wf(),
            old(self).wf(),
        ensures
            *final(self) == *old(self),
            r as int == spec_hpa_action(
                spec_avg_util(*env, fnid),
                old(self).spec_target(),
                old(self).target_tolerance as int,
                metric.ready_2_schedule_fn_reqs@.len() as int,
                metric.container_count as int,
                old(self).scale_down_policy.max_down_step as int,
            ),
    {
        let cpu_target_use_rate = match self.target {
            Target::CpuUseRate(t) => t,
        };
        let container_cnt = metric.container_count;
        let avg_cpu_use_rate = self.avg_util_scaled(env, fnid);
        proof {
            assert((avg_cpu_use_rate + cpu_target_use_rate - 1) / (cpu_target_use_rate as int)
                <= avg_cpu_use_rate + 1) by (nonlinear_arith)
                requires
                    1 <= cpu_target_use_rate,
                    0 <= avg_cpu_use_rate,
            ;
        }
        let mut desired_container_cnt: usize = ((avg_cpu_use_rate + cpu_target_use_rate - 1)
            / cpu_target_use_rate) as usize;
        if metric.ready_2_schedule_fn_count() > 0 && desired_container_cnt == 0 {
            desired_container_cnt = 1;
        } else {
            // current utilization divided by the target, in SCALEd units
            let ratio = avg_cpu_use_rate * SCALE / cpu_target_use_rate;
            if SCALE - self.target_tolerance <= ratio && ratio <= SCALE + self.target_tolerance {
                // the ratio is sufficiently close to one: skip
                return SKIP_ACTION;
            }
        }
        desired_container_cnt = self.scale_down_policy.filter_desired(
            fnid,
            desired_container_cnt,
            container_cnt,
        );
        desired_container_cnt
    }
}

impl ESScaler for HpaESScaler {
    fn scale_for_fn(
        &mut self,
        env: &mut SimEnv,
        fnid: FnId,
        metric: &ContainerMetric,
        action: &ESActionWrapper,
    ) -> (r: (i64, bool))
        ensures
            *final(self) == *old(self),
            old(self).wf() ==> {
                let avg = spec_avg_util(*old(env), fnid);
                let target = old(self).spec_target();
                let tol = old(self).target_tolerance as int;
                let ready = metric.ready_2_schedule_fn_reqs@.len() as int;
                let current = metric.container_count as int;
                let step = old(self).scale_down_policy.max_down_step as int;
                let skip = spec_hpa_skip(avg, target, tol, ready);
                let decided = spec_hpa_desired(avg, target, ready, current, step);
                &&& (skip || decided == current ==> final(env).scale_cmds@ == old(env).scale_cmds@)
                &&& (!skip && decided < current ==> final(env).scale_cmds@ == old(env).scale_cmds@.push(
                    ScaleCmd::Down { fnid, cnt: (current - decided) as usize },
                ))
                &&& (!skip && decided > current ==> final(env).scale_cmds@ == old(env).scale_cmds@.push(
                    ScaleCmd::Up { fnid, cnt: (decided - current) as usize },
                ))
                &&& r == (0i64, false)
            },
    {
        if !self.wf_check() {
            return (0, false);
        }
        let cpu_target_use_rate = match self.target {
            Target::CpuUseRate(t) => t,
        };
        let container_cnt = metric.container_count;
        let avg_cpu_use_rate = self.avg_util_scaled(env, fnid);
        proof {
            assert((avg_cpu_use_rate + cpu_target_use_rate - 1) / (cpu_target_use_rate as int)
                <= avg_cpu_use_rate + 1) by (nonlinear_arith)
                requires
                    1 <= cpu_target_use_rate,
                    0 <= avg_cpu_use_rate,
            ;
        }
        let mut desired_container_cnt: usize = ((avg_cpu_use_rate + cpu_target_use_rate - 1)
            / cpu_target_use_rate) as usize;
        if metric.ready_2_schedule_fn_count() > 0 && desired_container_cnt == 0 {
            desired_container_cnt = 1;
        } else {
            // the skip is decided here, apart from any numeric decision: a
            // damped count that happens to equal the action sentinel must
            // still be carried out
            let ratio = avg_cpu_use_rate * SCALE / cpu_target_use_rate;
            if SCALE - self.target_tolerance <= ratio && ratio <= SCALE + self.target_tolerance {
                return (0, false);
            }
        }
        let decided = self.scale_down_policy.filter_desired(
            fnid,
            desired_container_cnt,
            container_cnt,
        );
        let ghost pre = *env;
        if decided < container_cnt {
            // scale down
            let scale = container_cnt - decided;
            env.scale_cmds.push(ScaleCmd::Down { fnid, cnt: scale });
        } else if decided > container_cnt {
            // scale up
            let scale = decided - container_cnt;
            env.scale_cmds.push(ScaleCmd::Up { fnid, cnt: scale });
        }
        proof {
            if decided != container_cnt {
                assert forall|i: int, j: int, k: int|
                    env.valid_task_idx(i, j, k) implies #[trigger] env.task_linked(i, j, k) by {
                    assert(pre.task_linked(i, j, k));
                }
                assert(env.wf());
            }
        }
        (0, false)
    }
}

impl HpaESScaler {
    /// Whether this controller's configuration is usable: the target is
    /// positive and bounded.
    pub fn wf_check(&self) -> (r: bool)
        ensures
            r == self.wf(),
    {
        let t = match self.target {
            Target::CpuUseRate(t) => t,
        };
        1 <= t && t <= RES_MAX && self.target_tolerance <= SCALE
    }
}

} // verus!
