//! The policy-action controller: consume a discrete, externally produced
//! scaling action, enforce the scale-down floor for functions with
//! pending requests, and score the distance to the utilization
//! controller's decision for external reward use.

use vstd::prelude::*;
use crate::env::SimEnv;
use crate::es_hpa::{spec_avg_util, spec_hpa_action, HpaESScaler};
use crate::model::FnId;
use crate::scale::{
    spec_filter_desired, CarefulScaleDown, ContainerMetric, ESActionWrapper, ESScaler, ScaleCmd,
    SKIP_ACTION,
};

verus! {

/// The desired container count the policy-action controller settles on:
/// the raw action modulo ten, the current count for the sentinel, forced
/// to one when requests wait, then damped.
pub open spec fn spec_ai_desired(raw: int, current: int, ready: int, step: int) -> int {
    let d0 = if raw == SKIP_ACTION as int {
        current
    } else {
        raw % 10
    };
    let d1 = if ready > 0 && d0 == 0 {
        1
    } else {
        d0
    };
    spec_filter_desired(d1, current, step)
}

/// The auxiliary penalty: charged exactly when the floor had to be
/// enforced.
pub open spec fn spec_ai_score(raw: int, current: int, ready: int) -> int {
    let d0 = if raw == SKIP_ACTION as int {
        current
    } else {
        raw % 10
    };
    if ready > 0 && d0 == 0 {
        -1000
    } else {
        0
    }
}

/// Law: the scale-down floor. Whenever at least one request waits with a
/// ready task, the policy-action controller never drives the container
/// count to zero, whatever the external action asked.
pub proof fn lemma_ai_scale_down_floor(raw: int, current: int, ready: int, step: int)
    requires
        0 <= raw,
        0 <= current,
        0 <= step,
        1 <= ready,
    ensures
        spec_ai_desired(raw, current, ready, step) >= 1,
{
}

/// The policy-action controller.
pub struct AIScaler {
    /// The utilization controller, run purely as a reference baseline for
    /// auxiliary scoring.
    pub hpa: HpaESScaler,
    /// The scale-down damping filter.
    pub scale_down_policy: CarefulScaleDown,
}

impl AIScaler {
    pub fn new() -> (r: Self)
        ensures
            r.hpa.wf(),
            r.scale_down_policy.max_down_step == 1,
    {
        AIScaler { hpa: HpaESScaler::new(), scale_down_policy: CarefulScaleDown::new() }
    }
}

impl ESScaler for AIScaler {
    fn scale_for_fn(
        &mut self,
        env: &mut SimEnv,
        fnid: FnId,
        metric: &ContainerMetric,
        action: &ESActionWrapper,
    ) -> (r: (i64, bool))
        ensures
            old(self).hpa.wf() ==> {
                let raw = (match *action {
                    ESActionWrapper::Int(x) => x as int
                });
                let current = old(env).spec_fn_container_cnt(fnid);
                let ready = metric.ready_2_schedule_fn_reqs@.len() as int;
                let decided = spec_ai_desired(
                    raw,
                    current,
                    ready,
                    old(self).scale_down_policy.max_down_step as int,
                );
                &&& (decided == current ==> final(env).scale_cmds@ == old(env).scale_cmds@)
                &&& (decided < current ==> final(env).scale_cmds@ == old(env).scale_cmds@.push(
                    ScaleCmd::Down { fnid, cnt: (current - decided) as usize },
                ))
                &&& (decided > current ==> final(env).scale_cmds@ == old(env).scale_cmds@.push(
                    ScaleCmd::Up { fnid, cnt: (decided - current) as usize },
                ))
                &&& r.0 == spec_ai_score(raw, current, ready)
                &&& r.1 == true
                // the baseline and its distance are published for reward use
                &&& final(env).hpa_action as int == spec_hpa_action(
                    spec_avg_util(*old(env), fnid),
                    old(self).hpa.spec_target(),
                    old(self).hpa.target_tolerance as int,
                    ready,
                    metric.container_count as int,
                    old(self).hpa.scale_down_policy.max_down_step as int,
                )
                &&& final(env).distance2hpa == (if raw >= final(env).hpa_action as int {
                    raw - final(env).hpa_action as int
                } else {
                    final(env).hpa_action as int - raw
                })
            },
    {
        if !self.hpa.wf_check() {
            return (0, true);
        }
        let raw_action: usize = match action {
            ESActionWrapper::Int(x) => *x as usize,
        };
        let hpa_decided = self.hpa.action(env, fnid, metric);
        let ghost pre = *env;
        env.hpa_action = hpa_decided;
        env.distance2hpa = if raw_action >= hpa_decided {
            raw_action - hpa_decided
        } else {
            hpa_decided - raw_action
        };
        let container_cnt = env.fn_container_cnt(fnid);
        let mut desired_container_cnt: usize = raw_action % 10;
        let mut score_trans: i64 = 0;
        // the sentinel asks for no change
        if raw_action == SKIP_ACTION {
            desired_container_cnt = container_cnt;
        }
        // a function with pending requests is never scaled to zero
        if metric.ready_2_schedule_fn_count() > 0 && desired_container_cnt == 0 {
            desired_container_cnt = 1;
            score_trans = score_trans - 1000;
        }
        let desired_container_cnt = self.scale_down_policy.filter_desired(
            fnid,
            desired_container_cnt,
            container_cnt,
        );
        if desired_container_cnt < container_cnt {
            // scale down
            let scale = container_cnt - desired_container_cnt;
            env.scale_cmds.push(ScaleCmd::Down { fnid, cnt: scale });
        } else if desired_container_cnt > container_cnt {
            // scale up
            let scale = desired_container_cnt - container_cnt;
            env.scale_cmds.push(ScaleCmd::Up { fnid, cnt: scale });
        }
        proof {
            assert forall|i: int, j: int, k: int|
                env.valid_task_idx(i, j, k) implies #[trigger] env.task_linked(i, j, k) by {
                assert(pre.task_linked(i, j, k));
            }
            assert(env.wf());
        }
        (score_trans, true)
    }
}

} // verus!
