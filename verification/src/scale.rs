//! The autoscaling decision layer's shared pieces: the command interface
//! to the provisioning backend, the metric snapshot the controllers read,
//! the external action wrapper, and the scale-down damping filter.

use vstd::prelude::*;
use crate::model::FnId;
use crate::model::ReqId;

verus! {

/// A command for the provisioning backend, materialized into container
/// objects at the next frame's load step.
#[derive(Clone, Copy, PartialEq, Eq, Structural, Debug)]
pub enum ScaleCmd {
    /// Create `cnt` new containers for the function.
    Up { fnid: FnId, cnt: usize },
    /// Destroy up to `cnt` idle containers of the function.
    Down { fnid: FnId, cnt: usize },
}

/// Ephemeral aggregate snapshot per function: the autoscaler's only
/// read-path into the rest of the system.
pub struct ContainerMetric {
    /// Number of containers currently hosting the function.
    pub container_count: usize,
    /// The requests with a ready-to-schedule task of the function.
    pub ready_2_schedule_fn_reqs: Vec<ReqId>,
}

impl ContainerMetric {
    /// Number of requests with a ready-to-schedule task of the function.
    pub fn ready_2_schedule_fn_count(&self) -> (r: usize)
        ensures
            r == self.ready_2_schedule_fn_reqs@.len(),
    {
        self.ready_2_schedule_fn_reqs.len()
    }
}

/// A raw scaling action produced outside the kernel; the kernel never
/// generates it.
pub enum ESActionWrapper {
    /// A discrete action value.
    Int(u32),
}

/// What the damping filter answers for a desired container count.
pub open spec fn spec_filter_desired(desired: int, current: int, step: int) -> int {
    if desired < current {
        if current - desired > step {
            current - step
        } else {
            desired
        }
    } else {
        desired
    }
}

/// Scale-down damping filter: adjusts a desired container count so that
/// one decision never reduces the count by more than `max_down_step`, and
/// never touches a scale-up decision.
pub struct CarefulScaleDown {
    /// Largest container-count reduction one decision may make.
    pub max_down_step: usize,
}

impl CarefulScaleDown {
    pub fn new() -> (r: Self)
        ensures
            r.max_down_step == 1,
    {
        CarefulScaleDown { max_down_step: 1 }
    }

    /// Damp a desired container count against the current one.
    pub fn filter_desired(&self, _fnid: FnId, desired: usize, current: usize) -> (r: usize)
        ensures
            r == spec_filter_desired(desired as int, current as int, self.max_down_step as int),
            // the filter never reduces the count by more than the step bound
            current - r <= self.max_down_step,
            // it never increases a scale-up decision
            desired >= current ==> r == desired,
            // it never scales further down than asked
            r >= desired || r >= current,
    {
        if desired < current {
            if current - desired > self.max_down_step {
                current - self.max_down_step
            } else {
                desired
            }
        } else {
            desired
        }
    }
}

/// Fixed-point scale for utilization ratios: one unit of utilization is
/// `SCALE` scaled units.
pub const SCALE: u64 = 1000;

/// The action value the utilization controller answers, and the external
/// sentinel value, meaning "no change requested".
pub const SKIP_ACTION: usize = 11;

/// A scaling policy: decide a container-count change for one function
/// from its metric snapshot and an externally supplied action, issue the
/// matching command to the provisioning backend, and answer an auxiliary
/// score and whether the action was handled.
pub trait ESScaler {
    fn scale_for_fn(
        &mut self,
        env: &mut crate::env::SimEnv,
        fnid: FnId,
        metric: &ContainerMetric,
        action: &ESActionWrapper,
    ) -> (r: (i64, bool))
        requires
            old(env).wf(),
            (fnid as int) < old(env).fns@.len(),
        ensures
            final(env).wf(),
            final(env).fns@ == old(env).fns@,
            final(env).dags@ == old(env).dags@,
            final(env).nodes@ == old(env).nodes@,
            final(env).requests@ == old(env).requests@,
            final(env).node_speeds@ == old(env).node_speeds@,
            final(env).done_requests@ == old(env).done_requests@,
            final(env).current_frame == old(env).current_frame,
            final(env).env_id@ == old(env).env_id@,
            // a scaler only appends commands for the provisioning backend
            final(env).scale_cmds@.len() >= old(env).scale_cmds@.len(),
            forall|t: int|
                0 <= t < old(env).scale_cmds@.len() ==> #[trigger] final(env).scale_cmds@[t]
                    == old(env).scale_cmds@[t],
    ;
}

/// Law: a scale-down decision passed through the damping filter lowers the
/// container count by at most the configured step bound, so consecutive
/// decisions each lower it by at most that bound.
pub proof fn lemma_damping_bound(desired: int, current: int, step: int)
    requires
        0 <= desired,
        0 <= current,
        0 <= step,
    ensures
        current - spec_filter_desired(desired, current, step) <= step,
        desired >= current ==> spec_filter_desired(desired, current, step) == desired,
{
}

} // verus!
