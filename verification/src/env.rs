//! The simulation environment: exclusive owner of the node, function,
//! DAG and request collections, accessed through ids (arena + index), and
//! its global well-formedness invariant.

use vstd::prelude::*;
use crate::model::{
    lemma_distinct_bounded, FnContainer, FnDag, FnId, FnRunningState, Func, Node, NodeId, ReqId,
    Request, IDX_MAX, REQ_CAP, RES_MAX,
};
use crate::scale::ScaleCmd;

verus! {

broadcast use vstd::seq_lib::group_seq_properties;

/// The simulation environment. One `sim_run` call advances every piece of
/// state by exactly one frame.
pub struct SimEnv {
    /// Identifier of this environment, for the introspection query.
    pub env_id: String,
    /// The function templates, indexed by `FnId`.
    pub fns: Vec<Func>,
    /// The DAG templates, indexed by dag index.
    pub dags: Vec<FnDag>,
    /// The nodes, indexed by `NodeId`.
    pub nodes: Vec<Node>,
    /// The live requests, indexed by `ReqId`; finalized ones are `None`.
    pub requests: Vec<Option<Request>>,
    /// Link bandwidth between each ordered node pair.
    pub node_speeds: Vec<Vec<u64>>,
    /// Scale commands issued to the provisioning backend and not yet
    /// materialized into containers.
    pub scale_cmds: Vec<ScaleCmd>,
    /// Completion sink: requests finalized so far, in finishing order.
    pub done_requests: Vec<ReqId>,
    /// The frame clock; advanced by one tick per `sim_run`.
    pub current_frame: u64,
    /// The utilization controller's latest decision, kept for the
    /// policy-action controller's auxiliary scoring.
    pub hpa_action: usize,
    /// Absolute distance between the latest external action and
    /// `hpa_action`, exposed for external reward/diagnostic use.
    pub distance2hpa: usize,
}

impl SimEnv {
    /// The task entry at node `i`, container `j`, slot `k`.
    pub open spec fn task_at(&self, i: int, j: int, k: int) -> (ReqId, FnRunningState) {
        self.nodes@[i].fn_containers@[j].req_fn_state@[k]
    }

    /// Whether `(i, j, k)` indexes a task entry.
    pub open spec fn valid_task_idx(&self, i: int, j: int, k: int) -> bool {
        &&& 0 <= i < self.nodes@.len()
        &&& 0 <= j < self.nodes@[i].fn_containers@.len()
        &&& 0 <= k < self.nodes@[i].fn_containers@[j].req_fn_state@.len()
    }

    /// The task entry at `(i, j, k)` belongs to a live request that bound
    /// the container's function to exactly this node and has not finished
    /// it: the containers and the requests agree.
    pub open spec fn task_linked(&self, i: int, j: int, k: int) -> bool {
        let c = self.nodes@[i].fn_containers@[j];
        let t = c.req_fn_state@[k];
        &&& (t.0 as int) < self.requests@.len()
        &&& self.requests@[t.0 as int] is Some
        &&& self.requests@[t.0 as int]->0.fn_node@[c.fn_id as int] == Some(i as usize)
    }

    /// Every task entry is linked.
    pub open spec fn tasks_linked(&self) -> bool {
        forall|i: int, j: int, k: int|
            self.valid_task_idx(i, j, k) ==> #[trigger] self.task_linked(i, j, k)
    }

    /// The function templates alone are well-formed; the part of the
    /// invariant a detached node can be processed under.
    pub open spec fn fns_wf(&self) -> bool {
        &&& self.fns@.len() <= IDX_MAX
        &&& forall|f: int|
            0 <= f < self.fns@.len() ==> (#[trigger] self.fns@[f]).wf(self.fns@.len() as nat)
    }

    /// The global invariant, preserved by every frame stage.
    pub open spec fn wf(&self) -> bool {
        &&& self.fns@.len() <= IDX_MAX
        &&& self.nodes@.len() <= IDX_MAX
        &&& self.requests@.len() <= REQ_CAP
        &&& forall|f: int|
            0 <= f < self.fns@.len() ==> (#[trigger] self.fns@[f]).wf(self.fns@.len() as nat)
        &&& forall|d: int| 0 <= d < self.dags@.len() ==> (#[trigger] self.dags@[d]).wf(self.fns@)
        &&& forall|i: int|
            0 <= i < self.nodes@.len() ==> (#[trigger] self.nodes@[i]).wf(
                i,
                self.fns@,
                self.nodes@.len() as nat,
            )
        &&& forall|r: int|
            0 <= r < self.requests@.len() && (#[trigger] self.requests@[r]) is Some
                ==> self.requests@[r]->0.wf(r, self.dags@, self.fns@, self.nodes@.len() as nat)
        &&& self.node_speeds@.len() == self.nodes@.len()
        &&& forall|x: int|
            0 <= x < self.node_speeds@.len() ==> (#[trigger] self.node_speeds@[x])@.len()
                == self.nodes@.len()
        &&& forall|x: int, y: int|
            0 <= x < self.node_speeds@.len() && 0 <= y < self.node_speeds@[x]@.len()
                ==> (#[trigger] self.node_speeds@[x]@[y]) <= RES_MAX
        &&& self.tasks_linked()
    }

    /// The function template for `fnid`.
    pub fn func(&self, fnid: FnId) -> (r: &Func)
        requires
            (fnid as int) < self.fns@.len(),
        ensures
            *r == self.fns@[fnid as int],
    {
        &self.fns[fnid]
    }

    /// Total bandwidth of the link between two nodes.
    pub fn node_get_speed_btwn(&self, a: NodeId, b: NodeId) -> (r: u64)
        requires
            self.wf(),
            (a as int) < self.nodes@.len(),
            (b as int) < self.nodes@.len(),
        ensures
            r == self.node_speeds@[a as int]@[b as int],
            r <= RES_MAX,
    {
        self.node_speeds[a][b]
    }

    /// Number of nodes currently hosting a container for `fnid`.
    pub open spec fn spec_fn_container_cnt(&self, fnid: FnId) -> int {
        count_hosting(self.nodes@, fnid)
    }

    /// Number of nodes currently hosting a container for `fnid`.
    pub fn fn_container_cnt(&self, fnid: FnId) -> (r: usize)
        ensures
            r == self.spec_fn_container_cnt(fnid),
            r <= self.nodes@.len(),
    {
        let mut cnt: usize = 0;
        let mut i: usize = 0;
        while i < self.nodes.len()
            invariant
                i <= self.nodes@.len(),
                cnt <= i,
                cnt == count_hosting(self.nodes@.take(i as int), fnid),
            decreases self.nodes@.len() - i,
        {
            proof {
                assert(self.nodes@.take(i + 1).drop_last() =~= self.nodes@.take(i as int));
                assert(self.nodes@.take(i + 1).last() == self.nodes@[i as int]);
            }
            if self.nodes[i].container_index(fnid).is_some() {
                cnt = cnt + 1;
            }
            i = i + 1;
        }
        proof {
            assert(self.nodes@.take(self.nodes@.len() as int) =~= self.nodes@);
        }
        cnt
    }

    /// The nodes hosting a container for `fnid`, in increasing id order.
    pub fn fn_nodes(&self, fnid: FnId) -> (r: Vec<NodeId>)
        ensures
            forall|t: int|
                0 <= t < r@.len() ==> (#[trigger] r@[t] as int) < self.nodes@.len()
                    && self.nodes@[r@[t] as int].spec_has_container(fnid),
            forall|n: int|
                0 <= n < self.nodes@.len() && (#[trigger] self.nodes@[n]).spec_has_container(fnid)
                    ==> r@.contains(n as usize),
            forall|t1: int, t2: int| 0 <= t1 < t2 < r@.len() ==> r@[t1] < r@[t2],
            r@.len() == self.spec_fn_container_cnt(fnid),
    {
        let mut r: Vec<NodeId> = Vec::new();
        let mut i: usize = 0;
        while i < self.nodes.len()
            invariant
                i <= self.nodes@.len(),
                forall|t: int|
                    0 <= t < r@.len() ==> (#[trigger] r@[t] as int) < i
                        && self.nodes@[r@[t] as int].spec_has_container(fnid),
                forall|n: int|
                    0 <= n < i && (#[trigger] self.nodes@[n]).spec_has_container(fnid)
                        ==> r@.contains(n as usize),
                forall|t1: int, t2: int| 0 <= t1 < t2 < r@.len() ==> r@[t1] < r@[t2],
                r@.len() == count_hosting(self.nodes@.take(i as int), fnid),
            decreases self.nodes@.len() - i,
        {
            proof {
                assert(self.nodes@.take(i + 1).drop_last() =~= self.nodes@.take(i as int));
                assert(self.nodes@.take(i + 1).last() == self.nodes@[i as int]);
            }
            if self.nodes[i].container_index(fnid).is_some() {
                r.push(i);
            }
            i = i + 1;
        }
        proof {
            assert(self.nodes@.take(self.nodes@.len() as int) =~= self.nodes@);
        }
        r
    }
}

/// In a well-formed environment, a container holds at most `REQ_CAP`
/// tasks (their request ids are distinct and live), and a node at most
/// `IDX_MAX` containers (their function ids are distinct and valid).
pub proof fn lemma_task_counts(env: SimEnv, i: int, j: int)
    requires
        env.wf(),
        0 <= i < env.nodes@.len(),
        0 <= j < env.nodes@[i].fn_containers@.len(),
    ensures
        env.nodes@[i].fn_containers@[j].req_fn_state@.len() <= REQ_CAP,
        env.nodes@[i].fn_containers@.len() <= IDX_MAX,
{
    let c = env.nodes@[i].fn_containers@[j];
    let rids = c.req_fn_state@.map_values(|t: (ReqId, FnRunningState)| t.0 as int);
    assert(env.nodes@[i].wf(i, env.fns@, env.nodes@.len() as nat));
    assert forall|k: int| 0 <= k < rids.len() implies 0 <= #[trigger] rids[k]
        < env.requests@.len() by {
        assert(env.valid_task_idx(i, j, k));
        assert(env.task_linked(i, j, k));
    }
    lemma_distinct_bounded(rids, env.requests@.len() as int);
    let fids = env.nodes@[i].fn_containers@.map_values(|c2: FnContainer| c2.fn_id as int);
    assert forall|k: int| 0 <= k < fids.len() implies 0 <= #[trigger] fids[k]
        < env.fns@.len() by {
        assert(env.nodes@[i].fn_containers@[k].wf(env.fns@, env.nodes@.len() as nat));
    }
    lemma_distinct_bounded(fids, env.fns@.len() as int);
}

/// What a scheduling pass may do: it binds tasks and touches nothing
/// else. Templates, topology, commands, the sinks and the clock are
/// untouched; no request appears, disappears, or loses a done mark or an
/// existing binding.
pub open spec fn sched_effect_only(pre: SimEnv, post: SimEnv) -> bool {
    &&& post.fns@ == pre.fns@
    &&& post.dags@ == pre.dags@
    &&& post.node_speeds@ == pre.node_speeds@
    &&& post.scale_cmds@ == pre.scale_cmds@
    &&& post.done_requests@ == pre.done_requests@
    &&& post.current_frame == pre.current_frame
    &&& post.env_id@ == pre.env_id@
    &&& post.nodes@.len() == pre.nodes@.len()
    &&& forall|i: int|
        0 <= i < pre.nodes@.len() ==> {
            let on = #[trigger] pre.nodes@[i];
            let nn = post.nodes@[i];
            &&& nn.node_id == on.node_id
            &&& nn.rsc_limit == on.rsc_limit
            &&& nn.cpu == on.cpu
            &&& nn.mem == on.mem
            &&& nn.frame_run_count == on.frame_run_count
            &&& nn.fn_containers@.len() == on.fn_containers@.len()
            &&& forall|j: int|
                0 <= j < on.fn_containers@.len() ==> {
                    let oc = #[trigger] on.fn_containers@[j];
                    let nc = nn.fn_containers@[j];
                    &&& nc.fn_id == oc.fn_id
                    &&& nc.state == oc.state
                    &&& nc.this_frame_used == oc.this_frame_used
                    &&& nc.cpu_alloced == oc.cpu_alloced
                    &&& nc.cpu_used == oc.cpu_used
                    &&& oc.req_fn_state@.len() <= nc.req_fn_state@.len()
                    &&& nc.req_fn_state@.take(oc.req_fn_state@.len() as int) == oc.req_fn_state@
                }
        }
    &&& post.requests@.len() == pre.requests@.len()
    &&& forall|r: int|
        0 <= r < pre.requests@.len() ==> ((#[trigger] post.requests@[r]) is Some <==> pre.requests@[r] is Some)
    &&& forall|r: int|
        0 <= r < pre.requests@.len() && (#[trigger] pre.requests@[r]) is Some
            ==> post.requests@[r]->0.done_fns@ == pre.requests@[r]->0.done_fns@
                && post.requests@[r]->0.fn_node@.len() == pre.requests@[r]->0.fn_node@.len()
                && post.requests@[r]->0.req_id == pre.requests@[r]->0.req_id
                && post.requests@[r]->0.dag_i == pre.requests@[r]->0.dag_i
    &&& forall|r: int, f: int|
        0 <= r < pre.requests@.len() && (#[trigger] pre.requests@[r]) is Some
            && pre.requests@[r]->0.spec_bound(f) ==> #[trigger] post.requests@[r]->0.fn_node@[f]
            == pre.requests@[r]->0.fn_node@[f]
}

/// `sched_effect_only` composes across consecutive passes.
pub proof fn lemma_sched_effect_trans(a: SimEnv, b: SimEnv, c: SimEnv)
    requires
        sched_effect_only(a, b),
        sched_effect_only(b, c),
    ensures
        sched_effect_only(a, c),
{
    assert forall|r: int, f: int|
        0 <= r < a.requests@.len() && (#[trigger] a.requests@[r]) is Some
            && a.requests@[r]->0.spec_bound(f) implies #[trigger] c.requests@[r]->0.fn_node@[f]
        == a.requests@[r]->0.fn_node@[f] by {
        assert(b.requests@[r] is Some);
        assert(b.requests@[r]->0.fn_node@[f] == a.requests@[r]->0.fn_node@[f]);
        assert(b.requests@[r]->0.spec_bound(f));
    }
    assert forall|i: int|
        0 <= i < a.nodes@.len() implies {
        let on = #[trigger] a.nodes@[i];
        let nn = c.nodes@[i];
        &&& nn.node_id == on.node_id
        &&& nn.rsc_limit == on.rsc_limit
        &&& nn.cpu == on.cpu
        &&& nn.mem == on.mem
        &&& nn.frame_run_count == on.frame_run_count
        &&& nn.fn_containers@.len() == on.fn_containers@.len()
        &&& forall|j: int|
            0 <= j < on.fn_containers@.len() ==> {
                let oc = #[trigger] on.fn_containers@[j];
                let nc = nn.fn_containers@[j];
                &&& nc.fn_id == oc.fn_id
                &&& nc.state == oc.state
                &&& nc.this_frame_used == oc.this_frame_used
                &&& nc.cpu_alloced == oc.cpu_alloced
                &&& nc.cpu_used == oc.cpu_used
                &&& oc.req_fn_state@.len() <= nc.req_fn_state@.len()
                &&& nc.req_fn_state@.take(oc.req_fn_state@.len() as int) == oc.req_fn_state@
            }
    } by {
        assert forall|j: int|
            0 <= j < a.nodes@[i].fn_containers@.len() implies {
            let oc = #[trigger] a.nodes@[i].fn_containers@[j];
            let nc = c.nodes@[i].fn_containers@[j];
            &&& nc.fn_id == oc.fn_id
            &&& nc.state == oc.state
            &&& nc.this_frame_used == oc.this_frame_used
            &&& nc.cpu_alloced == oc.cpu_alloced
            &&& nc.cpu_used == oc.cpu_used
            &&& oc.req_fn_state@.len() <= nc.req_fn_state@.len()
            &&& nc.req_fn_state@.take(oc.req_fn_state@.len() as int) == oc.req_fn_state@
        } by {
            let ot = a.nodes@[i].fn_containers@[j].req_fn_state@;
            let mt = b.nodes@[i].fn_containers@[j].req_fn_state@;
            let nt = c.nodes@[i].fn_containers@[j].req_fn_state@;
            assert(mt.take(ot.len() as int) == ot);
            assert(nt.take(mt.len() as int) == mt);
            assert(nt.take(ot.len() as int) =~= nt.take(mt.len() as int).take(ot.len() as int));
        }
    }
}

/// A scheduling pass never changes which nodes host a container for a
/// function.
pub proof fn lemma_hosting_preserved(pre: SimEnv, post: SimEnv, nd: int, f: FnId)
    requires
        sched_effect_only(pre, post),
        0 <= nd < pre.nodes@.len(),
    ensures
        post.nodes@[nd].spec_has_container(f) == pre.nodes@[nd].spec_has_container(f),
{
    if pre.nodes@[nd].spec_has_container(f) {
        let j = choose|j: int|
            0 <= j < pre.nodes@[nd].fn_containers@.len() && (#[trigger] pre.nodes@[nd].fn_containers@[j]).fn_id
                == f;
        assert(post.nodes@[nd].fn_containers@[j].fn_id == f);
    }
    if post.nodes@[nd].spec_has_container(f) {
        let j = choose|j: int|
            0 <= j < post.nodes@[nd].fn_containers@.len() && (#[trigger] post.nodes@[nd].fn_containers@[j]).fn_id
                == f;
        assert(pre.nodes@[nd].fn_containers@[j].fn_id == f);
    }
}

/// How many of the given nodes host a container for `fnid`.
pub open spec fn count_hosting(nodes: Seq<Node>, fnid: FnId) -> int
    decreases nodes.len(),
{
    if nodes.len() == 0 {
        0
    } else {
        count_hosting(nodes.drop_last(), fnid) + if nodes.last().spec_has_container(fnid) {
            1int
        } else {
            0int
        }
    }
}

/// Law: the memory invariant. In a well-formed environment the memory
/// reserved on every node never exceeds that node's memory limit.
pub proof fn lemma_memory_invariant(env: SimEnv)
    requires
        env.wf(),
    ensures
        forall|i: int|
            0 <= i < env.nodes@.len() ==> (#[trigger] env.nodes@[i]).mem
                <= env.nodes@[i].rsc_limit.mem,
{
}

/// Law: DAG ordering. In a well-formed environment a function is bound to
/// a node for a request only if every DAG parent of that function is
/// already marked done for that same request.
pub proof fn lemma_dag_ordering(env: SimEnv, r: int, f: int, k: int)
    requires
        env.wf(),
        0 <= r < env.requests@.len(),
        env.requests@[r] is Some,
        0 <= f < env.fns@.len(),
        env.requests@[r]->0.spec_bound(f),
        0 <= k < env.fns@[f].parent_fns@.len(),
    ensures
        env.requests@[r]->0.spec_done(env.fns@[f].parent_fns@[k] as int),
{
    assert(env.requests@[r]->0.wf(r, env.dags@, env.fns@, env.nodes@.len() as nat));
}

} // verus!
