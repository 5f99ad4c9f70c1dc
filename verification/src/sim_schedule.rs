//! Node placement: bind each schedulable task of a request to the hosting
//! node with the lowest predicted execution time, and record the incoming
//! data the task will need from its DAG parents' nodes.

use vstd::prelude::*;
use crate::env::SimEnv;
use crate::model::{
    DataRecv, FnId, FnRunningState, Func, NodeId, ReqId, Request, IDX_MAX, PAYLOAD_MAX, RES_MAX,
};
use crate::schedule::{
    collect_task_to_sche, spec_collectable, spec_parents_all_done, spec_parents_all_sched,
    CollectTaskConfig,
};

verus! {

broadcast use vstd::seq_lib::group_seq_properties;

/// A scheduling strategy: one pass per frame.
pub trait Scheduler {
    /// Bind whatever tasks this strategy decides to bind this frame.
    fn schedule_some(&mut self, env: &mut SimEnv)
        requires
            old(env).wf(),
        ensures
            final(env).wf(),
    ;
}

/// The workflow-aware strategy: walk every request's DAG and bind each
/// ready task to the node with the lowest predicted execution time.
pub struct FaasFlowScheduler {
}

impl FaasFlowScheduler {
    pub fn new() -> (r: Self) {
        FaasFlowScheduler { }
    }
}

impl Scheduler for FaasFlowScheduler {
    fn schedule_some(&mut self, env: &mut SimEnv) {
        env.try_put_fn();
    }
}

/// The scheduling strategies the environment can be driven by.
pub enum SchedulerImpl {
    FaasFlowScheduler(FaasFlowScheduler),
}

impl SchedulerImpl {
    /// The inner strategy, when this is the workflow-aware one.
    pub fn as_faas_flow_scheduler(&self) -> (r: Option<&FaasFlowScheduler>)
        ensures
            r is Some,
    {
        match self {
            SchedulerImpl::FaasFlowScheduler(s) => Some(s),
        }
    }
}

/// Summed parent payload available at node `s`.
pub open spec fn payload_at(
    fns: Seq<Func>,
    fn_node: Seq<Option<NodeId>>,
    parents: Seq<FnId>,
    s: int,
) -> int
    decreases parents.len(),
{
    if parents.len() == 0 {
        0
    } else {
        payload_at(fns, fn_node, parents.drop_last(), s) + if fn_node[parents.last() as int]
            == Some(s as usize) {
            fns[parents.last() as int].out_put_size as int
        } else {
            0
        }
    }
}

/// Whether some parent is bound to node `s`.
pub open spec fn has_parent_at(fn_node: Seq<Option<NodeId>>, parents: Seq<FnId>, s: int) -> bool
    decreases parents.len(),
{
    if parents.len() == 0 {
        false
    } else {
        has_parent_at(fn_node, parents.drop_last(), s) || fn_node[parents.last() as int] == Some(
            s as usize,
        )
    }
}

/// Summed parent payload that must cross the network to reach node `n`.
pub open spec fn remote_payload(
    fns: Seq<Func>,
    fn_node: Seq<Option<NodeId>>,
    parents: Seq<FnId>,
    n: int,
) -> int
    decreases parents.len(),
{
    if parents.len() == 0 {
        0
    } else {
        remote_payload(fns, fn_node, parents.drop_last(), n) + if fn_node[parents.last() as int]
            == Some(n as usize) {
            0
        } else {
            fns[parents.last() as int].out_put_size as int
        }
    }
}

pub proof fn lemma_payload_at_bound(
    fns: Seq<Func>,
    fn_node: Seq<Option<NodeId>>,
    parents: Seq<FnId>,
    s: int,
)
    requires
        forall|k: int|
            0 <= k < parents.len() ==> (#[trigger] parents[k] as int) < fns.len()
                && fns[parents[k] as int].out_put_size <= RES_MAX,
    ensures
        0 <= payload_at(fns, fn_node, parents, s) <= parents.len() * RES_MAX,
    decreases parents.len(),
{
    if parents.len() > 0 {
        lemma_payload_at_bound(fns, fn_node, parents.drop_last(), s);
    }
}

/// Where no parent is bound to `s`, the payload from `s` is zero.
pub proof fn lemma_no_parent_payload_zero(
    fns: Seq<Func>,
    fn_node: Seq<Option<NodeId>>,
    parents: Seq<FnId>,
    s: int,
)
    requires
        !has_parent_at(fn_node, parents, s),
    ensures
        payload_at(fns, fn_node, parents, s) == 0,
    decreases parents.len(),
{
    if parents.len() > 0 {
        lemma_no_parent_payload_zero(fns, fn_node, parents.drop_last(), s);
    }
}

pub proof fn lemma_remote_payload_bound(
    fns: Seq<Func>,
    fn_node: Seq<Option<NodeId>>,
    parents: Seq<FnId>,
    n: int,
)
    requires
        forall|k: int|
            0 <= k < parents.len() ==> (#[trigger] parents[k] as int) < fns.len()
                && fns[parents[k] as int].out_put_size <= RES_MAX,
    ensures
        0 <= remote_payload(fns, fn_node, parents, n) <= parents.len() * RES_MAX,
    decreases parents.len(),
{
    if parents.len() > 0 {
        lemma_remote_payload_bound(fns, fn_node, parents.drop_last(), n);
    }
}

/// Tasks already placed in the node's container for `fnid`, capped so the
/// cost formula stays in range.
pub open spec fn spec_queue_len(env: SimEnv, fnid: FnId, nodeid: int) -> int {
    if env.nodes@[nodeid].spec_has_container(fnid) {
        let j = choose|j: int|
            0 <= j < env.nodes@[nodeid].fn_containers@.len()
                && (#[trigger] env.nodes@[nodeid].fn_containers@[j]).fn_id == fnid;
        env.nodes@[nodeid].fn_containers@[j].req_fn_state@.len() as int
    } else {
        0
    }
}

/// The injected cost formula: predicted execution time of (request,
/// function, node), accounting for queuing on the hosting container and
/// for data locality to the parents' outputs.
pub open spec fn spec_pred_time(env: SimEnv, req: Request, fnid: FnId, nodeid: int) -> int {
    (if spec_queue_len(env, fnid, nodeid) > RES_MAX {
        RES_MAX as int
    } else {
        spec_queue_len(env, fnid, nodeid)
    }) + remote_payload(env.fns@, req.fn_node@, env.fns@[fnid as int].parent_fns@, nodeid)
}

impl SimEnv {
    /// Predicted execution time for (request, function, node): the number
    /// of tasks already queued on the node's container for the function,
    /// plus the bytes the task would have to pull from other nodes.
    pub fn algo_predict_fn_on_node_work_time(&self, req: &Request, fnid: FnId, nodeid: NodeId) -> (r:
        u64)
        requires
            self.wf(),
            (fnid as int) < self.fns@.len(),
            req.fn_node@.len() == self.fns@.len(),
            (nodeid as int) < self.nodes@.len(),
        ensures
            r == spec_pred_time(*self, *req, fnid, nodeid as int),
    {
        let node = &self.nodes[nodeid];
        let q: usize = match node.container_index(fnid) {
            Some(j) => {
                proof {
                    assert(node.wf(nodeid as int, self.fns@, self.nodes@.len() as nat));
                    let jj = choose|jj: int|
                        0 <= jj < node.fn_containers@.len()
                            && (#[trigger] node.fn_containers@[jj]).fn_id == fnid;
                    if jj < j as int {
                        assert(node.fn_containers@[jj].fn_id != node.fn_containers@[j as int].fn_id);
                    }
                    if (j as int) < jj {
                        assert(node.fn_containers@[j as int].fn_id != node.fn_containers@[jj].fn_id);
                    }
                    assert(jj == j as int);
                }
                node.fn_containers[j].req_fn_state.len()
            },
            None => 0,
        };
        let qc: u64 = if q as u64 > RES_MAX {
            RES_MAX
        } else {
            q as u64
        };
        let parents = &self.fns[fnid].parent_fns;
        let ghost pseq = self.fns@[fnid as int].parent_fns@;
        let mut remote: u64 = 0;
        let mut k: usize = 0;
        proof {
            assert(self.fns@[fnid as int].wf(self.fns@.len() as nat));
        }
        while k < parents.len()
            invariant
                self.wf(),
                (fnid as int) < self.fns@.len(),
                req.fn_node@.len() == self.fns@.len(),
                parents@ == pseq,
                pseq == self.fns@[fnid as int].parent_fns@,
                k <= pseq.len(),
                remote == remote_payload(self.fns@, req.fn_node@, pseq.take(k as int), nodeid as int),
                remote <= (k as int) * RES_MAX,
                k <= IDX_MAX,
            decreases pseq.len() - k,
        {
            proof {
                assert(self.fns@[fnid as int].wf(self.fns@.len() as nat));
                assert(pseq.take(k + 1).drop_last() =~= pseq.take(k as int));
                assert(pseq.take(k + 1).last() == pseq[k as int]);
            }
            let p = parents[k];
            match &req.fn_node[p] {
                Some(pn) => {
                    if *pn != nodeid {
                        remote = remote + self.fns[p].out_put_size;
                    }
                },
                None => {
                    remote = remote + self.fns[p].out_put_size;
                },
            }
            k = k + 1;
        }
        proof {
            assert(pseq.take(pseq.len() as int) =~= pseq);
        }
        qc + remote
    }

    /// The hosting node with the lowest predicted execution time for the
    /// task; among equals, the first found in the candidate order. Each
    /// binding of a scheduling pass goes to this node, evaluated at the
    /// moment of the binding.
    pub fn find_best_node(&self, req: &Request, fnid: FnId, cands: &Vec<NodeId>) -> (r: NodeId)
        requires
            self.wf(),
            (fnid as int) < self.fns@.len(),
            req.fn_node@.len() == self.fns@.len(),
            cands@.len() > 0,
            forall|t: int| 0 <= t < cands@.len() ==> (#[trigger] cands@[t] as int) < self.nodes@.len(),
        ensures
            cands@.contains(r),
            forall|t: int|
                0 <= t < cands@.len() ==> spec_pred_time(*self, *req, fnid, r as int)
                    <= spec_pred_time(*self, *req, fnid, #[trigger] cands@[t] as int),
            exists|bi: int|
                0 <= bi < cands@.len() && cands@[bi] == r && forall|t: int|
                    0 <= t < bi ==> spec_pred_time(*self, *req, fnid, #[trigger] cands@[t] as int)
                        > spec_pred_time(*self, *req, fnid, r as int),
    {
        let mut best: NodeId = cands[0];
        let mut best_time: u64 = self.algo_predict_fn_on_node_work_time(req, fnid, cands[0]);
        let ghost mut best_i: int = 0;
        let mut t: usize = 1;
        while t < cands.len()
            invariant
                self.wf(),
                (fnid as int) < self.fns@.len(),
                req.fn_node@.len() == self.fns@.len(),
                cands@.len() > 0,
                forall|t2: int|
                    0 <= t2 < cands@.len() ==> (#[trigger] cands@[t2] as int) < self.nodes@.len(),
                1 <= t <= cands@.len(),
                0 <= best_i < t,
                cands@[best_i] == best,
                best_time == spec_pred_time(*self, *req, fnid, best as int),
                forall|t2: int|
                    0 <= t2 < t ==> best_time <= spec_pred_time(
                        *self,
                        *req,
                        fnid,
                        #[trigger] cands@[t2] as int,
                    ),
                forall|t2: int|
                    0 <= t2 < best_i ==> spec_pred_time(*self, *req, fnid, #[trigger] cands@[t2] as int)
                        > best_time,
            decreases cands@.len() - t,
        {
            let time = self.algo_predict_fn_on_node_work_time(req, fnid, cands[t]);
            if time < best_time {
                best = cands[t];
                best_time = time;
                proof {
                    best_i = t as int;
                }
            }
            t = t + 1;
        }
        best
    }

    /// Build the fresh running state for binding (request, function) to
    /// `nodeid`: full compute demand ahead, and one incoming-data record
    /// per source node that hosts at least one DAG parent, requiring that
    /// parent's full payload with nothing received yet.
    fn make_running_state(&self, req: &Request, fnid: FnId) -> (r: FnRunningState)
        requires
            self.wf(),
            (fnid as int) < self.fns@.len(),
            req.fn_node@.len() == self.fns@.len(),
        ensures
            r.left_calc == self.fns@[fnid as int].calc,
            r.data_recv@.len() == self.nodes@.len(),
            forall|s: int|
                0 <= s < self.nodes@.len() ==> (#[trigger] r.data_recv@[s]) == (if has_parent_at(
                    req.fn_node@,
                    self.fns@[fnid as int].parent_fns@,
                    s,
                ) {
                    Some(
                        DataRecv {
                            required: payload_at(
                                self.fns@,
                                req.fn_node@,
                                self.fns@[fnid as int].parent_fns@,
                                s,
                            ) as u64,
                            received: 0,
                        },
                    )
                } else {
                    Option::<DataRecv>::None
                }),
            r.wf(self.nodes@.len() as nat),
    {
        let n_nodes = self.nodes.len();
        let mut data_recv: Vec<Option<DataRecv>> = Vec::new();
        let mut s: usize = 0;
        while s < n_nodes
            invariant
                n_nodes == self.nodes@.len(),
                s <= n_nodes,
                data_recv@.len() == s,
                forall|s2: int| 0 <= s2 < s ==> (#[trigger] data_recv@[s2]) is None,
            decreases n_nodes - s,
        {
            data_recv.push(None);
            s = s + 1;
        }
        let parents = &self.fns[fnid].parent_fns;
        let ghost pseq = self.fns@[fnid as int].parent_fns@;
        proof {
            assert(self.fns@[fnid as int].wf(self.fns@.len() as nat));
            assert(pseq.take(0) =~= Seq::<FnId>::empty());
        }
        let mut k: usize = 0;
        while k < parents.len()
            invariant
                self.wf(),
                (fnid as int) < self.fns@.len(),
                req.fn_node@.len() == self.fns@.len(),
                parents@ == pseq,
                pseq == self.fns@[fnid as int].parent_fns@,
                k <= pseq.len(),
                pseq.len() <= IDX_MAX,
                n_nodes == self.nodes@.len(),
                data_recv@.len() == self.nodes@.len(),
                forall|s2: int|
                    0 <= s2 < self.nodes@.len() ==> (#[trigger] data_recv@[s2]) == (if has_parent_at(
                        req.fn_node@,
                        pseq.take(k as int),
                        s2,
                    ) {
                        Some(
                            DataRecv {
                                required: payload_at(
                                    self.fns@,
                                    req.fn_node@,
                                    pseq.take(k as int),
                                    s2,
                                ) as u64,
                                received: 0,
                            },
                        )
                    } else {
                        Option::<DataRecv>::None
                    }),
            decreases pseq.len() - k,
        {
            proof {
                assert(self.fns@[fnid as int].wf(self.fns@.len() as nat));
                assert(pseq.take(k + 1).drop_last() =~= pseq.take(k as int));
                assert(pseq.take(k + 1).last() == pseq[k as int]);
            }
            let p = parents[k];
            match &req.fn_node[p] {
                Some(pn) => {
                    let pn = *pn;
                    if pn < n_nodes {
                        let old_req: u64 = match &data_recv[pn] {
                            Some(e) => e.required,
                            None => 0,
                        };
                        proof {
                            lemma_payload_at_bound(
                                self.fns@,
                                req.fn_node@,
                                pseq.take(k as int),
                                pn as int,
                            );
                            assert((k as int) * RES_MAX <= (IDX_MAX as int) * RES_MAX) by (nonlinear_arith)
                                requires
                                    0 <= k <= IDX_MAX,
                            ;
                            if !has_parent_at(req.fn_node@, pseq.take(k as int), pn as int) {
                                lemma_no_parent_payload_zero(
                                    self.fns@,
                                    req.fn_node@,
                                    pseq.take(k as int),
                                    pn as int,
                                );
                            }
                        }
                        let new_req = old_req + self.fns[p].out_put_size;
                        data_recv.set(pn, Some(DataRecv { required: new_req, received: 0 }));
                    }
                },
                None => {},
            }
            k = k + 1;
        }
        proof {
            assert(pseq.take(pseq.len() as int) =~= pseq);
            assert(self.fns@[fnid as int].wf(self.fns@.len() as nat));
            assert forall|s2: int|
                0 <= s2 < self.nodes@.len() && (#[trigger] data_recv@[s2]) is Some implies data_recv@[s2]->0.wf() by {
                lemma_payload_at_bound(self.fns@, req.fn_node@, pseq, s2);
                assert(pseq.len() * RES_MAX <= (IDX_MAX as int) * RES_MAX) by (nonlinear_arith)
                    requires
                        0 <= pseq.len() <= IDX_MAX,
                ;
            }
        }
        FnRunningState { left_calc: self.func(fnid).calc, data_recv }
    }

    /// Bind (request, function) to `nodeid`: append a fresh running state
    /// to the node's container for the function and record the node in the
    /// request. Requires that every DAG parent of the function is already
    /// done for this request, so binding keeps the DAG-ordering invariant.
    pub fn schedule_reqfn_on_node(&mut self, req_id: ReqId, fnid: FnId, nodeid: NodeId)
        requires
            old(self).wf(),
            (req_id as int) < old(self).requests@.len(),
            old(self).requests@[req_id as int] is Some,
            (fnid as int) < old(self).fns@.len(),
            !old(self).requests@[req_id as int]->0.spec_bound(fnid as int),
            old(self).dags@[old(self).requests@[req_id as int]->0.dag_i as int].spec_contains(fnid),
            spec_parents_all_done(*old(self), old(self).requests@[req_id as int]->0, fnid),
            (nodeid as int) < old(self).nodes@.len(),
            old(self).nodes@[nodeid as int].spec_has_container(fnid),
        ensures
            final(self).wf(),
            crate::env::sched_effect_only(*old(self), *final(self)),
            final(self).requests@[req_id as int] is Some,
            final(self).requests@[req_id as int]->0.fn_node@ == old(
                self,
            ).requests@[req_id as int]->0.fn_node@.update(fnid as int, Some(nodeid)),
            forall|r2: int|
                0 <= r2 < old(self).requests@.len() && r2 != req_id
                    ==> final(self).requests@[r2] == old(self).requests@[r2],
            forall|i: int|
                0 <= i < old(self).nodes@.len() && i != nodeid ==> final(self).nodes@[i] == old(
                    self,
                ).nodes@[i],
            bound_task_placed(*old(self), *final(self), req_id, fnid, nodeid),
    {
        let ghost pre = *self;
        // derive the fresh running state from the request's parents
        proof {
            assert(pre.requests@[req_id as int]->0.wf(
                req_id as int,
                pre.dags@,
                pre.fns@,
                pre.nodes@.len() as nat,
            ));
        }
        let new_state = {
            let req_ref: &Request = self.requests[req_id].as_ref().unwrap();
            self.make_running_state(req_ref, fnid)
        };
        // append the task to the node's container for the function
        let mut node = self.nodes.remove(nodeid);
        let j = match node.container_index(fnid) {
            Some(j) => j,
            None => {
                proof {
                    assert(false);
                }
                0
            },
        };
        let mut c = node.fn_containers.remove(j);
        proof {
            assert forall|k: int| 0 <= k < c.req_fn_state@.len() implies c.req_fn_state@[k].0
                != req_id by {
                assert(pre.valid_task_idx(nodeid as int, j as int, k));
                assert(pre.task_linked(nodeid as int, j as int, k));
            }
        }
        c.req_fn_state.push((req_id, new_state));
        node.fn_containers.insert(j, c);
        self.nodes.insert(nodeid, node);
        // record the binding in the request
        let mut slot: Option<Request> = None;
        self.requests.set_and_swap(req_id, &mut slot);
        let mut req = slot.unwrap();
        req.fn_node.set(fnid, Some(nodeid));
        self.requests.set(req_id, Some(req));

        proof {
            let post = *self;
            let oldreq = pre.requests@[req_id as int]->0;
            let on = pre.nodes@[nodeid as int];
            let nn = post.nodes@[nodeid as int];
            assert(post.nodes@ =~= pre.nodes@.update(nodeid as int, nn));
            assert(nn.fn_containers@ =~= on.fn_containers@.update(
                j as int,
                nn.fn_containers@[j as int],
            ));
            assert(post.requests@ =~= pre.requests@.update(req_id as int, Some(post.requests@[req_id as int]->0)));
            assert(post.requests@[req_id as int]->0.fn_node@ =~= oldreq.fn_node@.update(
                fnid as int,
                Some(nodeid),
            ));
            crate::model::lemma_containers_mem_congruence(
                on.fn_containers@,
                nn.fn_containers@,
                pre.fns@,
            );
            // the new container list stays well-formed and per-function unique
            assert(nn.wf(nodeid as int, post.fns@, post.nodes@.len() as nat));
            assert forall|i: int|
                0 <= i < post.nodes@.len() implies (#[trigger] post.nodes@[i]).wf(
                i,
                post.fns@,
                post.nodes@.len() as nat,
            ) by {
                if i != nodeid as int {
                    assert(pre.nodes@[i].wf(i, pre.fns@, pre.nodes@.len() as nat));
                }
            }
            // the bound request stays well-formed
            assert(post.requests@[req_id as int]->0.wf(
                req_id as int,
                post.dags@,
                post.fns@,
                post.nodes@.len() as nat,
            ));
            assert forall|r2: int|
                0 <= r2 < post.requests@.len() && (#[trigger] post.requests@[r2]) is Some implies post.requests@[r2]->0.wf(
                r2,
                post.dags@,
                post.fns@,
                post.nodes@.len() as nat,
            ) by {
                if r2 != req_id as int {
                    assert(pre.requests@[r2]->0.wf(r2, pre.dags@, pre.fns@, pre.nodes@.len() as nat));
                }
            }
            // every task stays linked to its request
            assert forall|i: int, j2: int, k: int|
                post.valid_task_idx(i, j2, k) implies #[trigger] post.task_linked(i, j2, k) by {
                let c2 = post.nodes@[i].fn_containers@[j2];
                if i == nodeid as int && j2 == j as int && k == on.fn_containers@[j as int].req_fn_state@.len() {
                    assert(post.task_linked(i, j2, k));
                } else {
                    assert(pre.valid_task_idx(i, j2, k));
                    assert(pre.task_linked(i, j2, k));
                    let t = pre.nodes@[i].fn_containers@[j2].req_fn_state@[k];
                    if t.0 == req_id {
                        assert(pre.nodes@[i].fn_containers@[j2].fn_id != fnid);
                    }
                    assert(post.task_linked(i, j2, k));
                }
            }
            assert(post.wf());
            assert forall|i: int|
                0 <= i < pre.nodes@.len() implies {
                let on2 = #[trigger] pre.nodes@[i];
                let nn2 = post.nodes@[i];
                &&& nn2.node_id == on2.node_id
                &&& nn2.rsc_limit == on2.rsc_limit
                &&& nn2.cpu == on2.cpu
                &&& nn2.mem == on2.mem
                &&& nn2.frame_run_count == on2.frame_run_count
                &&& nn2.fn_containers@.len() == on2.fn_containers@.len()
                &&& forall|j2: int|
                    0 <= j2 < on2.fn_containers@.len() ==> {
                        let oc = #[trigger] on2.fn_containers@[j2];
                        let nc = nn2.fn_containers@[j2];
                        &&& nc.fn_id == oc.fn_id
                        &&& nc.state == oc.state
                        &&& nc.this_frame_used == oc.this_frame_used
                        &&& nc.cpu_alloced == oc.cpu_alloced
                        &&& nc.cpu_used == oc.cpu_used
                        &&& oc.req_fn_state@.len() <= nc.req_fn_state@.len()
                        &&& nc.req_fn_state@.take(oc.req_fn_state@.len() as int)
                            == oc.req_fn_state@
                    }
            } by {
                if i == nodeid as int {
                    assert forall|j2: int|
                        0 <= j2 < pre.nodes@[i].fn_containers@.len() implies (
                    #[trigger] post.nodes@[i].fn_containers@[j2]).req_fn_state@.take(
                        pre.nodes@[i].fn_containers@[j2].req_fn_state@.len() as int,
                    ) == pre.nodes@[i].fn_containers@[j2].req_fn_state@ by {
                        if j2 == j as int {
                            assert(post.nodes@[i].fn_containers@[j2].req_fn_state@.take(
                                pre.nodes@[i].fn_containers@[j2].req_fn_state@.len() as int,
                            ) =~= pre.nodes@[i].fn_containers@[j2].req_fn_state@);
                        } else {
                            assert(post.nodes@[i].fn_containers@[j2].req_fn_state@.take(
                                pre.nodes@[i].fn_containers@[j2].req_fn_state@.len() as int,
                            ) =~= pre.nodes@[i].fn_containers@[j2].req_fn_state@);
                        }
                    }
                } else {
                    assert forall|j2: int|
                        0 <= j2 < pre.nodes@[i].fn_containers@.len() implies (
                    #[trigger] post.nodes@[i].fn_containers@[j2]).req_fn_state@.take(
                        pre.nodes@[i].fn_containers@[j2].req_fn_state@.len() as int,
                    ) == pre.nodes@[i].fn_containers@[j2].req_fn_state@ by {
                        assert(post.nodes@[i] == pre.nodes@[i]);
                        assert(post.nodes@[i].fn_containers@[j2].req_fn_state@.take(
                            pre.nodes@[i].fn_containers@[j2].req_fn_state@.len() as int,
                        ) =~= pre.nodes@[i].fn_containers@[j2].req_fn_state@);
                    }
                }
            }
        }
    }

    /// Collect the request's newly-eligible tasks in DAG order and bind
    /// each one that some node currently hosts a container for; a task
    /// with no hosting node is left for a later frame.
    #[verifier::rlimit(100)]
    #[verifier::spinoff_prover]
    pub fn schedule_one_req_fns(&mut self, req_id: ReqId)
        requires
            old(self).wf(),
            (req_id as int) < old(self).requests@.len(),
            old(self).requests@[req_id as int] is Some,
        ensures
            final(self).wf(),
            crate::env::sched_effect_only(*old(self), *final(self)),
            forall|r2: int|
                0 <= r2 < old(self).requests@.len() && r2 != req_id
                    ==> final(self).requests@[r2] == old(self).requests@[r2],
            // every function of the request's DAG that was unbound with all
            // parents done and hosted somewhere is bound afterwards
            forall|f: int|
                0 <= f < old(self).fns@.len() && old(self).dags@[old(
                    self,
                ).requests@[req_id as int]->0.dag_i as int].spec_contains(f as FnId) && !old(
                    self,
                ).requests@[req_id as int]->0.spec_bound(f) && spec_parents_all_done(
                    *old(self),
                    old(self).requests@[req_id as int]->0,
                    f as FnId,
                ) && (exists|nd: int|
                    0 <= nd < old(self).nodes@.len() && (#[trigger] old(
                        self,
                    ).nodes@[nd]).spec_has_container(f as FnId))
                    ==> #[trigger] final(self).requests@[req_id as int]->0.spec_bound(f),
            // a function no node hosts is left unbound, to be retried a
            // later frame
            forall|f: int|
                0 <= f < old(self).fns@.len() && !old(self).requests@[req_id as int]->0.spec_bound(
                    f,
                ) && (forall|nd: int|
                    0 <= nd < old(self).nodes@.len() ==> !(#[trigger] old(
                        self,
                    ).nodes@[nd]).spec_has_container(f as FnId))
                    ==> !(#[trigger] final(self).requests@[req_id as int]->0.spec_bound(f)),
            // the pass is a chain of bindings, each to the hosting node
            // minimizing the predicted execution time at its moment
            exists|fs: Seq<FnId>|
                #![trigger bound_chain(*old(self), *final(self), req_id, fs)]
                bound_chain(*old(self), *final(self), req_id, fs),
    {
        let ghost pre = *self;
        proof {
            assert(pre.requests@[req_id as int]->0.wf(
                req_id as int,
                pre.dags@,
                pre.fns@,
                pre.nodes@.len() as nat,
            ));
        }
        let schedule_able_fns = {
            let req_ref: &Request = self.requests[req_id].as_ref().unwrap();
            collect_task_to_sche(req_ref, self, CollectTaskConfig::PreAllDone)
        };
        let ghost sfns = schedule_able_fns@;
        let ghost oldreq = pre.requests@[req_id as int]->0;
        let ghost mut chain_fs: Seq<FnId> = Seq::empty();
        proof {
            assert forall|i: int, j: int|
                0 <= i < pre.nodes@.len() && 0 <= j < pre.nodes@[i].fn_containers@.len() implies (
            #[trigger] pre.nodes@[i].fn_containers@[j]).req_fn_state@.take(
                pre.nodes@[i].fn_containers@[j].req_fn_state@.len() as int,
            ) == pre.nodes@[i].fn_containers@[j].req_fn_state@ by {
                assert(pre.nodes@[i].fn_containers@[j].req_fn_state@.take(
                    pre.nodes@[i].fn_containers@[j].req_fn_state@.len() as int,
                ) =~= pre.nodes@[i].fn_containers@[j].req_fn_state@);
            }
            assert(crate::env::sched_effect_only(pre, *self));
        }
        let mut t: usize = 0;
        while t < schedule_able_fns.len()
            invariant
                self.wf(),
                crate::env::sched_effect_only(pre, *self),
                pre.wf(),
                (req_id as int) < pre.requests@.len(),
                pre.requests@[req_id as int] is Some,
                oldreq == pre.requests@[req_id as int]->0,
                schedule_able_fns@ == sfns,
                t <= sfns.len(),
                forall|t2: int|
                    0 <= t2 < sfns.len() ==> {
                        &&& (#[trigger] sfns[t2] as int) < pre.fns@.len()
                        &&& pre.dags@[oldreq.dag_i as int].fn_ids@.contains(sfns[t2])
                        &&& spec_collectable(pre, oldreq, CollectTaskConfig::PreAllDone, sfns[t2])
                    },
                forall|t1: int, t2: int| 0 <= t1 < t2 < sfns.len() ==> sfns[t1] != sfns[t2],
                forall|t2: int|
                    t <= t2 < sfns.len() ==> !self.requests@[req_id as int]->0.spec_bound(
                        #[trigger] sfns[t2] as int,
                    ),
                forall|r2: int|
                    0 <= r2 < pre.requests@.len() && r2 != req_id ==> #[trigger] self.requests@[r2]
                        == pre.requests@[r2],
                forall|i2: int|
                    0 <= i2 < pre.dags@[oldreq.dag_i as int].fn_ids@.len() && spec_collectable(
                        pre,
                        oldreq,
                        CollectTaskConfig::PreAllDone,
                        #[trigger] pre.dags@[oldreq.dag_i as int].fn_ids@[i2],
                    ) ==> sfns.contains(pre.dags@[oldreq.dag_i as int].fn_ids@[i2]),
                forall|t2: int|
                    0 <= t2 < t && (exists|nd: int|
                        0 <= nd < pre.nodes@.len() && (#[trigger] pre.nodes@[nd]).spec_has_container(
                            sfns[t2],
                        )) ==> #[trigger] self.requests@[req_id as int]->0.spec_bound(
                        sfns[t2] as int,
                    ),
                forall|f: int|
                    0 <= f < pre.fns@.len() && !oldreq.spec_bound(f) && (forall|nd: int|
                        0 <= nd < pre.nodes@.len() ==> !(#[trigger] pre.nodes@[nd]).spec_has_container(
                            f as FnId,
                        )) ==> !(#[trigger] self.requests@[req_id as int]->0.spec_bound(f)),
                bound_chain(pre, *self, req_id, chain_fs),
            decreases sfns.len() - t,
        {
            let fnid = schedule_able_fns[t];
            let cand_nodes = self.fn_nodes(fnid);
            if cand_nodes.len() > 0 {
                let best = {
                    let req_ref: &Request = self.requests[req_id].as_ref().unwrap();
                    proof {
                        assert(self.requests@[req_id as int]->0.wf(
                            req_id as int,
                            self.dags@,
                            self.fns@,
                            self.nodes@.len() as nat,
                        ));
                    }
                    self.find_best_node(req_ref, fnid, &cand_nodes)
                };
                let ghost mid = *self;
                proof {
                    let bi = choose|bi: int|
                        0 <= bi < cand_nodes@.len() && cand_nodes@[bi] == best;
                    assert(mid.nodes@[best as int].spec_has_container(fnid));
                    // the DAG parents are still done: the pass never clears a done mark
                    assert(mid.requests@[req_id as int]->0.done_fns@ == oldreq.done_fns@);
                    assert forall|k: int|
                        0 <= k < mid.fns@[fnid as int].parent_fns@.len() implies mid.requests@[req_id as int]->0.spec_done(
                        #[trigger] mid.fns@[fnid as int].parent_fns@[k] as int,
                    ) by {
                        assert(oldreq.spec_done(mid.fns@[fnid as int].parent_fns@[k] as int));
                    }
                    assert(mid.dags@[mid.requests@[req_id as int]->0.dag_i as int].spec_contains(
                        fnid,
                    ));
                }
                self.schedule_reqfn_on_node(req_id, fnid, best);
                proof {
                    crate::env::lemma_sched_effect_trans(pre, mid, *self);
                    // the binding is a `bound_step` at its moment: `best`
                    // minimizes the cost over the hosting nodes, ties to
                    // the lowest id (the candidates are ascending)
                    let bi = choose|bi: int|
                        0 <= bi < cand_nodes@.len() && cand_nodes@[bi] == best && (forall|t3: int|
                            0 <= t3 < bi ==> spec_pred_time(
                                mid,
                                mid.requests@[req_id as int]->0,
                                fnid,
                                #[trigger] cand_nodes@[t3] as int,
                            ) > spec_pred_time(
                                mid,
                                mid.requests@[req_id as int]->0,
                                fnid,
                                best as int,
                            ));
                    assert forall|n2: int|
                        0 <= n2 < mid.nodes@.len() && (#[trigger] mid.nodes@[n2]).spec_has_container(
                            fnid,
                        ) implies spec_pred_time(
                        mid,
                        mid.requests@[req_id as int]->0,
                        fnid,
                        best as int,
                    ) <= spec_pred_time(mid, mid.requests@[req_id as int]->0, fnid, n2) by {
                        assert(cand_nodes@.contains(n2 as usize));
                        let t2 = choose|t2: int|
                            0 <= t2 < cand_nodes@.len() && cand_nodes@[t2] == n2 as usize;
                        assert(spec_pred_time(mid, mid.requests@[req_id as int]->0, fnid, best as int)
                            <= spec_pred_time(
                            mid,
                            mid.requests@[req_id as int]->0,
                            fnid,
                            cand_nodes@[t2] as int,
                        ));
                    }
                    assert forall|n2: int|
                        0 <= n2 < best as int && (#[trigger] mid.nodes@[n2]).spec_has_container(
                            fnid,
                        ) implies spec_pred_time(mid, mid.requests@[req_id as int]->0, fnid, n2)
                        > spec_pred_time(
                        mid,
                        mid.requests@[req_id as int]->0,
                        fnid,
                        best as int,
                    ) by {
                        assert(cand_nodes@.contains(n2 as usize));
                        let t2 = choose|t2: int|
                            0 <= t2 < cand_nodes@.len() && cand_nodes@[t2] == n2 as usize;
                        if t2 > bi {
                            assert(cand_nodes@[bi] < cand_nodes@[t2]);
                        }
                        if t2 == bi {
                            assert(cand_nodes@[t2] == best);
                        }
                        assert(t2 < bi);
                    }
                    assert(bound_task_placed(mid, *self, req_id, fnid, best));
                    assert(bound_step(mid, *self, req_id, fnid));
                    assert(chain_fs.push(fnid).drop_last() =~= chain_fs);
                    assert(chain_fs.push(fnid).last() == fnid);
                    assert(bound_chain(pre, *self, req_id, chain_fs.push(fnid)));
                    chain_fs = chain_fs.push(fnid);
                    // later collected tasks stay unbound: the update touched only `fnid`
                    assert forall|t2: int|
                        t + 1 <= t2 < sfns.len() implies !self.requests@[req_id as int]->0.spec_bound(
                        #[trigger] sfns[t2] as int,
                    ) by {
                        assert(sfns[t2] != fnid);
                        assert(self.requests@[req_id as int]->0.fn_node@[sfns[t2] as int]
                            == mid.requests@[req_id as int]->0.fn_node@[sfns[t2] as int]);
                    }
                    // the function is now bound, and earlier bindings persist
                    assert(self.requests@[req_id as int]->0.spec_bound(fnid as int));
                    // the bound function is hosted in the pre state, so the
                    // unhosted functions are untouched
                    let nd0 = cand_nodes@[0];
                    assert((nd0 as int) < mid.nodes@.len() && mid.nodes@[nd0 as int].spec_has_container(
                        fnid,
                    ));
                    crate::env::lemma_hosting_preserved(pre, mid, nd0 as int, fnid);
                    assert(pre.nodes@[nd0 as int].spec_has_container(fnid));
                    assert forall|f: int|
                        0 <= f < pre.fns@.len() && !oldreq.spec_bound(f) && (forall|nd: int|
                            0 <= nd < pre.nodes@.len() ==> !(#[trigger] pre.nodes@[nd]).spec_has_container(
                                f as FnId,
                            )) implies !(#[trigger] self.requests@[req_id as int]->0.spec_bound(
                        f,
                    )) by {
                        if f == fnid as int {
                            assert((f as FnId) == fnid);
                            assert(!pre.nodes@[nd0 as int].spec_has_container(f as FnId));
                            assert(false);
                        }
                        assert(!mid.requests@[req_id as int]->0.spec_bound(f));
                        assert(self.requests@[req_id as int]->0.fn_node@[f]
                            == mid.requests@[req_id as int]->0.fn_node@[f]);
                    }
                    assert forall|t2: int|
                        0 <= t2 < t + 1 && (exists|nd: int|
                            0 <= nd < pre.nodes@.len() && (#[trigger] pre.nodes@[nd]).spec_has_container(
                                sfns[t2],
                            )) implies #[trigger] self.requests@[req_id as int]->0.spec_bound(
                        sfns[t2] as int,
                    ) by {
                        if t2 < t {
                            assert(mid.requests@[req_id as int]->0.spec_bound(sfns[t2] as int));
                            assert(self.requests@[req_id as int]->0.fn_node@[sfns[t2] as int]
                                == mid.requests@[req_id as int]->0.fn_node@[sfns[t2] as int]);
                        }
                    }
                }
            } else {
                proof {
                    // no node hosts the function, in the pre state either
                    assert forall|nd: int|
                        0 <= nd < pre.nodes@.len() implies !(
                    #[trigger] pre.nodes@[nd]).spec_has_container(sfns[t as int]) by {
                        crate::env::lemma_hosting_preserved(pre, *self, nd, sfns[t as int]);
                        if self.nodes@[nd].spec_has_container(sfns[t as int]) {
                            assert(cand_nodes@.contains(nd as usize));
                        }
                    }
                }
            }
            t = t + 1;
        }
        proof {
            assert(bound_chain(pre, *self, req_id, chain_fs));
            // every DAG function that was ready and hosted is now bound
            assert forall|f: int|
                0 <= f < pre.fns@.len() && pre.dags@[oldreq.dag_i as int].spec_contains(f as FnId)
                    && !oldreq.spec_bound(f) && spec_parents_all_done(pre, oldreq, f as FnId) && (
                exists|nd: int|
                    0 <= nd < pre.nodes@.len() && (#[trigger] pre.nodes@[nd]).spec_has_container(
                        f as FnId,
                    )) implies #[trigger] self.requests@[req_id as int]->0.spec_bound(f) by {
                let i2 = choose|i2: int|
                    0 <= i2 < pre.dags@[oldreq.dag_i as int].fn_ids@.len()
                        && pre.dags@[oldreq.dag_i as int].fn_ids@[i2] == f as FnId;
                assert(spec_collectable(pre, oldreq, CollectTaskConfig::PreAllDone, f as FnId));
                assert(sfns.contains(f as FnId));
                let t2 = choose|t2: int| 0 <= t2 < sfns.len() && sfns[t2] == f as FnId;
                assert(self.requests@[req_id as int]->0.spec_bound(sfns[t2] as int));
            }
        }
    }

    /// One scheduling pass: for every live request, bind the tasks that
    /// have become schedulable onto hosting nodes.
    pub fn try_put_fn(&mut self)
        requires
            old(self).wf(),
        ensures
            final(self).wf(),
            crate::env::sched_effect_only(*old(self), *final(self)),
            // every task of a live request that was unbound with all DAG
            // parents done and hosted by some node is bound afterwards
            forall|r: int, f: int|
                0 <= r < old(self).requests@.len() && old(self).requests@[r] is Some && 0 <= f
                    < old(self).fns@.len() && old(self).dags@[old(
                    self,
                ).requests@[r]->0.dag_i as int].spec_contains(f as FnId) && !old(
                    self,
                ).requests@[r]->0.spec_bound(f) && spec_parents_all_done(
                    *old(self),
                    old(self).requests@[r]->0,
                    f as FnId,
                ) && (exists|nd: int|
                    0 <= nd < old(self).nodes@.len() && (#[trigger] old(
                        self,
                    ).nodes@[nd]).spec_has_container(f as FnId))
                    ==> #[trigger] final(self).requests@[r]->0.spec_bound(f),
            // a function no node hosts is left unbound, for any request
            forall|r: int, f: int|
                0 <= r < old(self).requests@.len() && old(self).requests@[r] is Some && 0 <= f
                    < old(self).fns@.len() && !old(self).requests@[r]->0.spec_bound(f) && (forall|
                    nd: int,
                |
                    0 <= nd < old(self).nodes@.len() ==> !(#[trigger] old(
                        self,
                    ).nodes@[nd]).spec_has_container(f as FnId))
                    ==> !(#[trigger] final(self).requests@[r]->0.spec_bound(f)),
            // the pass visits every request slot once, in storage order,
            // each a chain of minimizing bindings
            reqs_pass_chain(*old(self), *final(self), old(self).requests@.len() as int),
    {
        let ghost pre = *self;
        let n = self.requests.len();
        let mut r: usize = 0;
        while r < n
            invariant
                self.wf(),
                crate::env::sched_effect_only(pre, *self),
                pre.wf(),
                n == pre.requests@.len(),
                n == self.requests@.len(),
                r <= n,
                forall|r2: int|
                    r <= r2 < pre.requests@.len() ==> #[trigger] self.requests@[r2]
                        == pre.requests@[r2],
                forall|r2: int, f: int|
                    0 <= r2 < r && pre.requests@[r2] is Some && 0 <= f < pre.fns@.len()
                        && pre.dags@[pre.requests@[r2]->0.dag_i as int].spec_contains(f as FnId)
                        && !pre.requests@[r2]->0.spec_bound(f) && spec_parents_all_done(
                        pre,
                        pre.requests@[r2]->0,
                        f as FnId,
                    ) && (exists|nd: int|
                        0 <= nd < pre.nodes@.len() && (#[trigger] pre.nodes@[nd]).spec_has_container(
                            f as FnId,
                        )) ==> #[trigger] self.requests@[r2]->0.spec_bound(f),
                forall|r2: int, f: int|
                    0 <= r2 < pre.requests@.len() && pre.requests@[r2] is Some && 0 <= f
                        < pre.fns@.len() && !pre.requests@[r2]->0.spec_bound(f) && (forall|nd: int|
                        0 <= nd < pre.nodes@.len() ==> !(#[trigger] pre.nodes@[nd]).spec_has_container(
                            f as FnId,
                        )) ==> !(#[trigger] self.requests@[r2]->0.spec_bound(f)),
                reqs_pass_chain(pre, *self, r as int),
            decreases n - r,
        {
            let r_live = self.requests[r].is_some();
            if r_live {
                let ghost mid = *self;
                self.schedule_one_req_fns(r);
                proof {
                    crate::env::lemma_sched_effect_trans(pre, mid, *self);
                    // the slot's effect is a binding chain; the pass chain
                    // grows by this slot
                    assert(one_req_effect(mid, *self, r));
                    assert((((r as int) + 1) - 1) as ReqId == r);
                    assert(one_req_effect(mid, *self, (((r as int) + 1) - 1) as ReqId));
                    assert(reqs_pass_chain(pre, *self, r + 1));
                    // unhosted functions of this request stay unbound
                    assert forall|f: int|
                        0 <= f < pre.fns@.len() && pre.requests@[r as int] is Some
                            && !pre.requests@[r as int]->0.spec_bound(f) && (forall|nd: int|
                            0 <= nd < pre.nodes@.len() ==> !(#[trigger] pre.nodes@[nd]).spec_has_container(
                                f as FnId,
                            )) implies !(#[trigger] self.requests@[r as int]->0.spec_bound(f)) by {
                        assert(mid.requests@[r as int] == pre.requests@[r as int]);
                        assert forall|nd: int|
                            0 <= nd < mid.nodes@.len() implies !(#[trigger] mid.nodes@[nd]).spec_has_container(
                            f as FnId,
                        ) by {
                            crate::env::lemma_hosting_preserved(pre, mid, nd, f as FnId);
                        }
                    }
                    // unbound unhosted functions of other requests persist
                    assert forall|r2: int, f: int|
                        0 <= r2 < pre.requests@.len() && r2 != r && pre.requests@[r2] is Some && 0
                            <= f < pre.fns@.len() && !(#[trigger] mid.requests@[r2]->0.spec_bound(
                            f,
                        )) implies !(#[trigger] self.requests@[r2]->0.spec_bound(f)) by {
                        assert(self.requests@[r2] == mid.requests@[r2]);
                    }
                    let post = *self;
                    assert forall|f: int|
                        0 <= f < pre.fns@.len() && pre.dags@[pre.requests@[r as int]->0.dag_i as int].spec_contains(
                            f as FnId,
                        ) && !pre.requests@[r as int]->0.spec_bound(f) && spec_parents_all_done(
                        pre,
                        pre.requests@[r as int]->0,
                        f as FnId,
                    ) && (exists|nd: int|
                        0 <= nd < pre.nodes@.len() && (#[trigger] pre.nodes@[nd]).spec_has_container(
                            f as FnId,
                        )) implies #[trigger] post.requests@[r as int]->0.spec_bound(f) by {
                        // the conditions hold unchanged at this request's turn
                        assert(mid.requests@[r as int] == pre.requests@[r as int]);
                        assert forall|k: int|
                            0 <= k < mid.fns@[f].parent_fns@.len() implies mid.requests@[r as int]->0.spec_done(
                            #[trigger] mid.fns@[f].parent_fns@[k] as int,
                        ) by {
                            assert(pre.requests@[r as int]->0.spec_done(
                                mid.fns@[f].parent_fns@[k] as int,
                            ));
                        }
                        let nd = choose|nd: int|
                            0 <= nd < pre.nodes@.len() && (#[trigger] pre.nodes@[nd]).spec_has_container(
                                f as FnId,
                            );
                        crate::env::lemma_hosting_preserved(pre, mid, nd, f as FnId);
                        assert(mid.nodes@[nd].spec_has_container(f as FnId));
                    }
                    // earlier requests keep their bindings
                    assert forall|r2: int, f: int|
                        0 <= r2 < r && #[trigger] mid.requests@[r2]->0.spec_bound(f)
                            && mid.requests@[r2] is Some implies post.requests@[r2]->0.spec_bound(
                        f,
                    ) by {
                        assert(post.requests@[r2]->0.fn_node@[f]
                            == mid.requests@[r2]->0.fn_node@[f]);
                    }
                }
            } else {
                proof {
                    assert(one_req_effect(*self, *self, r));
                    assert((((r as int) + 1) - 1) as ReqId == r);
                    assert(one_req_effect(*self, *self, (((r as int) + 1) - 1) as ReqId));
                    assert(reqs_pass_chain(pre, *self, r + 1));
                }
            }
            r = r + 1;
        }
    }
}

/// What one scheduling pass does, in full: only bindings are added
/// (`sched_effect_only`), and every task of a live request that was
/// unbound with all DAG parents done and hosted by some node is bound.
pub open spec fn sched_pass_effect(pre: SimEnv, post: SimEnv) -> bool {
    &&& post.wf()
    &&& crate::env::sched_effect_only(pre, post)
    &&& forall|r: int, f: int|
        0 <= r < pre.requests@.len() && pre.requests@[r] is Some && 0 <= f < pre.fns@.len()
            && pre.dags@[pre.requests@[r]->0.dag_i as int].spec_contains(f as FnId)
            && !pre.requests@[r]->0.spec_bound(f) && spec_parents_all_done(
            pre,
            pre.requests@[r]->0,
            f as FnId,
        ) && (exists|nd: int|
            0 <= nd < pre.nodes@.len() && (#[trigger] pre.nodes@[nd]).spec_has_container(
                f as FnId,
            )) ==> #[trigger] post.requests@[r]->0.spec_bound(f)
    &&& forall|r: int, f: int|
        0 <= r < pre.requests@.len() && pre.requests@[r] is Some && 0 <= f < pre.fns@.len()
            && !pre.requests@[r]->0.spec_bound(f) && (forall|nd: int|
            0 <= nd < pre.nodes@.len() ==> !(#[trigger] pre.nodes@[nd]).spec_has_container(
                f as FnId,
            )) ==> !(#[trigger] post.requests@[r]->0.spec_bound(f))
    &&& reqs_pass_chain(pre, post, pre.requests@.len() as int)
}

impl SimEnv {
    /// One full frame: schedule newly-ready tasks, then advance the
    /// simulation by one tick (materialize scale effects, move data, run
    /// compute and completions).
    pub fn schedule_fn(&mut self)
        requires
            old(self).wf(),
            old(self).current_frame < u64::MAX,
        ensures
            final(self).wf(),
            final(self).current_frame == old(self).current_frame + 1,
            final(self).fns@ == old(self).fns@,
            final(self).dags@ == old(self).dags@,
            final(self).node_speeds@ == old(self).node_speeds@,
            final(self).nodes@.len() == old(self).nodes@.len(),
            final(self).requests@.len() == old(self).requests@.len(),
            // the frame is the scheduling pass followed by one sim_run
            exists|s: SimEnv|
                #![trigger sched_pass_effect(*old(self), s)]
                sched_pass_effect(*old(self), s) && crate::compute::run_effect(s, *final(self)),
    {
        self.try_put_fn();
        let ghost s0 = *self;
        proof {
            assert(sched_pass_effect(*old(self), s0));
        }
        self.sim_run();
        proof {
            assert(crate::compute::run_effect(s0, *self));
        }
    }
}

/// One binding of the scheduling pass, taken at environment `pre`: the
/// task goes to a hosting node minimizing the predicted execution time at
/// that moment — ties to the lowest node id, which is the first found in
/// the ascending candidate order — the request records the node, exactly
/// one task entry appears (`bound_task_placed`), and nothing else changes.
pub open spec fn bound_step(pre: SimEnv, post: SimEnv, r: ReqId, f: FnId) -> bool {
    exists|nd: int|
        #![trigger bound_task_placed(pre, post, r, f, nd as NodeId)]
        {
            &&& 0 <= nd < pre.nodes@.len()
            &&& pre.nodes@[nd].spec_has_container(f)
            &&& (forall|n2: int|
                0 <= n2 < pre.nodes@.len() && (#[trigger] pre.nodes@[n2]).spec_has_container(f)
                    ==> spec_pred_time(pre, pre.requests@[r as int]->0, f, nd) <= spec_pred_time(
                    pre,
                    pre.requests@[r as int]->0,
                    f,
                    n2,
                ))
            &&& (forall|n2: int|
                0 <= n2 < nd && (#[trigger] pre.nodes@[n2]).spec_has_container(f)
                    ==> spec_pred_time(pre, pre.requests@[r as int]->0, f, n2) > spec_pred_time(
                    pre,
                    pre.requests@[r as int]->0,
                    f,
                    nd,
                ))
            &&& post.requests@.len() == pre.requests@.len()
            &&& (forall|r2: int|
                0 <= r2 < pre.requests@.len() && r2 != r ==> post.requests@[r2]
                    == pre.requests@[r2])
            &&& post.requests@[r as int] is Some
            &&& post.requests@[r as int]->0.fn_node@ == pre.requests@[r as int]->0.fn_node@.update(
                f as int,
                Some(nd as usize),
            )
            &&& (forall|i: int|
                0 <= i < pre.nodes@.len() && i != nd ==> post.nodes@[i] == pre.nodes@[i])
            &&& bound_task_placed(pre, post, r, f, nd as NodeId)
        }
}

/// The request's bindings of one pass, as successive `bound_step`s in the
/// order they were taken.
pub open spec fn bound_chain(pre: SimEnv, post: SimEnv, r: ReqId, fs: Seq<FnId>) -> bool
    decreases fs.len(),
{
    if fs.len() == 0 {
        post == pre
    } else {
        exists|mid: SimEnv|
            #![trigger bound_step(mid, post, r, fs.last())]
            bound_chain(pre, mid, r, fs.drop_last()) && bound_step(mid, post, r, fs.last())
    }
}

/// What one pass does for one request slot: a chain of minimizing
/// bindings for a live request, nothing for an empty slot.
pub open spec fn one_req_effect(pre: SimEnv, post: SimEnv, r: ReqId) -> bool {
    if (r as int) < pre.requests@.len() && pre.requests@[r as int] is Some {
        exists|fs: Seq<FnId>| #![trigger bound_chain(pre, post, r, fs)] bound_chain(pre, post, r, fs)
    } else {
        post == pre
    }
}

/// The pass applied to the request slots below `r`, in storage order.
pub open spec fn reqs_pass_chain(pre: SimEnv, post: SimEnv, r: int) -> bool
    decreases
            (if r <= 0 {
                0int
            } else {
                r
            }),
{
    if r <= 0 {
        post == pre
    } else {
        exists|mid: SimEnv|
            #![trigger one_req_effect(mid, post, (r - 1) as ReqId)]
            reqs_pass_chain(pre, mid, r - 1) && one_req_effect(mid, post, (r - 1) as ReqId)
    }
}

/// How the environment changes when one task is bound: the target node's
/// container for the function gains exactly one trailing task entry — the
/// request's id, the function's full compute demand, and one incoming-data
/// record per source node hosting a DAG parent — and every other container
/// field and node stays as it was.
pub open spec fn bound_task_placed(
    pre: SimEnv,
    post: SimEnv,
    req_id: ReqId,
    fnid: FnId,
    nodeid: NodeId,
) -> bool {
    let on = pre.nodes@[nodeid as int];
    let nn = post.nodes@[nodeid as int];
    let oldreq = pre.requests@[req_id as int]->0;
    &&& nn.node_id == on.node_id
    &&& nn.rsc_limit == on.rsc_limit
    &&& nn.cpu == on.cpu
    &&& nn.mem == on.mem
    &&& nn.frame_run_count == on.frame_run_count
    &&& nn.fn_containers@.len() == on.fn_containers@.len()
    &&& exists|j: int|
        {
            let oc = on.fn_containers@[j];
            let nc = nn.fn_containers@[j];
            let nt = nc.req_fn_state@.last();
            &&& 0 <= j < on.fn_containers@.len()
            &&& (#[trigger] on.fn_containers@[j].fn_id) == fnid
            &&& (forall|j2: int|
                0 <= j2 < on.fn_containers@.len() && j2 != j ==> nn.fn_containers@[j2]
                    == on.fn_containers@[j2])
            &&& nc.fn_id == oc.fn_id
            &&& nc.state == oc.state
            &&& nc.this_frame_used == oc.this_frame_used
            &&& nc.cpu_alloced == oc.cpu_alloced
            &&& nc.cpu_used == oc.cpu_used
            &&& nc.req_fn_state@ == oc.req_fn_state@.push(nt)
            &&& nt.0 == req_id
            &&& nt.1.left_calc == pre.fns@[fnid as int].calc
            &&& nt.1.data_recv@.len() == pre.nodes@.len()
            &&& (forall|s: int|
                0 <= s < pre.nodes@.len() ==> (#[trigger] nt.1.data_recv@[s]) == (
                if has_parent_at(oldreq.fn_node@, pre.fns@[fnid as int].parent_fns@, s) {
                    Some(
                        DataRecv {
                            required: payload_at(
                                pre.fns@,
                                oldreq.fn_node@,
                                pre.fns@[fnid as int].parent_fns@,
                                s,
                            ) as u64,
                            received: 0,
                        },
                    )
                } else {
                    Option::<DataRecv>::None
                }))
        }
}

} // verus!
