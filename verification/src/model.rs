//! Topology model: passive data holders for functions, DAG templates,
//! requests, containers and nodes.
//!
//! All resource quantities (cpu, memory, bandwidth, compute demand) are
//! integer units; the caller picks the granularity. Configured quantities
//! are bounded by `RES_MAX` so that every per-frame sum stays inside `u64`.

use vstd::prelude::*;

verus! {

/// Identifier of a function template: an index into the environment's
/// function list.
pub type FnId = usize;
/// Identifier of a node: an index into the environment's node list.
pub type NodeId = usize;
/// Identifier of a request: an index into the environment's request list.
pub type ReqId = usize;

/// Upper bound on one configured resource quantity.
pub const RES_MAX: u64 = 0xFFFF_FFFF;

/// Upper bound on the number of nodes and the number of functions.
pub const IDX_MAX: usize = 0xFFFF;

/// Upper bound on the bytes one task may require along all its incoming
/// DAG edges together (`IDX_MAX * RES_MAX` rounded up).
pub const PAYLOAD_MAX: u64 = 0xFFFF_FFFF_FFFF;

/// Upper bound on the number of requests an environment tracks, so path
/// counts stay inside `u64`.
pub const REQ_CAP: usize = 0xFFFF_FFFF;

/// Pigeonhole: distinct integers drawn from `[0, n)` cannot be more than
/// `n` many.
pub proof fn lemma_distinct_bounded(s: Seq<int>, n: int)
    requires
        0 <= n,
        forall|i: int, j: int| 0 <= i < j < s.len() ==> s[i] != s[j],
        forall|i: int| 0 <= i < s.len() ==> 0 <= #[trigger] s[i] < n,
    ensures
        s.len() <= n,
{
    broadcast use vstd::set::group_set_axioms;

    assert(s.no_duplicates());
    s.unique_seq_to_set();
    assert forall|x: int| s.to_set().contains(x) implies vstd::set_lib::set_int_range(
        0,
        n,
    ).contains(x) by {
        let i = choose|i: int| 0 <= i < s.len() && s[i] == x;
    }
    vstd::set_lib::lemma_int_range(0, n);
    vstd::set_lib::lemma_len_subset(s.to_set(), vstd::set_lib::set_int_range(0, n));
}

/// Immutable per-function resource costs and DAG parent edges, shared and
/// referenced by `FnId`.
pub struct Func {
    /// Total compute demand of one task of this function.
    pub calc: u64,
    /// Steady-state memory reservation of a running container.
    pub mem: u64,
    /// Memory reserved while a container of this function is cold-starting.
    pub cold_start_container_mem_use: u64,
    /// CPU a cold start can actually consume per frame.
    pub cold_start_container_cpu_use: u64,
    /// Number of frames a cold start takes.
    pub cold_start_time: u64,
    /// Bytes this function hands to each DAG child when it finishes.
    pub out_put_size: u64,
    /// DAG parents of this function.
    pub parent_fns: Vec<FnId>,
}

impl Func {
    /// Steady-state memory of a running container of this function.
    pub fn container_mem(&self) -> (r: u64)
        ensures
            r == self.mem,
    {
        self.mem
    }

    /// Configured quantities are bounded, the cold-start footprint covers
    /// the steady-state one, and the parent list holds distinct valid ids.
    pub open spec fn wf(&self, n_fns: nat) -> bool {
        &&& self.calc <= RES_MAX
        &&& self.mem <= RES_MAX
        &&& self.cold_start_container_mem_use <= RES_MAX
        &&& self.mem <= self.cold_start_container_mem_use
        &&& self.cold_start_container_cpu_use <= RES_MAX
        &&& 1 <= self.cold_start_time <= RES_MAX
        &&& self.out_put_size <= RES_MAX
        &&& self.parent_fns@.len() <= IDX_MAX
        &&& forall|k: int|
            0 <= k < self.parent_fns@.len() ==> (#[trigger] self.parent_fns@[k] as nat) < n_fns
        &&& forall|k1: int, k2: int|
            0 <= k1 < k2 < self.parent_fns@.len() ==> self.parent_fns@[k1] != self.parent_fns@[k2]
    }
}

/// The static dependency graph of one workload: its functions, stored in a
/// topological order of the parent edges.
pub struct FnDag {
    /// The member functions, each parent standing before its children.
    pub fn_ids: Vec<FnId>,
}

impl FnDag {
    /// Membership of a function in this DAG.
    pub open spec fn spec_contains(&self, f: FnId) -> bool {
        self.fn_ids@.contains(f)
    }

    /// The members are distinct valid function ids, every parent of a
    /// member is itself a member, and parents stand before children.
    pub open spec fn wf(&self, fns: Seq<Func>) -> bool {
        &&& forall|i: int, j: int|
            0 <= i < j < self.fn_ids@.len() ==> self.fn_ids@[i] != self.fn_ids@[j]
        &&& forall|i: int|
            0 <= i < self.fn_ids@.len() ==> (#[trigger] self.fn_ids@[i] as int) < fns.len()
        &&& forall|i: int, k: int|
            0 <= i < self.fn_ids@.len() && 0 <= k
                < fns[self.fn_ids@[i] as int].parent_fns@.len() ==> exists|j: int|
                0 <= j < i && self.fn_ids@[j] == #[trigger] fns[self.fn_ids@[i] as int].parent_fns@[k]
    }
}

/// Progress of one inter-node data dependency edge: how many bytes the
/// consumer requires from the producer's node and how many have arrived.
pub struct DataRecv {
    /// Bytes the consumer requires from this source node.
    pub required: u64,
    /// Bytes that have arrived so far; never exceeds `required`.
    pub received: u64,
}

impl DataRecv {
    /// The edge is complete: everything required has arrived.
    pub open spec fn spec_done(&self) -> bool {
        self.received >= self.required
    }

    pub open spec fn wf(&self) -> bool {
        &&& self.received <= self.required
        &&& self.required <= PAYLOAD_MAX
    }
}

/// Per-(request, function) execution progress: the remaining compute
/// demand and the incoming data of each DAG-parent edge, keyed by the
/// parent's node.
pub struct FnRunningState {
    /// Remaining compute demand, depleted by allocated CPU each frame.
    pub left_calc: u64,
    /// Incoming data per source node; `None` where no parent ran there.
    pub data_recv: Vec<Option<DataRecv>>,
}

impl FnRunningState {
    /// All incoming edges are complete.
    pub open spec fn spec_data_recv_done(&self) -> bool {
        forall|s: int|
            0 <= s < self.data_recv@.len() && (#[trigger] self.data_recv@[s]) is Some
                ==> self.data_recv@[s]->0.spec_done()
    }

    /// The compute demand is bounded and there is one potential edge slot
    /// per node, each well-formed.
    pub open spec fn wf(&self, n_nodes: nat) -> bool {
        &&& self.left_calc <= RES_MAX
        &&& self.data_recv@.len() == n_nodes
        &&& forall|s: int|
            0 <= s < self.data_recv@.len() && (#[trigger] self.data_recv@[s]) is Some
                ==> self.data_recv@[s]->0.wf()
    }

    /// All incoming edges are complete.
    pub fn data_recv_done(&self) -> (r: bool)
        ensures
            r == self.spec_data_recv_done(),
    {
        let mut s: usize = 0;
        while s < self.data_recv.len()
            invariant
                s <= self.data_recv@.len(),
                forall|t: int|
                    0 <= t < s && (#[trigger] self.data_recv@[t]) is Some
                        ==> self.data_recv@[t]->0.spec_done(),
            decreases self.data_recv@.len() - s,
        {
            match &self.data_recv[s] {
                Some(e) => {
                    if e.received < e.required {
                        return false;
                    }
                },
                None => {},
            }
            s = s + 1;
        }
        true
    }

    /// The task has consumed all its compute demand.
    pub fn compute_done(&self) -> (r: bool)
        ensures
            r == (self.left_calc == 0),
    {
        self.left_calc == 0
    }
}

/// Lifecycle state of a container: cold-starting (counting frames down)
/// or running. The transition is one-way.
pub enum FnContainerState {
    /// Cold start in progress; `left_frames` frames remain.
    Starting { left_frames: u64 },
    /// Ready to execute tasks until externally destroyed.
    Running,
}

/// Execution context for one function on one node.
pub struct FnContainer {
    /// The function this container hosts.
    pub fn_id: FnId,
    /// Lifecycle state.
    pub state: FnContainerState,
    /// Progress of each request currently placed here, keyed by request id.
    pub req_fn_state: Vec<(ReqId, FnRunningState)>,
    /// Whether the container did any work (compute or data receipt) this
    /// frame; read by the metric layer.
    pub this_frame_used: bool,
    /// CPU share handed to the container this frame, for metrics.
    pub cpu_alloced: u64,
    /// CPU the container actually consumed this frame, for metrics.
    pub cpu_used: u64,
}

impl FnContainer {
    pub open spec fn is_starting(&self) -> bool {
        match self.state {
            FnContainerState::Starting { .. } => true,
            FnContainerState::Running => false,
        }
    }

    pub open spec fn is_running(&self) -> bool {
        match self.state {
            FnContainerState::Starting { .. } => false,
            FnContainerState::Running => true,
        }
    }

    /// Memory this container reserves on its node in its current state.
    pub open spec fn res_mem(&self, fns: Seq<Func>) -> u64 {
        match self.state {
            FnContainerState::Starting { .. } => fns[self.fn_id as int].cold_start_container_mem_use,
            FnContainerState::Running => fns[self.fn_id as int].mem,
        }
    }

    /// Record the CPU share handed to this container and the part of it
    /// actually consumed this frame.
    pub fn set_cpu_use_rate(&mut self, alloced: u64, used: u64)
        ensures
            *final(self) == (FnContainer {
                cpu_alloced: alloced,
                cpu_used: used,
                ..*old(self)
            }),
    {
        self.cpu_alloced = alloced;
        self.cpu_used = used;
    }

    /// The hosted function id is valid, a cold start has frames left, and
    /// every task entry is well-formed with a distinct request id.
    pub open spec fn wf(&self, fns: Seq<Func>, n_nodes: nat) -> bool {
        &&& (self.fn_id as int) < fns.len()
        &&& match self.state {
            FnContainerState::Starting { left_frames } => 1 <= left_frames <= RES_MAX,
            FnContainerState::Running => true,
        }
        &&& forall|k: int|
            0 <= k < self.req_fn_state@.len() ==> (#[trigger] self.req_fn_state@[k]).1.wf(n_nodes)
        &&& forall|k1: int, k2: int|
            0 <= k1 < k2 < self.req_fn_state@.len()
                ==> self.req_fn_state@[k1].0 != self.req_fn_state@[k2].0
    }
}

/// Capacity of one node.
pub struct NodeRscLimit {
    /// CPU capacity per frame.
    pub cpu: u64,
    /// Memory capacity.
    pub mem: u64,
}

/// Memory reserved by a sequence of containers together.
pub open spec fn containers_mem(cs: Seq<FnContainer>, fns: Seq<Func>) -> int
    decreases cs.len(),
{
    if cs.len() == 0 {
        0
    } else {
        containers_mem(cs.drop_last(), fns) + cs.last().res_mem(fns)
    }
}

/// The memory a sequence of containers reserves does not depend on their
/// task lists or metric fields, only on function and lifecycle state.
pub proof fn lemma_containers_mem_congruence(
    cs1: Seq<FnContainer>,
    cs2: Seq<FnContainer>,
    fns: Seq<Func>,
)
    requires
        cs1.len() == cs2.len(),
        forall|j: int|
            0 <= j < cs1.len() ==> (#[trigger] cs2[j]).fn_id == cs1[j].fn_id && cs2[j].state
                == cs1[j].state,
    ensures
        containers_mem(cs1, fns) == containers_mem(cs2, fns),
    decreases cs1.len(),
{
    if cs1.len() > 0 {
        lemma_containers_mem_congruence(cs1.drop_last(), cs2.drop_last(), fns);
    }
}

/// Replacing one container changes the reserved sum by the difference of
/// the two reservations.
pub proof fn lemma_containers_mem_update(
    cs: Seq<FnContainer>,
    j: int,
    c2: FnContainer,
    fns: Seq<Func>,
)
    requires
        0 <= j < cs.len(),
    ensures
        containers_mem(cs.update(j, c2), fns) == containers_mem(cs, fns) - cs[j].res_mem(fns)
            + c2.res_mem(fns),
    decreases cs.len(),
{
    if j == cs.len() - 1 {
        assert(cs.update(j, c2).drop_last() =~= cs.drop_last());
        assert(cs.update(j, c2).last() == c2);
    } else {
        assert(cs.update(j, c2).drop_last() =~= cs.drop_last().update(j, c2));
        assert(cs.update(j, c2).last() == cs.last());
        lemma_containers_mem_update(cs.drop_last(), j, c2, fns);
    }
}

/// Removing one container releases exactly its reservation.
pub proof fn lemma_containers_mem_remove(cs: Seq<FnContainer>, j: int, fns: Seq<Func>)
    requires
        0 <= j < cs.len(),
    ensures
        containers_mem(cs.remove(j), fns) == containers_mem(cs, fns) - cs[j].res_mem(fns),
    decreases cs.len(),
{
    if j == cs.len() - 1 {
        assert(cs.remove(j) =~= cs.drop_last());
    } else {
        assert(cs.remove(j).drop_last() =~= cs.drop_last().remove(j));
        assert(cs.remove(j).last() == cs.last());
        lemma_containers_mem_remove(cs.drop_last(), j, fns);
    }
}

/// Every container's reservation is within each bound, so the reserved sum
/// is bounded by the count times the bound.
pub proof fn lemma_containers_mem_bound(cs: Seq<FnContainer>, fns: Seq<Func>)
    requires
        forall|j: int|
            0 <= j < cs.len() ==> (#[trigger] cs[j].res_mem(fns)) <= RES_MAX,
    ensures
        0 <= containers_mem(cs, fns) <= cs.len() * (RES_MAX as int),
    decreases cs.len(),
{
    if cs.len() > 0 {
        lemma_containers_mem_bound(cs.drop_last(), fns);
        assert((cs.len() - 1) * (RES_MAX as int) + (RES_MAX as int) == cs.len() * (
        RES_MAX as int)) by (nonlinear_arith);
    }
}

/// Reservations that shrink pointwise shrink in sum.
pub proof fn lemma_containers_mem_le(cs1: Seq<FnContainer>, cs2: Seq<FnContainer>, fns: Seq<Func>)
    requires
        cs1.len() == cs2.len(),
        forall|j: int|
            0 <= j < cs1.len() ==> (#[trigger] cs2[j].res_mem(fns)) <= cs1[j].res_mem(fns),
    ensures
        containers_mem(cs2, fns) <= containers_mem(cs1, fns),
    decreases cs1.len(),
{
    if cs1.len() > 0 {
        lemma_containers_mem_le(cs1.drop_last(), cs2.drop_last(), fns);
    }
}

/// A resource-limited node hosting at most one container per function.
pub struct Node {
    /// This node's id: its index in the environment's node list.
    pub node_id: NodeId,
    /// Capacity.
    pub rsc_limit: NodeRscLimit,
    /// CPU consumed on this node in the current frame.
    pub cpu: u64,
    /// Memory currently reserved (containers plus frame-scoped task
    /// reservations).
    pub mem: u64,
    /// The containers resident on this node.
    pub fn_containers: Vec<FnContainer>,
    /// Number of compute slots that ran in the most recent frame.
    pub frame_run_count: u64,
}

impl Node {
    /// Capacities are positive and bounded, reserved memory is exactly
    /// what the containers reserve and fits the limit, realized CPU fits
    /// the limit, and containers are per-function unique.
    pub open spec fn wf(&self, i: int, fns: Seq<Func>, n_nodes: nat) -> bool {
        &&& self.node_id == i
        &&& 1 <= self.rsc_limit.mem <= RES_MAX
        &&& self.rsc_limit.cpu <= RES_MAX
        &&& self.cpu <= self.rsc_limit.cpu
        &&& self.mem == containers_mem(self.fn_containers@, fns)
        &&& self.mem <= self.rsc_limit.mem
        &&& forall|j: int|
            0 <= j < self.fn_containers@.len()
                ==> (#[trigger] self.fn_containers@[j]).wf(fns, n_nodes)
        &&& forall|j1: int, j2: int|
            0 <= j1 < j2 < self.fn_containers@.len()
                ==> self.fn_containers@[j1].fn_id != self.fn_containers@[j2].fn_id
    }

    /// Memory still free on this node.
    pub fn left_mem(&self) -> (r: u64)
        requires
            self.mem <= self.rsc_limit.mem,
        ensures
            r == self.rsc_limit.mem - self.mem,
    {
        self.rsc_limit.mem - self.mem
    }

    /// Whether this node hosts a container for `fnid`.
    pub open spec fn spec_has_container(&self, fnid: FnId) -> bool {
        exists|j: int| 0 <= j < self.fn_containers@.len() && (#[trigger] self.fn_containers@[j]).fn_id == fnid
    }

    /// Index of this node's container for `fnid`, if any.
    pub fn container_index(&self, fnid: FnId) -> (r: Option<usize>)
        ensures
            match r {
                Some(j) => j < self.fn_containers@.len() && self.fn_containers@[j as int].fn_id == fnid,
                None => !self.spec_has_container(fnid),
            },
    {
        let mut j: usize = 0;
        while j < self.fn_containers.len()
            invariant
                j <= self.fn_containers@.len(),
                forall|t: int| 0 <= t < j ==> (#[trigger] self.fn_containers@[t]).fn_id != fnid,
            decreases self.fn_containers@.len() - j,
        {
            if self.fn_containers[j].fn_id == fnid {
                return Some(j);
            }
            j = j + 1;
        }
        None
    }
}

/// One instantiation of a DAG template: which function ran where and which
/// functions are finished.
pub struct Request {
    /// This request's id: its index in the environment's request list.
    pub req_id: ReqId,
    /// The DAG template this request instantiates.
    pub dag_i: usize,
    /// The node each function was bound to, if bound yet; indexed by `FnId`.
    pub fn_node: Vec<Option<NodeId>>,
    /// Which functions are finished; indexed by `FnId`.
    pub done_fns: Vec<bool>,
}

impl Request {
    /// The function is bound to a node for this request.
    pub open spec fn spec_bound(&self, f: int) -> bool {
        0 <= f < self.fn_node@.len() && self.fn_node@[f] is Some
    }

    /// The function is marked done for this request.
    pub open spec fn spec_done(&self, f: int) -> bool {
        0 <= f < self.done_fns@.len() && self.done_fns@[f]
    }

    /// Ids in range, one binding and one done mark per function, bound
    /// functions belong to the DAG and sit on valid nodes, done implies
    /// bound, and no function is bound before all its DAG parents are done.
    pub open spec fn wf(&self, r: int, dags: Seq<FnDag>, fns: Seq<Func>, n_nodes: nat) -> bool {
        &&& self.req_id == r
        &&& (self.dag_i as int) < dags.len()
        &&& self.fn_node@.len() == fns.len()
        &&& self.done_fns@.len() == fns.len()
        &&& forall|f: int|
            0 <= f < fns.len() && (#[trigger] self.fn_node@[f]) is Some ==> {
                &&& dags[self.dag_i as int].spec_contains(f as FnId)
                &&& (self.fn_node@[f]->0 as nat) < n_nodes
            }
        &&& forall|f: int| 0 <= f < fns.len() && (#[trigger] self.done_fns@[f]) ==> self.fn_node@[f] is Some
        &&& forall|f: int, k: int|
            0 <= f < fns.len() && (#[trigger] self.fn_node@[f]) is Some && 0 <= k
                < fns[f].parent_fns@.len()
                ==> self.spec_done(#[trigger] fns[f].parent_fns@[k] as int)
    }

    /// Every function of the DAG is done for this request.
    pub open spec fn spec_is_done(&self, dag: FnDag) -> bool {
        forall|i: int|
            0 <= i < dag.fn_ids@.len() ==> self.spec_done(#[trigger] dag.fn_ids@[i] as int)
    }

    /// Whether every function of `dag` is done for this request.
    pub fn is_done(&self, dag: &FnDag) -> (r: bool)
        requires
            forall|i: int|
                0 <= i < dag.fn_ids@.len() ==> (#[trigger] dag.fn_ids@[i] as int) < self.done_fns@.len(),
        ensures
            r == self.spec_is_done(*dag),
    {
        let mut i: usize = 0;
        while i < dag.fn_ids.len()
            invariant
                i <= dag.fn_ids@.len(),
                forall|i2: int|
                    0 <= i2 < dag.fn_ids@.len() ==> (#[trigger] dag.fn_ids@[i2] as int) < self.done_fns@.len(),
                forall|t: int| 0 <= t < i ==> self.spec_done(#[trigger] dag.fn_ids@[t] as int),
            decreases dag.fn_ids@.len() - i,
        {
            if !self.done_fns[dag.fn_ids[i]] {
                return false;
            }
            i = i + 1;
        }
        true
    }

    /// Mark `fnid` done for this request.
    pub fn fn_done(&mut self, fnid: FnId)
        requires
            (fnid as int) < old(self).done_fns@.len(),
        ensures
            final(self).req_id == old(self).req_id,
            final(self).dag_i == old(self).dag_i,
            final(self).fn_node == old(self).fn_node,
            final(self).done_fns@ == old(self).done_fns@.update(fnid as int, true),
    {
        self.done_fns.set(fnid, true);
    }
}

} // verus!
