//! Transfer Engine: per-frame bandwidth-sharing simulation between nodes.
//!
//! Every frame, edges whose producer ran on the consumer's own node
//! complete instantly; every other pending edge competes for its physical
//! link. A link's total bandwidth is divided equally among all pending
//! paths crossing it in either direction (shared, non-full-duplex), and
//! each path's received byte count grows by that share, clamped at its
//! requirement. An edge that is already complete is never touched again.

use vstd::prelude::*;
use crate::env::SimEnv;
use crate::model::{
    DataRecv, FnContainer, FnId, FnRunningState, Func, Node, NodeId, ReqId, IDX_MAX, REQ_CAP,
    RES_MAX,
};

verus! {

broadcast use vstd::seq_lib::group_seq_properties;

/// One frame-scoped record of in-flight data movement: which (request,
/// function) consumer a path feeds.
#[derive(Clone, Debug)]
pub struct TransPath {
    /// The receiving request.
    pub req_id: ReqId,
    /// The receiving function.
    pub fn_id: FnId,
}

/// The pending paths between one ordered node pair, from the first node's
/// perspective: what it sends and what it receives on that physical link.
pub struct NodeTrans {
    /// Paths whose bytes leave the first node.
    pub send_paths: Vec<TransPath>,
    /// Paths whose bytes arrive at the first node.
    pub recv_paths: Vec<TransPath>,
}

impl NodeTrans {
    /// All pending paths crossing the physical link, both directions
    /// together: they all compete for the one capacity pool.
    pub fn path_cnt(&self) -> (r: u64)
        requires
            self.send_paths@.len() + self.recv_paths@.len() <= u64::MAX,
        ensures
            r == self.send_paths@.len() + self.recv_paths@.len(),
    {
        self.send_paths.len() as u64 + self.recv_paths.len() as u64
    }
}

/// The task still needs bytes from source node `s`.
pub open spec fn entry_pending(t: FnRunningState, s: int) -> bool {
    &&& 0 <= s < t.data_recv@.len()
    &&& t.data_recv@[s] is Some
    &&& !t.data_recv@[s]->0.spec_done()
}

/// Number of tasks in the list that still need bytes from node `s`.
pub open spec fn tasks_pending_from(tasks: Seq<(ReqId, FnRunningState)>, s: int) -> int
    decreases tasks.len(),
{
    if tasks.len() == 0 {
        0
    } else {
        tasks_pending_from(tasks.drop_last(), s) + if entry_pending(tasks.last().1, s) {
            1int
        } else {
            0int
        }
    }
}

/// Number of pending edges from node `s` among the containers.
pub open spec fn node_pending_from(cs: Seq<FnContainer>, s: int) -> int
    decreases cs.len(),
{
    if cs.len() == 0 {
        0
    } else {
        node_pending_from(cs.drop_last(), s) + tasks_pending_from(cs.last().req_fn_state@, s)
    }
}

/// Number of pending paths crossing the physical link between `a` and
/// `b`, both directions together.
pub open spec fn paths_btwn(env: SimEnv, a: int, b: int) -> int {
    node_pending_from(env.nodes@[b].fn_containers@, a) + node_pending_from(
        env.nodes@[a].fn_containers@,
        b,
    )
}

/// The equal bandwidth share of one path between node `i` and source `s`
/// this frame, as the pre-frame state determines it.
pub open spec fn spec_share(env: SimEnv, i: int, s: int) -> int {
    let x = if i > s {
        i
    } else {
        s
    };
    let y = if i > s {
        s
    } else {
        i
    };
    if paths_btwn(env, x, y) > 0 {
        (env.node_speeds@[x]@[y] as int) / paths_btwn(env, x, y)
    } else {
        0
    }
}

/// What one frame of the Transfer Engine does to the incoming-data record
/// of a task on node `i` from source `s`: a complete edge is never touched
/// again; a same-node edge completes instantly; a pending cross-node edge
/// grows by the link share, clamped at its requirement.
pub open spec fn entry_post(env: SimEnv, i: int, s: int, e: DataRecv) -> DataRecv {
    if e.spec_done() {
        e
    } else if s == i {
        DataRecv { required: e.required, received: e.required }
    } else {
        let inc = e.received + spec_share(env, i, s);
        DataRecv {
            required: e.required,
            received: if inc > e.required {
                e.required
            } else {
                inc as u64
            },
        }
    }
}

/// The container on node `i` has some pending cross-node edge: it will
/// receive data this frame.
pub open spec fn container_has_pending_cross(c: FnContainer, i: int) -> bool {
    exists|k: int, s: int|
        0 <= k < c.req_fn_state@.len() && s != i && #[trigger] entry_pending(
            c.req_fn_state@[k].1,
            s,
        )
}

pub proof fn lemma_tasks_pending_bound(tasks: Seq<(ReqId, FnRunningState)>, s: int)
    ensures
        0 <= tasks_pending_from(tasks, s) <= tasks.len(),
    decreases tasks.len(),
{
    if tasks.len() > 0 {
        lemma_tasks_pending_bound(tasks.drop_last(), s);
    }
}

pub proof fn lemma_node_pending_bound(cs: Seq<FnContainer>, s: int, cap: int)
    requires
        0 <= cap,
        forall|j: int| 0 <= j < cs.len() ==> (#[trigger] cs[j]).req_fn_state@.len() <= cap,
    ensures
        0 <= node_pending_from(cs, s) <= cs.len() * cap,
    decreases cs.len(),
{
    if cs.len() > 0 {
        lemma_node_pending_bound(cs.drop_last(), s, cap);
        lemma_tasks_pending_bound(cs.last().req_fn_state@, s);
        assert((cs.len() - 1) * cap + cap == cs.len() * cap) by (nonlinear_arith);
    }
}

/// The pending count from `s` depends only on the edges from `s`.
pub proof fn lemma_tasks_pending_congruence(
    t1: Seq<(ReqId, FnRunningState)>,
    t2: Seq<(ReqId, FnRunningState)>,
    s: int,
)
    requires
        t1.len() == t2.len(),
        forall|k: int|
            0 <= k < t1.len() ==> (#[trigger] t2[k]).1.data_recv@.len() == t1[k].1.data_recv@.len(),
        forall|k: int|
            0 <= k < t1.len() && 0 <= s < t1[k].1.data_recv@.len()
                ==> (#[trigger] t2[k]).1.data_recv@[s] == t1[k].1.data_recv@[s],
    ensures
        tasks_pending_from(t1, s) == tasks_pending_from(t2, s),
    decreases t1.len(),
{
    if t1.len() > 0 {
        lemma_tasks_pending_congruence(t1.drop_last(), t2.drop_last(), s);
    }
}

/// The pending count from `s` depends only on the edges from `s`.
pub proof fn lemma_node_pending_congruence(cs1: Seq<FnContainer>, cs2: Seq<FnContainer>, s: int)
    requires
        cs1.len() == cs2.len(),
        forall|j: int|
            0 <= j < cs1.len() ==> (#[trigger] cs2[j]).req_fn_state@.len()
                == cs1[j].req_fn_state@.len(),
        forall|j: int, k: int|
            0 <= j < cs1.len() && 0 <= k < cs1[j].req_fn_state@.len()
                ==> (#[trigger] cs2[j].req_fn_state@[k]).1.data_recv@.len()
                == cs1[j].req_fn_state@[k].1.data_recv@.len(),
        forall|j: int, k: int|
            0 <= j < cs1.len() && 0 <= k < cs1[j].req_fn_state@.len() && 0 <= s
                < cs1[j].req_fn_state@[k].1.data_recv@.len()
                ==> (#[trigger] cs2[j].req_fn_state@[k]).1.data_recv@[s]
                == cs1[j].req_fn_state@[k].1.data_recv@[s],
    ensures
        node_pending_from(cs1, s) == node_pending_from(cs2, s),
    decreases cs1.len(),
{
    if cs1.len() > 0 {
        lemma_node_pending_congruence(cs1.drop_last(), cs2.drop_last(), s);
        let j = cs1.len() - 1;
        lemma_tasks_pending_congruence(cs1[j].req_fn_state@, cs2[j].req_fn_state@, s);
    }
}

/// Count the pending edges from source `s` among this node's containers.
fn node_pending_cnt(n: &Node, s: NodeId) -> (r: u64)
    requires
        n.fn_containers@.len() <= IDX_MAX,
        forall|j: int|
            0 <= j < n.fn_containers@.len() ==> (#[trigger] n.fn_containers@[j]).req_fn_state@.len()
                <= REQ_CAP,
    ensures
        r == node_pending_from(n.fn_containers@, s as int),
{
    let mut cnt: u64 = 0;
    let mut j: usize = 0;
    while j < n.fn_containers.len()
        invariant
            n.fn_containers@.len() <= IDX_MAX,
            forall|j2: int|
                0 <= j2 < n.fn_containers@.len()
                    ==> (#[trigger] n.fn_containers@[j2]).req_fn_state@.len() <= REQ_CAP,
            j <= n.fn_containers@.len(),
            cnt == node_pending_from(n.fn_containers@.take(j as int), s as int),
            cnt <= (j as int) * (REQ_CAP as int),
        decreases n.fn_containers@.len() - j,
    {
        proof {
            assert(n.fn_containers@.take(j + 1).drop_last() =~= n.fn_containers@.take(j as int));
            assert(n.fn_containers@.take(j + 1).last() == n.fn_containers@[j as int]);
            lemma_node_pending_bound(n.fn_containers@.take(j as int), s as int, REQ_CAP as int);
            lemma_tasks_pending_bound(n.fn_containers@[j as int].req_fn_state@, s as int);
            assert((j as int) * (REQ_CAP as int) + (REQ_CAP as int) == (j + 1) * (REQ_CAP as int))
                by (nonlinear_arith);
            assert((j + 1) * (REQ_CAP as int) <= (IDX_MAX as int) * (REQ_CAP as int))
                by (nonlinear_arith)
                requires
                    0 <= j + 1 <= IDX_MAX,
            ;
            assert((IDX_MAX as int) * (REQ_CAP as int) <= u64::MAX as int) by (nonlinear_arith);
        }
        let c = &n.fn_containers[j];
        let mut k: usize = 0;
        let ghost tseq = n.fn_containers@[j as int].req_fn_state@;
        while k < c.req_fn_state.len()
            invariant
                c.req_fn_state@ == tseq,
                tseq == n.fn_containers@[j as int].req_fn_state@,
                tseq.len() <= REQ_CAP,
                k <= tseq.len(),
                cnt == node_pending_from(n.fn_containers@.take(j as int), s as int)
                    + tasks_pending_from(tseq.take(k as int), s as int),
                node_pending_from(n.fn_containers@.take(j as int), s as int) <= (j as int) * (
                REQ_CAP as int),
                (j as int) * (REQ_CAP as int) + (REQ_CAP as int) <= u64::MAX,
                node_pending_from(n.fn_containers@.take(j as int), s as int) >= 0,
            decreases tseq.len() - k,
        {
            proof {
                assert(tseq.take(k + 1).drop_last() =~= tseq.take(k as int));
                assert(tseq.take(k + 1).last() == tseq[k as int]);
                lemma_tasks_pending_bound(tseq.take(k as int), s as int);
            }
            let t = &c.req_fn_state[k];
            if (s as usize) < t.1.data_recv.len() {
                match &t.1.data_recv[s] {
                    Some(e) => {
                        if e.received < e.required {
                            cnt = cnt + 1;
                        }
                    },
                    None => {},
                }
            }
            k = k + 1;
        }
        proof {
            assert(tseq.take(tseq.len() as int) =~= tseq);
        }
        j = j + 1;
    }
    proof {
        assert(n.fn_containers@.take(n.fn_containers@.len() as int) =~= n.fn_containers@);
    }
    cnt
}

/// Instant completion of a same-node edge: a pending one jumps to its
/// requirement, a complete one is left alone.
pub open spec fn local_done_entry(e: Option<DataRecv>) -> Option<DataRecv> {
    match e {
        Some(d) => Some(
            if d.spec_done() {
                d
            } else {
                DataRecv { required: d.required, received: d.required }
            },
        ),
        None => None,
    }
}

/// One share of link bandwidth arriving on an edge: a pending one grows by
/// `share`, clamped at its requirement; a complete one is left alone.
pub open spec fn share_entry(e: Option<DataRecv>, share: int) -> Option<DataRecv> {
    match e {
        Some(d) => Some(
            if d.spec_done() {
                d
            } else {
                DataRecv {
                    required: d.required,
                    received: if d.received + share > d.required {
                        d.required
                    } else {
                        (d.received + share) as u64
                    },
                }
            },
        ),
        None => None,
    }
}

/// The task after receiving one share from source `src`; everything else
/// as it was.
pub open spec fn task_share_post(
    ot: (ReqId, FnRunningState),
    nt: (ReqId, FnRunningState),
    src: int,
    share: int,
) -> bool {
    &&& nt.0 == ot.0
    &&& nt.1.left_calc == ot.1.left_calc
    &&& nt.1.data_recv@.len() == ot.1.data_recv@.len()
    &&& forall|s2: int|
        0 <= s2 < ot.1.data_recv@.len() ==> #[trigger] nt.1.data_recv@[s2] == (if s2 == src {
            share_entry(ot.1.data_recv@[s2], share)
        } else {
            ot.1.data_recv@[s2]
        })
}

/// The container after its tasks received one share each from `src`; it is
/// marked used exactly if it had a pending edge from there.
pub open spec fn container_share_post(
    oc: FnContainer,
    nc: FnContainer,
    src: int,
    share: int,
) -> bool {
    &&& nc.fn_id == oc.fn_id
    &&& nc.state == oc.state
    &&& nc.cpu_alloced == oc.cpu_alloced
    &&& nc.cpu_used == oc.cpu_used
    &&& nc.this_frame_used == (oc.this_frame_used || exists|k: int|
        0 <= k < oc.req_fn_state@.len() && entry_pending(#[trigger] oc.req_fn_state@[k].1, src))
    &&& nc.req_fn_state@.len() == oc.req_fn_state@.len()
    &&& forall|k: int|
        0 <= k < oc.req_fn_state@.len() ==> task_share_post(
            #[trigger] oc.req_fn_state@[k],
            nc.req_fn_state@[k],
            src,
            share,
        )
}

/// The node after all its containers received one share each from `src`.
pub open spec fn node_share_post(on: Node, nn: Node, src: int, share: int) -> bool {
    &&& nn.node_id == on.node_id
    &&& nn.rsc_limit == on.rsc_limit
    &&& nn.cpu == on.cpu
    &&& nn.mem == on.mem
    &&& nn.frame_run_count == on.frame_run_count
    &&& nn.fn_containers@.len() == on.fn_containers@.len()
    &&& forall|j: int|
        0 <= j < on.fn_containers@.len() ==> container_share_post(
            #[trigger] on.fn_containers@[j],
            nn.fn_containers@[j],
            src,
            share,
        )
}

/// The node after every same-node edge completed instantly; nothing else
/// (in particular no used mark) changes.
pub open spec fn node_local_post(on: Node, nn: Node) -> bool {
    &&& nn.node_id == on.node_id
    &&& nn.rsc_limit == on.rsc_limit
    &&& nn.cpu == on.cpu
    &&& nn.mem == on.mem
    &&& nn.frame_run_count == on.frame_run_count
    &&& nn.fn_containers@.len() == on.fn_containers@.len()
    &&& forall|j: int|
        0 <= j < on.fn_containers@.len() ==> {
            let oc = #[trigger] on.fn_containers@[j];
            let nc = nn.fn_containers@[j];
            &&& nc.fn_id == oc.fn_id
            &&& nc.state == oc.state
            &&& nc.cpu_alloced == oc.cpu_alloced
            &&& nc.cpu_used == oc.cpu_used
            &&& nc.this_frame_used == oc.this_frame_used
            &&& nc.req_fn_state@.len() == oc.req_fn_state@.len()
            &&& forall|k: int|
                0 <= k < oc.req_fn_state@.len() ==> {
                    let ot = #[trigger] oc.req_fn_state@[k];
                    let nt = nc.req_fn_state@[k];
                    &&& nt.0 == ot.0
                    &&& nt.1.left_calc == ot.1.left_calc
                    &&& nt.1.data_recv@.len() == ot.1.data_recv@.len()
                    &&& forall|s2: int|
                        0 <= s2 < ot.1.data_recv@.len() ==> #[trigger] nt.1.data_recv@[s2] == (
                        if s2 == on.node_id {
                            local_done_entry(ot.1.data_recv@[s2])
                        } else {
                            ot.1.data_recv@[s2]
                        })
                }
        }
}

/// A positive pending count is exactly the existence of a pending edge.
pub proof fn lemma_tasks_pending_pos(tasks: Seq<(ReqId, FnRunningState)>, s: int)
    ensures
        (tasks_pending_from(tasks, s) > 0) <==> (exists|k: int|
            0 <= k < tasks.len() && entry_pending(#[trigger] tasks[k].1, s)),
    decreases tasks.len(),
{
    if tasks.len() > 0 {
        lemma_tasks_pending_pos(tasks.drop_last(), s);
        lemma_tasks_pending_bound(tasks.drop_last(), s);
        if tasks_pending_from(tasks, s) > 0 {
            if entry_pending(tasks.last().1, s) {
                assert(entry_pending(tasks[tasks.len() - 1].1, s));
            } else {
                let k = choose|k: int|
                    0 <= k < tasks.drop_last().len() && entry_pending(
                        #[trigger] tasks.drop_last()[k].1,
                        s,
                    );
                assert(entry_pending(tasks[k].1, s));
            }
        }
        if exists|k: int| 0 <= k < tasks.len() && entry_pending(#[trigger] tasks[k].1, s) {
            let k = choose|k: int| 0 <= k < tasks.len() && entry_pending(#[trigger] tasks[k].1, s);
            if k < tasks.len() - 1 {
                assert(entry_pending(tasks.drop_last()[k].1, s));
            }
        }
    }
}

/// Complete every pending same-node edge on this node instantly, without
/// consuming link bandwidth and without marking the containers used.
fn node_complete_local(n: &mut Node)
    ensures
        node_local_post(*old(n), *final(n)),
{
    let nid = n.node_id;
    let mut j: usize = 0;
    while j < n.fn_containers.len()
        invariant
            nid == n.node_id,
            n.node_id == old(n).node_id,
            n.rsc_limit == old(n).rsc_limit,
            n.cpu == old(n).cpu,
            n.mem == old(n).mem,
            n.frame_run_count == old(n).frame_run_count,
            n.fn_containers@.len() == old(n).fn_containers@.len(),
            j <= n.fn_containers@.len(),
            forall|j2: int|
                j <= j2 < n.fn_containers@.len() ==> #[trigger] n.fn_containers@[j2] == old(
                    n,
                ).fn_containers@[j2],
            forall|j2: int|
                0 <= j2 < j ==> {
                    let oc = #[trigger] old(n).fn_containers@[j2];
                    let nc = n.fn_containers@[j2];
                    &&& nc.fn_id == oc.fn_id
                    &&& nc.state == oc.state
                    &&& nc.cpu_alloced == oc.cpu_alloced
                    &&& nc.cpu_used == oc.cpu_used
                    &&& nc.this_frame_used == oc.this_frame_used
                    &&& nc.req_fn_state@.len() == oc.req_fn_state@.len()
                    &&& forall|k: int|
                        0 <= k < oc.req_fn_state@.len() ==> {
                            let ot = #[trigger] oc.req_fn_state@[k];
                            let nt = nc.req_fn_state@[k];
                            &&& nt.0 == ot.0
                            &&& nt.1.left_calc == ot.1.left_calc
                            &&& nt.1.data_recv@.len() == ot.1.data_recv@.len()
                            &&& forall|s2: int|
                                0 <= s2 < ot.1.data_recv@.len() ==> #[trigger] nt.1.data_recv@[s2]
                                    == (if s2 == old(n).node_id {
                                    local_done_entry(ot.1.data_recv@[s2])
                                } else {
                                    ot.1.data_recv@[s2]
                                })
                        }
                },
        decreases n.fn_containers@.len() - j,
    {
        let ghost pre_containers = n.fn_containers@;
        let mut c = n.fn_containers.remove(j);
        let ghost oc = c;
        let mut k: usize = 0;
        while k < c.req_fn_state.len()
            invariant
                c.fn_id == oc.fn_id,
                c.state == oc.state,
                c.cpu_alloced == oc.cpu_alloced,
                c.cpu_used == oc.cpu_used,
                c.this_frame_used == oc.this_frame_used,
                c.req_fn_state@.len() == oc.req_fn_state@.len(),
                k <= c.req_fn_state@.len(),
                forall|k2: int|
                    k <= k2 < c.req_fn_state@.len() ==> #[trigger] c.req_fn_state@[k2]
                        == oc.req_fn_state@[k2],
                forall|k2: int|
                    0 <= k2 < k ==> {
                        let ot = #[trigger] oc.req_fn_state@[k2];
                        let nt = c.req_fn_state@[k2];
                        &&& nt.0 == ot.0
                        &&& nt.1.left_calc == ot.1.left_calc
                        &&& nt.1.data_recv@.len() == ot.1.data_recv@.len()
                        &&& forall|s2: int|
                            0 <= s2 < ot.1.data_recv@.len() ==> #[trigger] nt.1.data_recv@[s2] == (
                            if s2 == nid {
                                local_done_entry(ot.1.data_recv@[s2])
                            } else {
                                ot.1.data_recv@[s2]
                            })
                    },
            decreases c.req_fn_state@.len() - k,
        {
            let mut completed: bool = false;
            let mut required: u64 = 0;
            if nid < c.req_fn_state[k].1.data_recv.len() {
                match &c.req_fn_state[k].1.data_recv[nid] {
                    Some(e) => {
                        if e.received < e.required {
                            completed = true;
                            required = e.required;
                        }
                    },
                    None => {},
                }
            }
            if completed {
                let ghost pre_tasks = c.req_fn_state@;
                let mut t = c.req_fn_state.remove(k);
                t.1.data_recv.set(nid, Some(DataRecv { required, received: required }));
                c.req_fn_state.insert(k, t);
                proof {
                    assert(c.req_fn_state@ =~= pre_tasks.update(k as int, c.req_fn_state@[k as int]));
                }
            }
            k = k + 1;
        }
        n.fn_containers.insert(j, c);
        proof {
            assert(n.fn_containers@ =~= pre_containers.update(j as int, c));
        }
        j = j + 1;
    }
}

/// Hand one equal bandwidth share to every pending edge from `src` on
/// this node, clamped at each edge's requirement, and mark the containers
/// that received data as used.
fn node_apply_share(n: &mut Node, src: NodeId, share: u64)
    requires
        share <= RES_MAX,
        forall|j: int, k: int|
            0 <= j < old(n).fn_containers@.len() && 0 <= k
                < old(n).fn_containers@[j].req_fn_state@.len()
                ==> (#[trigger] old(n).fn_containers@[j].req_fn_state@[k]).1.wf(
                old(n).fn_containers@[j].req_fn_state@[k].1.data_recv@.len() as nat,
            ),
    ensures
        node_share_post(*old(n), *final(n), src as int, share as int),
{
    let mut j: usize = 0;
    while j < n.fn_containers.len()
        invariant
            share <= RES_MAX,
            n.node_id == old(n).node_id,
            n.rsc_limit == old(n).rsc_limit,
            n.cpu == old(n).cpu,
            n.mem == old(n).mem,
            n.frame_run_count == old(n).frame_run_count,
            n.fn_containers@.len() == old(n).fn_containers@.len(),
            j <= n.fn_containers@.len(),
            forall|j2: int, k: int|
                0 <= j2 < old(n).fn_containers@.len() && 0 <= k
                    < old(n).fn_containers@[j2].req_fn_state@.len()
                    ==> (#[trigger] old(n).fn_containers@[j2].req_fn_state@[k]).1.wf(
                    old(n).fn_containers@[j2].req_fn_state@[k].1.data_recv@.len() as nat,
                ),
            forall|j2: int|
                j <= j2 < n.fn_containers@.len() ==> #[trigger] n.fn_containers@[j2] == old(
                    n,
                ).fn_containers@[j2],
            forall|j2: int|
                0 <= j2 < j ==> container_share_post(
                    #[trigger] old(n).fn_containers@[j2],
                    n.fn_containers@[j2],
                    src as int,
                    share as int,
                ),
        decreases n.fn_containers@.len() - j,
    {
        let ghost pre_containers = n.fn_containers@;
        let mut c = n.fn_containers.remove(j);
        let ghost oc = c;
        let mut any_pending: bool = false;
        let mut k: usize = 0;
        while k < c.req_fn_state.len()
            invariant
                share <= RES_MAX,
                c.fn_id == oc.fn_id,
                c.state == oc.state,
                c.cpu_alloced == oc.cpu_alloced,
                c.cpu_used == oc.cpu_used,
                c.this_frame_used == oc.this_frame_used,
                c.req_fn_state@.len() == oc.req_fn_state@.len(),
                k <= c.req_fn_state@.len(),
                forall|k2: int|
                    0 <= k2 < oc.req_fn_state@.len() ==> (#[trigger] oc.req_fn_state@[k2]).1.wf(
                        oc.req_fn_state@[k2].1.data_recv@.len() as nat,
                    ),
                forall|k2: int|
                    k <= k2 < c.req_fn_state@.len() ==> #[trigger] c.req_fn_state@[k2]
                        == oc.req_fn_state@[k2],
                forall|k2: int|
                    0 <= k2 < k ==> task_share_post(
                        #[trigger] oc.req_fn_state@[k2],
                        c.req_fn_state@[k2],
                        src as int,
                        share as int,
                    ),
                any_pending == (exists|k2: int|
                    0 <= k2 < k && entry_pending(#[trigger] oc.req_fn_state@[k2].1, src as int)),
            decreases c.req_fn_state@.len() - k,
        {
            proof {
                assert(oc.req_fn_state@.take(k + 1).drop_last() =~= oc.req_fn_state@.take(k as int));
                assert(oc.req_fn_state@.take(k + 1).last() == oc.req_fn_state@[k as int]);
                lemma_tasks_pending_bound(oc.req_fn_state@.take(k as int), src as int);
            }
            let mut pending: bool = false;
            let mut required: u64 = 0;
            let mut received: u64 = 0;
            if (src as usize) < c.req_fn_state[k].1.data_recv.len() {
                match &c.req_fn_state[k].1.data_recv[src] {
                    Some(e) => {
                        if e.received < e.required {
                            pending = true;
                            required = e.required;
                            received = e.received;
                        }
                    },
                    None => {},
                }
            }
            if pending {
                any_pending = true;
                proof {
                    assert(oc.req_fn_state@[k as int].1.wf(
                        oc.req_fn_state@[k as int].1.data_recv@.len() as nat,
                    ));
                    assert(oc.req_fn_state@[k as int].1.data_recv@[src as int]->0.wf());
                }
                let inc = if received + share > required {
                    required
                } else {
                    received + share
                };
                let ghost pre_tasks = c.req_fn_state@;
                let mut t = c.req_fn_state.remove(k);
                t.1.data_recv.set(src, Some(DataRecv { required, received: inc }));
                c.req_fn_state.insert(k, t);
                proof {
                    assert(c.req_fn_state@ =~= pre_tasks.update(
                        k as int,
                        c.req_fn_state@[k as int],
                    ));
                }
            }
            k = k + 1;
        }
        if any_pending {
            c.this_frame_used = true;
        }
        proof {
            assert(oc.req_fn_state@.take(oc.req_fn_state@.len() as int) =~= oc.req_fn_state@);
        }
        n.fn_containers.insert(j, c);
        proof {
            assert(n.fn_containers@ =~= pre_containers.update(j as int, c));
            assert(container_share_post(
                old(n).fn_containers@[j as int],
                n.fn_containers@[j as int],
                src as int,
                share as int,
            ));
        }
        j = j + 1;
    }
}

/// One pending edge never outnumbers its node's total.
pub proof fn lemma_node_pending_component(cs: Seq<FnContainer>, s: int, j: int)
    requires
        0 <= j < cs.len(),
    ensures
        tasks_pending_from(cs[j].req_fn_state@, s) <= node_pending_from(cs, s),
        node_pending_from(cs, s) >= 0,
    decreases cs.len(),
{
    lemma_tasks_pending_bound(cs.last().req_fn_state@, s);
    if j == cs.len() - 1 {
        lemma_nonneg_node_pending(cs.drop_last(), s);
    } else {
        lemma_node_pending_component(cs.drop_last(), s, j);
    }
}

pub proof fn lemma_nonneg_node_pending(cs: Seq<FnContainer>, s: int)
    ensures
        node_pending_from(cs, s) >= 0,
    decreases cs.len(),
{
    if cs.len() > 0 {
        lemma_nonneg_node_pending(cs.drop_last(), s);
        lemma_tasks_pending_bound(cs.last().req_fn_state@, s);
    }
}

/// Collect one frame-scoped path record per pending edge from source `s`
/// among this node's containers.
fn node_collect_paths(n: &Node, s: NodeId) -> (r: Vec<TransPath>)
    requires
        n.fn_containers@.len() <= IDX_MAX,
        forall|j: int|
            0 <= j < n.fn_containers@.len() ==> (#[trigger] n.fn_containers@[j]).req_fn_state@.len()
                <= REQ_CAP,
    ensures
        r@.len() == node_pending_from(n.fn_containers@, s as int),
{
    let mut r: Vec<TransPath> = Vec::new();
    let mut j: usize = 0;
    while j < n.fn_containers.len()
        invariant
            n.fn_containers@.len() <= IDX_MAX,
            forall|j2: int|
                0 <= j2 < n.fn_containers@.len()
                    ==> (#[trigger] n.fn_containers@[j2]).req_fn_state@.len() <= REQ_CAP,
            j <= n.fn_containers@.len(),
            r@.len() == node_pending_from(n.fn_containers@.take(j as int), s as int),
        decreases n.fn_containers@.len() - j,
    {
        proof {
            assert(n.fn_containers@.take(j + 1).drop_last() =~= n.fn_containers@.take(j as int));
            assert(n.fn_containers@.take(j + 1).last() == n.fn_containers@[j as int]);
        }
        let c = &n.fn_containers[j];
        let fnid = c.fn_id;
        let mut k: usize = 0;
        let ghost tseq = n.fn_containers@[j as int].req_fn_state@;
        while k < c.req_fn_state.len()
            invariant
                c.req_fn_state@ == tseq,
                tseq == n.fn_containers@[j as int].req_fn_state@,
                k <= tseq.len(),
                fnid == n.fn_containers@[j as int].fn_id,
                r@.len() == node_pending_from(n.fn_containers@.take(j as int), s as int)
                    + tasks_pending_from(tseq.take(k as int), s as int),
                node_pending_from(n.fn_containers@.take(j as int), s as int) >= 0,
            decreases tseq.len() - k,
        {
            proof {
                assert(tseq.take(k + 1).drop_last() =~= tseq.take(k as int));
                assert(tseq.take(k + 1).last() == tseq[k as int]);
                lemma_tasks_pending_bound(tseq.take(k as int), s as int);
            }
            let t = &c.req_fn_state[k];
            if (s as usize) < t.1.data_recv.len() {
                match &t.1.data_recv[s] {
                    Some(e) => {
                        if e.received < e.required {
                            r.push(TransPath { req_id: t.0, fn_id: fnid });
                        }
                    },
                    None => {},
                }
            }
            k = k + 1;
        }
        proof {
            assert(tseq.take(tseq.len() as int) =~= tseq);
        }
        j = j + 1;
    }
    proof {
        assert(n.fn_containers@.take(n.fn_containers@.len() as int) =~= n.fn_containers@);
    }
    r
}

/// The equal share for the unordered pair `(a, b)`, `a` above `b`: the
/// link's total bandwidth divided by the pending path count, zero where
/// nothing is pending.
pub open spec fn spec_pair_share(env: SimEnv, a: int, b: int) -> int {
    if paths_btwn(env, a, b) > 0 {
        (env.node_speeds@[a]@[b] as int) / paths_btwn(env, a, b)
    } else {
        0
    }
}

/// Whether the pair `(a, b)`, `a` above `b`, has been handled by the time
/// the pairwise pass stands at outer position `x`, inner position `y`.
pub open spec fn pair_done(a: int, b: int, x: int, y: int) -> bool {
    a < x || (a == x && b < y)
}

/// The state of the pairwise pass at position `(x, y)`: handled pairs have
/// received their pre-state share, unhandled ones are untouched, same-node
/// edges are complete, and containers are marked used exactly for the
/// pending cross edges of handled pairs.
pub open spec fn pairs_upto(pre: SimEnv, cur: SimEnv, x: int, y: int) -> bool {
    &&& cur.fns@ == pre.fns@
    &&& cur.dags@ == pre.dags@
    &&& cur.requests@ == pre.requests@
    &&& cur.node_speeds@ == pre.node_speeds@
    &&& cur.scale_cmds@ == pre.scale_cmds@
    &&& cur.done_requests@ == pre.done_requests@
    &&& cur.current_frame == pre.current_frame
    &&& cur.env_id@ == pre.env_id@
    &&& cur.hpa_action == pre.hpa_action
    &&& cur.distance2hpa == pre.distance2hpa
    &&& cur.nodes@.len() == pre.nodes@.len()
    &&& forall|i: int|
        0 <= i < pre.nodes@.len() ==> {
            let on = #[trigger] pre.nodes@[i];
            let nn = cur.nodes@[i];
            &&& nn.node_id == on.node_id
            &&& nn.rsc_limit == on.rsc_limit
            &&& nn.cpu == on.cpu
            &&& nn.mem == on.mem
            &&& nn.frame_run_count == on.frame_run_count
            &&& nn.fn_containers@.len() == on.fn_containers@.len()
            &&& forall|j: int|
                0 <= j < on.fn_containers@.len() ==> {
                    let oc = #[trigger] on.fn_containers@[j];
                    let nc = nn.fn_containers@[j];
                    &&& nc.fn_id == oc.fn_id
                    &&& nc.state == oc.state
                    &&& nc.cpu_alloced == oc.cpu_alloced
                    &&& nc.cpu_used == oc.cpu_used
                    &&& nc.this_frame_used == (oc.this_frame_used || exists|k: int, s: int|
                        0 <= k < oc.req_fn_state@.len() && 0 <= s < pre.nodes@.len() && s != i
                            && pair_done(
                            if i > s {
                                i
                            } else {
                                s
                            },
                            if i > s {
                                s
                            } else {
                                i
                            },
                            x,
                            y,
                        ) && #[trigger] entry_pending(oc.req_fn_state@[k].1, s))
                    &&& nc.req_fn_state@.len() == oc.req_fn_state@.len()
                    &&& forall|k: int|
                        0 <= k < oc.req_fn_state@.len() ==> {
                            let ot = #[trigger] oc.req_fn_state@[k];
                            let nt = nc.req_fn_state@[k];
                            &&& nt.0 == ot.0
                            &&& nt.1.left_calc == ot.1.left_calc
                            &&& nt.1.data_recv@.len() == ot.1.data_recv@.len()
                            &&& forall|s: int|
                                0 <= s < ot.1.data_recv@.len() ==> #[trigger] nt.1.data_recv@[s]
                                    == (if s == i {
                                    local_done_entry(ot.1.data_recv@[s])
                                } else if pair_done(
                                    if i > s {
                                        i
                                    } else {
                                        s
                                    },
                                    if i > s {
                                        s
                                    } else {
                                        i
                                    },
                                    x,
                                    y,
                                ) {
                                    match ot.1.data_recv@[s] {
                                        Some(e) => Some(entry_post(pre, i, s, e)),
                                        None => Option::<DataRecv>::None,
                                    }
                                } else {
                                    ot.1.data_recv@[s]
                                })
                        }
                }
        }
}

/// What one frame of the Transfer Engine does, in full: each incoming-data
/// record moves to `entry_post` (complete edges untouched, same-node edges
/// complete instantly, pending cross edges grow by their link's equal
/// share, clamped), each container that had a pending cross edge is marked
/// used, and nothing else changes.
pub open spec fn transfer_effect(pre: SimEnv, post: SimEnv) -> bool {
    &&& post.fns@ == pre.fns@
    &&& post.dags@ == pre.dags@
    &&& post.requests@ == pre.requests@
    &&& post.node_speeds@ == pre.node_speeds@
    &&& post.scale_cmds@ == pre.scale_cmds@
    &&& post.done_requests@ == pre.done_requests@
    &&& post.current_frame == pre.current_frame
    &&& post.env_id@ == pre.env_id@
    &&& post.hpa_action == pre.hpa_action
    &&& post.distance2hpa == pre.distance2hpa
    &&& post.nodes@.len() == pre.nodes@.len()
    &&& forall|i: int|
        0 <= i < pre.nodes@.len() ==> {
            let on = #[trigger] pre.nodes@[i];
            let nn = post.nodes@[i];
            &&& nn.node_id == on.node_id
            &&& nn.rsc_limit == on.rsc_limit
            &&& nn.cpu == on.cpu
            &&& nn.mem == on.mem
            &&& nn.frame_run_count == on.frame_run_count
            &&& nn.fn_containers@.len() == on.fn_containers@.len()
            &&& forall|j: int|
                0 <= j < on.fn_containers@.len() ==> {
                    let oc = #[trigger] on.fn_containers@[j];
                    let nc = nn.fn_containers@[j];
                    &&& nc.fn_id == oc.fn_id
                    &&& nc.state == oc.state
                    &&& nc.cpu_alloced == oc.cpu_alloced
                    &&& nc.cpu_used == oc.cpu_used
                    &&& nc.this_frame_used == (oc.this_frame_used || container_has_pending_cross(
                        oc,
                        i,
                    ))
                    &&& nc.req_fn_state@.len() == oc.req_fn_state@.len()
                    &&& forall|k: int|
                        0 <= k < oc.req_fn_state@.len() ==> {
                            let ot = #[trigger] oc.req_fn_state@[k];
                            let nt = nc.req_fn_state@[k];
                            &&& nt.0 == ot.0
                            &&& nt.1.left_calc == ot.1.left_calc
                            &&& nt.1.data_recv@.len() == ot.1.data_recv@.len()
                            &&& forall|s: int|
                                0 <= s < ot.1.data_recv@.len() ==> #[trigger] nt.1.data_recv@[s]
                                    == (match ot.1.data_recv@[s] {
                                    Some(e) => Some(entry_post(pre, i, s, e)),
                                    None => Option::<DataRecv>::None,
                                })
                        }
                }
        }
}

/// Law: idempotent transfer completion. Once an edge shows
/// `received >= required`, a transfer frame never changes it again — in
/// particular it never increases it and never re-triggers the completion
/// jump.
pub proof fn lemma_idempotent_transfer_completion(env: SimEnv, i: int, s: int, e: DataRecv)
    requires
        e.spec_done(),
    ensures
        entry_post(env, i, s, e) == e,
{
}


/// Finishing an inner pass at `(x, x)` is the same position as starting
/// the next outer pass at `(x + 1, 0)`.
pub proof fn lemma_pairs_upto_shift(pre: SimEnv, cur: SimEnv, x: int)
    requires
        0 <= x,
        pairs_upto(pre, cur, x, x),
    ensures
        pairs_upto(pre, cur, x + 1, 0),
{
    assert forall|i: int|
        0 <= i < pre.nodes@.len() implies {
        let on = #[trigger] pre.nodes@[i];
        let nn = cur.nodes@[i];
        forall|j: int|
            0 <= j < on.fn_containers@.len() ==> {
                let oc = #[trigger] on.fn_containers@[j];
                let nc = nn.fn_containers@[j];
                &&& nc.this_frame_used == (oc.this_frame_used || exists|k: int, s: int|
                    0 <= k < oc.req_fn_state@.len() && 0 <= s < pre.nodes@.len() && s != i
                        && pair_done(
                        if i > s {
                            i
                        } else {
                            s
                        },
                        if i > s {
                            s
                        } else {
                            i
                        },
                        x + 1,
                        0,
                    ) && #[trigger] entry_pending(oc.req_fn_state@[k].1, s))
                &&& forall|k: int|
                    0 <= k < oc.req_fn_state@.len() ==> {
                        let ot = #[trigger] oc.req_fn_state@[k];
                        let nt = nc.req_fn_state@[k];
                        forall|s: int|
                            0 <= s < ot.1.data_recv@.len() ==> #[trigger] nt.1.data_recv@[s] == (
                            if s == i {
                                local_done_entry(ot.1.data_recv@[s])
                            } else if pair_done(
                                if i > s {
                                    i
                                } else {
                                    s
                                },
                                if i > s {
                                    s
                                } else {
                                    i
                                },
                                x + 1,
                                0,
                            ) {
                                match ot.1.data_recv@[s] {
                                    Some(e) => Some(entry_post(pre, i, s, e)),
                                    None => Option::<DataRecv>::None,
                                }
                            } else {
                                ot.1.data_recv@[s]
                            })
                    }
            }
    } by {
        let on = pre.nodes@[i];
        let nn = cur.nodes@[i];
        assert forall|j: int|
            0 <= j < on.fn_containers@.len() implies (#[trigger] nn.fn_containers@[j]).this_frame_used
            == (on.fn_containers@[j].this_frame_used || exists|k: int, s: int|
            0 <= k < on.fn_containers@[j].req_fn_state@.len() && 0 <= s < pre.nodes@.len() && s != i
                && pair_done(
                if i > s {
                    i
                } else {
                    s
                },
                if i > s {
                    s
                } else {
                    i
                },
                x + 1,
                0,
            ) && #[trigger] entry_pending(on.fn_containers@[j].req_fn_state@[k].1, s)) by {
            let oc = on.fn_containers@[j];
            let e_a = exists|k: int, s: int|
                0 <= k < oc.req_fn_state@.len() && 0 <= s < pre.nodes@.len() && s != i && pair_done(
                    if i > s {
                        i
                    } else {
                        s
                    },
                    if i > s {
                        s
                    } else {
                        i
                    },
                    x,
                    x,
                ) && #[trigger] entry_pending(oc.req_fn_state@[k].1, s);
            let e_b = exists|k: int, s: int|
                0 <= k < oc.req_fn_state@.len() && 0 <= s < pre.nodes@.len() && s != i && pair_done(
                    if i > s {
                        i
                    } else {
                        s
                    },
                    if i > s {
                        s
                    } else {
                        i
                    },
                    x + 1,
                    0,
                ) && #[trigger] entry_pending(oc.req_fn_state@[k].1, s);
            if e_a {
                let (k, s) = choose|k: int, s: int|
                    0 <= k < oc.req_fn_state@.len() && 0 <= s < pre.nodes@.len() && s != i
                        && pair_done(
                        if i > s {
                            i
                        } else {
                            s
                        },
                        if i > s {
                            s
                        } else {
                            i
                        },
                        x,
                        x,
                    ) && #[trigger] entry_pending(oc.req_fn_state@[k].1, s);
                assert(e_b);
            }
            if e_b {
                let (k, s) = choose|k: int, s: int|
                    0 <= k < oc.req_fn_state@.len() && 0 <= s < pre.nodes@.len() && s != i
                        && pair_done(
                        if i > s {
                            i
                        } else {
                            s
                        },
                        if i > s {
                            s
                        } else {
                            i
                        },
                        x + 1,
                        0,
                    ) && #[trigger] entry_pending(oc.req_fn_state@[k].1, s);
                assert(e_a);
            }
        }
    }
}

/// After the pairwise pass handled every pair, one whole transfer frame
/// has happened.
pub proof fn lemma_pairs_upto_final(pre: SimEnv, post: SimEnv)
    requires
        pre.wf(),
        pairs_upto(pre, post, pre.nodes@.len() as int, 0),
    ensures
        transfer_effect(pre, post),
{
    assert forall|i: int|
        0 <= i < pre.nodes@.len() implies {
        let on = #[trigger] pre.nodes@[i];
        let nn = post.nodes@[i];
        forall|j: int|
            0 <= j < on.fn_containers@.len() ==> {
                let oc = #[trigger] on.fn_containers@[j];
                let nc = nn.fn_containers@[j];
                &&& nc.this_frame_used == (oc.this_frame_used || container_has_pending_cross(
                    oc,
                    i,
                ))
                &&& forall|k: int|
                    0 <= k < oc.req_fn_state@.len() ==> {
                        let ot = #[trigger] oc.req_fn_state@[k];
                        let nt = nc.req_fn_state@[k];
                        forall|s: int|
                            0 <= s < ot.1.data_recv@.len() ==> #[trigger] nt.1.data_recv@[s] == (
                            match ot.1.data_recv@[s] {
                                Some(e) => Some(entry_post(pre, i, s, e)),
                                None => Option::<DataRecv>::None,
                            })
                    }
            }
    } by {
        let n = pre.nodes@.len() as int;
        let on = pre.nodes@[i];
        let nn = post.nodes@[i];
        assert(on.wf(i, pre.fns@, pre.nodes@.len() as nat));
        assert forall|j: int|
            0 <= j < on.fn_containers@.len() implies {
            let oc = #[trigger] on.fn_containers@[j];
            let nc = nn.fn_containers@[j];
            &&& nc.this_frame_used == (oc.this_frame_used || container_has_pending_cross(oc, i))
            &&& forall|k: int|
                0 <= k < oc.req_fn_state@.len() ==> {
                    let ot = #[trigger] oc.req_fn_state@[k];
                    let nt = nc.req_fn_state@[k];
                    forall|s: int|
                        0 <= s < ot.1.data_recv@.len() ==> #[trigger] nt.1.data_recv@[s] == (match ot.1.data_recv@[s] {
                            Some(e) => Some(entry_post(pre, i, s, e)),
                            None => Option::<DataRecv>::None,
                        })
                }
        } by {
            let oc = on.fn_containers@[j];
            let nc = nn.fn_containers@[j];
            assert(oc.wf(pre.fns@, pre.nodes@.len() as nat));
            assert forall|k: int|
                0 <= k < oc.req_fn_state@.len() implies {
                let ot = #[trigger] oc.req_fn_state@[k];
                let nt = nc.req_fn_state@[k];
                forall|s: int|
                    0 <= s < ot.1.data_recv@.len() ==> #[trigger] nt.1.data_recv@[s] == (match ot.1.data_recv@[s] {
                        Some(e) => Some(entry_post(pre, i, s, e)),
                        None => Option::<DataRecv>::None,
                    })
            } by {
                let ot = oc.req_fn_state@[k];
                let nt = nc.req_fn_state@[k];
                assert(ot.1.wf(pre.nodes@.len() as nat));
                assert forall|s: int|
                    0 <= s < ot.1.data_recv@.len() implies #[trigger] nt.1.data_recv@[s] == (
                match ot.1.data_recv@[s] {
                    Some(e) => Some(entry_post(pre, i, s, e)),
                    None => Option::<DataRecv>::None,
                }) by {
                    if s != i {
                        assert(pair_done(
                            if i > s {
                                i
                            } else {
                                s
                            },
                            if i > s {
                                s
                            } else {
                                i
                            },
                            n,
                            0,
                        ));
                    }
                }
            }
            let e_all = exists|k: int, s: int|
                0 <= k < oc.req_fn_state@.len() && 0 <= s < pre.nodes@.len() && s != i && pair_done(
                    if i > s {
                        i
                    } else {
                        s
                    },
                    if i > s {
                        s
                    } else {
                        i
                    },
                    n,
                    0,
                ) && #[trigger] entry_pending(oc.req_fn_state@[k].1, s);
            if e_all {
                let (k, s) = choose|k: int, s: int|
                    0 <= k < oc.req_fn_state@.len() && 0 <= s < pre.nodes@.len() && s != i
                        && pair_done(
                        if i > s {
                            i
                        } else {
                            s
                        },
                        if i > s {
                            s
                        } else {
                            i
                        },
                        n,
                        0,
                    ) && #[trigger] entry_pending(oc.req_fn_state@[k].1, s);
                assert(container_has_pending_cross(oc, i));
            }
            if container_has_pending_cross(oc, i) {
                let (k, s) = choose|k: int, s: int|
                    0 <= k < oc.req_fn_state@.len() && s != i && #[trigger] entry_pending(
                        oc.req_fn_state@[k].1,
                        s,
                    );
                assert(oc.req_fn_state@[k].1.wf(pre.nodes@.len() as nat));
                assert(0 <= s < pre.nodes@.len());
                assert(pair_done(
                    if i > s {
                        i
                    } else {
                        s
                    },
                    if i > s {
                        s
                    } else {
                        i
                    },
                    n,
                    0,
                ));
                assert(e_all);
            }
            assert(nc.this_frame_used == (oc.this_frame_used || container_has_pending_cross(
                oc,
                i,
            )));
        }
    }
}

/// A node stays well-formed after its same-node edges complete.
pub proof fn lemma_node_local_wf(on: Node, nn: Node, i: int, fns: Seq<Func>, n_nodes: nat)
    requires
        on.wf(i, fns, n_nodes),
        node_local_post(on, nn),
    ensures
        nn.wf(i, fns, n_nodes),
{
    assert forall|j: int|
        0 <= j < on.fn_containers@.len() implies (#[trigger] nn.fn_containers@[j]).fn_id
        == on.fn_containers@[j].fn_id && nn.fn_containers@[j].state
        == on.fn_containers@[j].state by {}
    crate::model::lemma_containers_mem_congruence(on.fn_containers@, nn.fn_containers@, fns);
    assert forall|j: int|
        0 <= j < nn.fn_containers@.len() implies (#[trigger] nn.fn_containers@[j]).wf(
        fns,
        n_nodes,
    ) by {
        let oc = on.fn_containers@[j];
        let nc = nn.fn_containers@[j];
        assert(oc.wf(fns, n_nodes));
        assert forall|k: int|
            0 <= k < nc.req_fn_state@.len() implies (#[trigger] nc.req_fn_state@[k]).1.wf(
            n_nodes,
        ) by {
            let ot = oc.req_fn_state@[k];
            let nt = nc.req_fn_state@[k];
            assert(ot.1.wf(n_nodes));
            assert forall|s2: int|
                0 <= s2 < nt.1.data_recv@.len() && (#[trigger] nt.1.data_recv@[s2]) is Some implies nt.1.data_recv@[s2]->0.wf() by {
                assert(nt.1.data_recv@[s2] == (if s2 == on.node_id {
                    local_done_entry(ot.1.data_recv@[s2])
                } else {
                    ot.1.data_recv@[s2]
                }));
                assert(ot.1.data_recv@[s2] is Some ==> ot.1.data_recv@[s2]->0.wf());
            }
        }
        assert forall|k1: int, k2: int|
            0 <= k1 < k2 < nc.req_fn_state@.len() implies nc.req_fn_state@[k1].0
            != nc.req_fn_state@[k2].0 by {
            assert(nc.req_fn_state@[k1].0 == oc.req_fn_state@[k1].0);
            assert(nc.req_fn_state@[k2].0 == oc.req_fn_state@[k2].0);
        }
    }
}

/// One handled pair extends the pairwise pass by exactly that pair.
pub proof fn lemma_pairs_upto_step(pre: SimEnv, cur: SimEnv, post: SimEnv, x: int, y: int)
    requires
        pre.wf(),
        0 <= y < x < pre.nodes@.len(),
        pairs_upto(pre, cur, x, y),
        post.fns@ == cur.fns@,
        post.dags@ == cur.dags@,
        post.requests@ == cur.requests@,
        post.node_speeds@ == cur.node_speeds@,
        post.scale_cmds@ == cur.scale_cmds@,
        post.done_requests@ == cur.done_requests@,
        post.current_frame == cur.current_frame,
        post.env_id@ == cur.env_id@,
        post.hpa_action == cur.hpa_action,
        post.distance2hpa == cur.distance2hpa,
        post.nodes@.len() == cur.nodes@.len(),
        forall|i: int|
            0 <= i < cur.nodes@.len() && i != x && i != y ==> post.nodes@[i] == cur.nodes@[i],
        node_share_post(cur.nodes@[x], post.nodes@[x], y, spec_share(pre, x, y)),
        node_share_post(cur.nodes@[y], post.nodes@[y], x, spec_share(pre, y, x)),
    ensures
        pairs_upto(pre, post, x, y + 1),
{
    assert forall|i: int|
        0 <= i < pre.nodes@.len() implies {
        let on = #[trigger] pre.nodes@[i];
        let nn = post.nodes@[i];
        &&& nn.node_id == on.node_id
        &&& nn.rsc_limit == on.rsc_limit
        &&& nn.cpu == on.cpu
        &&& nn.mem == on.mem
        &&& nn.frame_run_count == on.frame_run_count
        &&& nn.fn_containers@.len() == on.fn_containers@.len()
        &&& forall|j: int|
            0 <= j < on.fn_containers@.len() ==> {
                let oc = #[trigger] on.fn_containers@[j];
                let nc = nn.fn_containers@[j];
                &&& nc.fn_id == oc.fn_id
                &&& nc.state == oc.state
                &&& nc.cpu_alloced == oc.cpu_alloced
                &&& nc.cpu_used == oc.cpu_used
                &&& nc.this_frame_used == (oc.this_frame_used || exists|k: int, s: int|
                    0 <= k < oc.req_fn_state@.len() && 0 <= s < pre.nodes@.len() && s != i
                        && pair_done(
                        if i > s {
                            i
                        } else {
                            s
                        },
                        if i > s {
                            s
                        } else {
                            i
                        },
                        x,
                        y + 1,
                    ) && #[trigger] entry_pending(oc.req_fn_state@[k].1, s))
                &&& nc.req_fn_state@.len() == oc.req_fn_state@.len()
                &&& forall|k: int|
                    0 <= k < oc.req_fn_state@.len() ==> {
                        let ot = #[trigger] oc.req_fn_state@[k];
                        let nt = nc.req_fn_state@[k];
                        &&& nt.0 == ot.0
                        &&& nt.1.left_calc == ot.1.left_calc
                        &&& nt.1.data_recv@.len() == ot.1.data_recv@.len()
                        &&& forall|s: int|
                            0 <= s < ot.1.data_recv@.len() ==> #[trigger] nt.1.data_recv@[s] == (
                            if s == i {
                                local_done_entry(ot.1.data_recv@[s])
                            } else if pair_done(
                                if i > s {
                                    i
                                } else {
                                    s
                                },
                                if i > s {
                                    s
                                } else {
                                    i
                                },
                                x,
                                y + 1,
                            ) {
                                match ot.1.data_recv@[s] {
                                    Some(e) => Some(entry_post(pre, i, s, e)),
                                    None => Option::<DataRecv>::None,
                                }
                            } else {
                                ot.1.data_recv@[s]
                            })
                    }
            }
    } by {
        let on = pre.nodes@[i];
        let cn = cur.nodes@[i];
        let nn = post.nodes@[i];
        if i != x && i != y {
            assert(nn == cn);
            assert forall|j: int|
                0 <= j < on.fn_containers@.len() implies (#[trigger] nn.fn_containers@[j]).this_frame_used
                == (on.fn_containers@[j].this_frame_used || exists|k: int, s: int|
                0 <= k < on.fn_containers@[j].req_fn_state@.len() && 0 <= s < pre.nodes@.len() && s
                    != i && pair_done(
                    if i > s {
                        i
                    } else {
                        s
                    },
                    if i > s {
                        s
                    } else {
                        i
                    },
                    x,
                    y + 1,
                ) && #[trigger] entry_pending(on.fn_containers@[j].req_fn_state@[k].1, s)) by {
                let oc = on.fn_containers@[j];
                if exists|k: int, s: int|
                    0 <= k < oc.req_fn_state@.len() && 0 <= s < pre.nodes@.len() && s != i
                        && pair_done(
                        if i > s {
                            i
                        } else {
                            s
                        },
                        if i > s {
                            s
                        } else {
                            i
                        },
                        x,
                        y + 1,
                    ) && #[trigger] entry_pending(oc.req_fn_state@[k].1, s) {
                    let (k, s) = choose|k: int, s: int|
                        0 <= k < oc.req_fn_state@.len() && 0 <= s < pre.nodes@.len() && s != i
                            && pair_done(
                            if i > s {
                                i
                            } else {
                                s
                            },
                            if i > s {
                                s
                            } else {
                                i
                            },
                            x,
                            y + 1,
                        ) && #[trigger] entry_pending(oc.req_fn_state@[k].1, s);
                    assert(pair_done(
                        if i > s {
                            i
                        } else {
                            s
                        },
                        if i > s {
                            s
                        } else {
                            i
                        },
                        x,
                        y,
                    ));
                }
            }
        } else {
            let src: int = if i == x {
                y
            } else {
                x
            };
            let sh = if i == x {
                spec_share(pre, x, y)
            } else {
                spec_share(pre, y, x)
            };
            assert(node_share_post(cn, nn, src, sh));
            assert forall|j: int|
                0 <= j < on.fn_containers@.len() implies {
                let oc = #[trigger] on.fn_containers@[j];
                let nc = nn.fn_containers@[j];
                &&& nc.fn_id == oc.fn_id
                &&& nc.state == oc.state
                &&& nc.cpu_alloced == oc.cpu_alloced
                &&& nc.cpu_used == oc.cpu_used
                &&& nc.this_frame_used == (oc.this_frame_used || exists|k: int, s: int|
                    0 <= k < oc.req_fn_state@.len() && 0 <= s < pre.nodes@.len() && s != i
                        && pair_done(
                        if i > s {
                            i
                        } else {
                            s
                        },
                        if i > s {
                            s
                        } else {
                            i
                        },
                        x,
                        y + 1,
                    ) && #[trigger] entry_pending(oc.req_fn_state@[k].1, s))
                &&& nc.req_fn_state@.len() == oc.req_fn_state@.len()
                &&& forall|k: int|
                    0 <= k < oc.req_fn_state@.len() ==> {
                        let ot = #[trigger] oc.req_fn_state@[k];
                        let nt = nc.req_fn_state@[k];
                        &&& nt.0 == ot.0
                        &&& nt.1.left_calc == ot.1.left_calc
                        &&& nt.1.data_recv@.len() == ot.1.data_recv@.len()
                        &&& forall|s: int|
                            0 <= s < ot.1.data_recv@.len() ==> #[trigger] nt.1.data_recv@[s] == (
                            if s == i {
                                local_done_entry(ot.1.data_recv@[s])
                            } else if pair_done(
                                if i > s {
                                    i
                                } else {
                                    s
                                },
                                if i > s {
                                    s
                                } else {
                                    i
                                },
                                x,
                                y + 1,
                            ) {
                                match ot.1.data_recv@[s] {
                                    Some(e) => Some(entry_post(pre, i, s, e)),
                                    None => Option::<DataRecv>::None,
                                }
                            } else {
                                ot.1.data_recv@[s]
                            })
                    }
            } by {
                let oc = on.fn_containers@[j];
                let cc = cn.fn_containers@[j];
                let nc = nn.fn_containers@[j];
                assert(container_share_post(cc, nc, src, sh));
                assert forall|k: int|
                    0 <= k < oc.req_fn_state@.len() implies {
                    let ot = #[trigger] oc.req_fn_state@[k];
                    let nt = nc.req_fn_state@[k];
                    &&& nt.0 == ot.0
                    &&& nt.1.left_calc == ot.1.left_calc
                    &&& nt.1.data_recv@.len() == ot.1.data_recv@.len()
                    &&& forall|s: int|
                        0 <= s < ot.1.data_recv@.len() ==> #[trigger] nt.1.data_recv@[s] == (if s
                            == i {
                            local_done_entry(ot.1.data_recv@[s])
                        } else if pair_done(
                            if i > s {
                                i
                            } else {
                                s
                            },
                            if i > s {
                                s
                            } else {
                                i
                            },
                            x,
                            y + 1,
                        ) {
                            match ot.1.data_recv@[s] {
                                Some(e) => Some(entry_post(pre, i, s, e)),
                                None => Option::<DataRecv>::None,
                            }
                        } else {
                            ot.1.data_recv@[s]
                        })
                } by {
                    let ot = oc.req_fn_state@[k];
                    let ct = cc.req_fn_state@[k];
                    let nt = nc.req_fn_state@[k];
                    assert(task_share_post(ct, nt, src, sh));
                    assert forall|s: int|
                        0 <= s < ot.1.data_recv@.len() implies #[trigger] nt.1.data_recv@[s] == (
                    if s == i {
                        local_done_entry(ot.1.data_recv@[s])
                    } else if pair_done(
                        if i > s {
                            i
                        } else {
                            s
                        },
                        if i > s {
                            s
                        } else {
                            i
                        },
                        x,
                        y + 1,
                    ) {
                        match ot.1.data_recv@[s] {
                            Some(e) => Some(entry_post(pre, i, s, e)),
                            None => Option::<DataRecv>::None,
                        }
                    } else {
                        ot.1.data_recv@[s]
                    }) by {
                        assert(ct.1.data_recv@[s] == (if s == i {
                            local_done_entry(ot.1.data_recv@[s])
                        } else if pair_done(
                            if i > s {
                                i
                            } else {
                                s
                            },
                            if i > s {
                                s
                            } else {
                                i
                            },
                            x,
                            y,
                        ) {
                            match ot.1.data_recv@[s] {
                                Some(e) => Some(entry_post(pre, i, s, e)),
                                None => Option::<DataRecv>::None,
                            }
                        } else {
                            ot.1.data_recv@[s]
                        }));
                        if s == src {
                            assert(!pair_done(x, y, x, y));
                            assert(nt.1.data_recv@[s] == share_entry(ct.1.data_recv@[s], sh));
                        }
                    }
                }
                // the used flag gains exactly the new pair's pending edges
                let e_new = exists|k: int, s: int|
                    0 <= k < oc.req_fn_state@.len() && 0 <= s < pre.nodes@.len() && s != i
                        && pair_done(
                        if i > s {
                            i
                        } else {
                            s
                        },
                        if i > s {
                            s
                        } else {
                            i
                        },
                        x,
                        y + 1,
                    ) && #[trigger] entry_pending(oc.req_fn_state@[k].1, s);
                let e_old = exists|k: int, s: int|
                    0 <= k < oc.req_fn_state@.len() && 0 <= s < pre.nodes@.len() && s != i
                        && pair_done(
                        if i > s {
                            i
                        } else {
                            s
                        },
                        if i > s {
                            s
                        } else {
                            i
                        },
                        x,
                        y,
                    ) && #[trigger] entry_pending(oc.req_fn_state@[k].1, s);
                let p_src = exists|k: int|
                    0 <= k < cc.req_fn_state@.len() && entry_pending(
                        #[trigger] cc.req_fn_state@[k].1,
                        src,
                    );
                let p_src_pre = exists|k: int|
                    0 <= k < oc.req_fn_state@.len() && entry_pending(
                        #[trigger] oc.req_fn_state@[k].1,
                        src,
                    );
                assert(nc.this_frame_used == (cc.this_frame_used || p_src));
                if p_src {
                    let k = choose|k: int|
                        0 <= k < cc.req_fn_state@.len() && entry_pending(
                            #[trigger] cc.req_fn_state@[k].1,
                            src,
                        );
                    assert(!pair_done(x, y, x, y));
                    assert(cc.req_fn_state@[k].1.data_recv@[src]
                        == oc.req_fn_state@[k].1.data_recv@[src]);
                    assert(entry_pending(oc.req_fn_state@[k].1, src));
                    assert(p_src_pre);
                }
                if p_src_pre {
                    let k = choose|k: int|
                        0 <= k < oc.req_fn_state@.len() && entry_pending(
                            #[trigger] oc.req_fn_state@[k].1,
                            src,
                        );
                    assert(!pair_done(x, y, x, y));
                    assert(cc.req_fn_state@[k].1.data_recv@[src]
                        == oc.req_fn_state@[k].1.data_recv@[src]);
                    assert(entry_pending(cc.req_fn_state@[k].1, src));
                    assert(p_src);
                }
                if e_old {
                    let (k, s) = choose|k: int, s: int|
                        0 <= k < oc.req_fn_state@.len() && 0 <= s < pre.nodes@.len() && s != i
                            && pair_done(
                            if i > s {
                                i
                            } else {
                                s
                            },
                            if i > s {
                                s
                            } else {
                                i
                            },
                            x,
                            y,
                        ) && #[trigger] entry_pending(oc.req_fn_state@[k].1, s);
                    assert(e_new);
                }
                if p_src_pre {
                    let k = choose|k: int|
                        0 <= k < oc.req_fn_state@.len() && entry_pending(
                            #[trigger] oc.req_fn_state@[k].1,
                            src,
                        );
                    assert(pair_done(
                        if i > src {
                            i
                        } else {
                            src
                        },
                        if i > src {
                            src
                        } else {
                            i
                        },
                        x,
                        y + 1,
                    ));
                    assert(e_new);
                }
                if e_new {
                    let (k, s) = choose|k: int, s: int|
                        0 <= k < oc.req_fn_state@.len() && 0 <= s < pre.nodes@.len() && s != i
                            && pair_done(
                            if i > s {
                                i
                            } else {
                                s
                            },
                            if i > s {
                                s
                            } else {
                                i
                            },
                            x,
                            y + 1,
                        ) && #[trigger] entry_pending(oc.req_fn_state@[k].1, s);
                    if s == src {
                        assert(p_src_pre);
                    } else {
                        assert(pair_done(
                            if i > s {
                                i
                            } else {
                                s
                            },
                            if i > s {
                                s
                            } else {
                                i
                            },
                            x,
                            y,
                        ));
                        assert(e_old);
                    }
                }
                assert(nc.this_frame_used == (oc.this_frame_used || e_new));
            }
        }
    }
}

/// A node stays well-formed after every pending edge from one source
/// received a bounded share.
pub proof fn lemma_node_share_wf(
    on: Node,
    nn: Node,
    i: int,
    src: int,
    share: int,
    fns: Seq<Func>,
    n_nodes: nat,
)
    requires
        on.wf(i, fns, n_nodes),
        node_share_post(on, nn, src, share),
        0 <= share <= RES_MAX,
    ensures
        nn.wf(i, fns, n_nodes),
{
    assert forall|j: int|
        0 <= j < on.fn_containers@.len() implies (#[trigger] nn.fn_containers@[j]).fn_id
        == on.fn_containers@[j].fn_id && nn.fn_containers@[j].state
        == on.fn_containers@[j].state by {
        assert(container_share_post(on.fn_containers@[j], nn.fn_containers@[j], src, share));
    }
    crate::model::lemma_containers_mem_congruence(on.fn_containers@, nn.fn_containers@, fns);
    assert forall|j: int|
        0 <= j < nn.fn_containers@.len() implies (#[trigger] nn.fn_containers@[j]).wf(
        fns,
        n_nodes,
    ) by {
        let oc = on.fn_containers@[j];
        let nc = nn.fn_containers@[j];
        assert(oc.wf(fns, n_nodes));
        assert(container_share_post(oc, nc, src, share));
        assert forall|k: int|
            0 <= k < nc.req_fn_state@.len() implies (#[trigger] nc.req_fn_state@[k]).1.wf(
            n_nodes,
        ) by {
            let ot = oc.req_fn_state@[k];
            let nt = nc.req_fn_state@[k];
            assert(task_share_post(ot, nt, src, share));
            assert(ot.1.wf(n_nodes));
            assert forall|s2: int|
                0 <= s2 < nt.1.data_recv@.len() && (#[trigger] nt.1.data_recv@[s2]) is Some implies nt.1.data_recv@[s2]->0.wf() by {
                assert(nt.1.data_recv@[s2] == (if s2 == src {
                    share_entry(ot.1.data_recv@[s2], share)
                } else {
                    ot.1.data_recv@[s2]
                }));
                assert(ot.1.data_recv@[s2] is Some ==> ot.1.data_recv@[s2]->0.wf());
            }
        }
        assert forall|k1: int, k2: int|
            0 <= k1 < k2 < nc.req_fn_state@.len() implies nc.req_fn_state@[k1].0
            != nc.req_fn_state@[k2].0 by {
            assert(task_share_post(oc.req_fn_state@[k1], nc.req_fn_state@[k1], src, share));
            assert(task_share_post(oc.req_fn_state@[k2], nc.req_fn_state@[k2], src, share));
        }
    }
}

impl SimEnv {
    /// Simulate this frame's data movement over the one physical link
    /// between two nodes: count the pending paths crossing it in either
    /// direction, divide the link's total bandwidth equally among them,
    /// and hand each path its share, marking the receiving containers
    /// used.
    fn sim_transfer_btwn_nodes(&mut self, node_a: NodeId, node_b: NodeId)
        requires
            old(self).wf(),
            (node_b as int) < node_a as int,
            (node_a as int) < old(self).nodes@.len(),
        ensures
            final(self).wf(),
            final(self).fns@ == old(self).fns@,
            final(self).dags@ == old(self).dags@,
            final(self).requests@ == old(self).requests@,
            final(self).node_speeds@ == old(self).node_speeds@,
            final(self).scale_cmds@ == old(self).scale_cmds@,
            final(self).done_requests@ == old(self).done_requests@,
            final(self).current_frame == old(self).current_frame,
            final(self).env_id@ == old(self).env_id@,
            final(self).hpa_action == old(self).hpa_action,
            final(self).distance2hpa == old(self).distance2hpa,
            final(self).nodes@.len() == old(self).nodes@.len(),
            forall|i: int|
                0 <= i < old(self).nodes@.len() && i != node_a && i != node_b
                    ==> final(self).nodes@[i] == old(self).nodes@[i],
            node_share_post(
                old(self).nodes@[node_a as int],
                final(self).nodes@[node_a as int],
                node_b as int,
                spec_pair_share(*old(self), node_a as int, node_b as int),
            ),
            node_share_post(
                old(self).nodes@[node_b as int],
                final(self).nodes@[node_b as int],
                node_a as int,
                spec_pair_share(*old(self), node_a as int, node_b as int),
            ),
    {
        let ghost pre = *self;
        proof {
            assert forall|i2: int, j: int|
                (i2 == node_a || i2 == node_b) && 0 <= j
                    < pre.nodes@[i2].fn_containers@.len() implies (#[trigger] pre.nodes@[i2].fn_containers@[j]).req_fn_state@.len()
                <= REQ_CAP && pre.nodes@[i2].fn_containers@.len() <= IDX_MAX by {
                crate::env::lemma_task_counts(pre, i2, j);
            }
            if pre.nodes@[node_a as int].fn_containers@.len() == 0 {
                assert(node_pending_from(pre.nodes@[node_a as int].fn_containers@, node_b as int)
                    == 0);
            }
            if pre.nodes@[node_b as int].fn_containers@.len() == 0 {
                assert(node_pending_from(pre.nodes@[node_b as int].fn_containers@, node_a as int)
                    == 0);
            }
            lemma_nonneg_node_pending(pre.nodes@[node_a as int].fn_containers@, node_b as int);
            lemma_nonneg_node_pending(pre.nodes@[node_b as int].fn_containers@, node_a as int);
            lemma_node_pending_bound(
                pre.nodes@[node_a as int].fn_containers@,
                node_b as int,
                REQ_CAP as int,
            );
            lemma_node_pending_bound(
                pre.nodes@[node_b as int].fn_containers@,
                node_a as int,
                REQ_CAP as int,
            );
            assert(pre.nodes@[node_a as int].fn_containers@.len() * (REQ_CAP as int) <= (
            IDX_MAX as int) * (REQ_CAP as int)) by (nonlinear_arith)
                requires
                    0 <= pre.nodes@[node_a as int].fn_containers@.len() <= IDX_MAX,
            ;
            assert(pre.nodes@[node_b as int].fn_containers@.len() * (REQ_CAP as int) <= (
            IDX_MAX as int) * (REQ_CAP as int)) by (nonlinear_arith)
                requires
                    0 <= pre.nodes@[node_b as int].fn_containers@.len() <= IDX_MAX,
            ;
        }
        let send_paths = node_collect_paths(&self.nodes[node_b], node_a);
        let recv_paths = node_collect_paths(&self.nodes[node_a], node_b);
        let trans = NodeTrans { send_paths, recv_paths };
        let cnt = trans.path_cnt();
        proof {
            assert(cnt == paths_btwn(pre, node_a as int, node_b as int));
        }
        if cnt > 0 {
            let total_bandwith = self.node_get_speed_btwn(node_a, node_b);
            let each_path_bandwith = total_bandwith / cnt;
            let ghost share = spec_pair_share(pre, node_a as int, node_b as int);
            proof {
                assert(each_path_bandwith == share);
                assert forall|j: int, k: int|
                    0 <= j < pre.nodes@[node_a as int].fn_containers@.len() && 0 <= k
                        < pre.nodes@[node_a as int].fn_containers@[j].req_fn_state@.len() implies (
                #[trigger] pre.nodes@[node_a as int].fn_containers@[j].req_fn_state@[k]).1.wf(
                    pre.nodes@[node_a as int].fn_containers@[j].req_fn_state@[k].1.data_recv@.len()
                        as nat,
                ) by {
                    assert(pre.nodes@[node_a as int].wf(
                        node_a as int,
                        pre.fns@,
                        pre.nodes@.len() as nat,
                    ));
                    assert(pre.nodes@[node_a as int].fn_containers@[j].wf(
                        pre.fns@,
                        pre.nodes@.len() as nat,
                    ));
                }
                assert forall|j: int, k: int|
                    0 <= j < pre.nodes@[node_b as int].fn_containers@.len() && 0 <= k
                        < pre.nodes@[node_b as int].fn_containers@[j].req_fn_state@.len() implies (
                #[trigger] pre.nodes@[node_b as int].fn_containers@[j].req_fn_state@[k]).1.wf(
                    pre.nodes@[node_b as int].fn_containers@[j].req_fn_state@[k].1.data_recv@.len()
                        as nat,
                ) by {
                    assert(pre.nodes@[node_b as int].wf(
                        node_b as int,
                        pre.fns@,
                        pre.nodes@.len() as nat,
                    ));
                    assert(pre.nodes@[node_b as int].fn_containers@[j].wf(
                        pre.fns@,
                        pre.nodes@.len() as nat,
                    ));
                }
            }
            let mut na = self.nodes.remove(node_a);
            node_apply_share(&mut na, node_b, each_path_bandwith);
            self.nodes.insert(node_a, na);
            let mut nb = self.nodes.remove(node_b);
            node_apply_share(&mut nb, node_a, each_path_bandwith);
            self.nodes.insert(node_b, nb);
            proof {
                let post = *self;
                assert(post.nodes@ =~= pre.nodes@.update(
                    node_a as int,
                    post.nodes@[node_a as int],
                ).update(node_b as int, post.nodes@[node_b as int]));
                self.lemma_share_wf(pre, node_a, node_b, share);
            }
        } else {
            proof {
                let share = spec_pair_share(pre, node_a as int, node_b as int);
                assert(share == 0);
                assert forall|i2: int|
                    i2 == node_a as int || i2 == node_b as int implies node_share_post(
                    pre.nodes@[i2],
                    pre.nodes@[i2],
                    (if i2 == node_a as int {
                        node_b as int
                    } else {
                        node_a as int
                    }),
                    0,
                ) by {
                    let src = if i2 == node_a as int {
                        node_b as int
                    } else {
                        node_a as int
                    };
                    let on = pre.nodes@[i2];
                    assert forall|j: int|
                        0 <= j < on.fn_containers@.len() implies container_share_post(
                        #[trigger] on.fn_containers@[j],
                        on.fn_containers@[j],
                        src,
                        0,
                    ) by {
                        let oc = on.fn_containers@[j];
                        lemma_node_pending_component(on.fn_containers@, src, j);
                        lemma_tasks_pending_bound(oc.req_fn_state@, src);
                        lemma_tasks_pending_pos(oc.req_fn_state@, src);
                        assert(tasks_pending_from(oc.req_fn_state@, src) == 0);
                        assert forall|k: int|
                            0 <= k < oc.req_fn_state@.len() implies task_share_post(
                            #[trigger] oc.req_fn_state@[k],
                            oc.req_fn_state@[k],
                            src,
                            0,
                        ) by {
                            let ot = oc.req_fn_state@[k];
                            assert forall|s2: int|
                                0 <= s2 < ot.1.data_recv@.len() implies #[trigger] ot.1.data_recv@[s2]
                                == (if s2 == src {
                                share_entry(ot.1.data_recv@[s2], 0)
                            } else {
                                ot.1.data_recv@[s2]
                            }) by {
                                if s2 == src {
                                    match ot.1.data_recv@[s2] {
                                        Some(d) => {
                                            if !d.spec_done() {
                                                assert(entry_pending(ot.1, s2));
                                            }
                                        },
                                        None => {},
                                    }
                                }
                            }
                        }
                    }
                }
            }
        }
    }

    /// One frame of the Transfer Engine: complete every same-node edge
    /// instantly, then, for every unordered node pair, divide the link's
    /// bandwidth equally among all pending paths crossing it in either
    /// direction and hand each path its share, clamped at its requirement.
    /// An edge that is already complete is never changed again, and every
    /// container that received data is marked used.
    pub fn sim_transfers(&mut self)
        requires
            old(self).wf(),
        ensures
            final(self).wf(),
            transfer_effect(*old(self), *final(self)),
    {
        let ghost pre = *self;
        let nodes_cnt = self.nodes.len();
        // same-node edges complete instantly, consuming no link bandwidth
        let mut i: usize = 0;
        while i < nodes_cnt
            invariant
                pre.wf(),
                self.wf(),
                nodes_cnt == pre.nodes@.len(),
                i <= nodes_cnt,
                self.fns@ == pre.fns@,
                self.dags@ == pre.dags@,
                self.requests@ == pre.requests@,
                self.node_speeds@ == pre.node_speeds@,
                self.scale_cmds@ == pre.scale_cmds@,
                self.done_requests@ == pre.done_requests@,
                self.current_frame == pre.current_frame,
                self.env_id@ == pre.env_id@,
                self.hpa_action == pre.hpa_action,
                self.distance2hpa == pre.distance2hpa,
                self.nodes@.len() == pre.nodes@.len(),
                forall|i2: int|
                    0 <= i2 < i ==> node_local_post(pre.nodes@[i2], #[trigger] self.nodes@[i2]),
                forall|i2: int|
                    i <= i2 < pre.nodes@.len() ==> #[trigger] self.nodes@[i2] == pre.nodes@[i2],
            decreases nodes_cnt - i,
        {
            let ghost before = *self;
            let mut node = self.nodes.remove(i);
            node_complete_local(&mut node);
            self.nodes.insert(i, node);
            proof {
                assert(self.nodes@ =~= before.nodes@.update(i as int, self.nodes@[i as int]));
                lemma_node_local_wf(
                    pre.nodes@[i as int],
                    self.nodes@[i as int],
                    i as int,
                    pre.fns@,
                    pre.nodes@.len() as nat,
                );
                assert forall|i3: int, j: int, k: int|
                    self.valid_task_idx(i3, j, k) implies #[trigger] self.task_linked(i3, j, k) by {
                    assert(before.valid_task_idx(i3, j, k));
                    assert(before.task_linked(i3, j, k));
                    if i3 == i as int {
                        assert(self.nodes@[i3].fn_containers@[j].req_fn_state@[k].0
                            == before.nodes@[i3].fn_containers@[j].req_fn_state@[k].0);
                        assert(self.nodes@[i3].fn_containers@[j].fn_id
                            == before.nodes@[i3].fn_containers@[j].fn_id);
                    }
                }
            }
            i = i + 1;
        }
        let ghost mid = *self;
        proof {
            assert(pairs_upto(pre, mid, 0, 0));
        }
        // pairwise bandwidth sharing, each unordered pair handled once
        let mut x: usize = 0;
        while x < nodes_cnt
            invariant
                pre.wf(),
                self.wf(),
                nodes_cnt == pre.nodes@.len(),
                x <= nodes_cnt,
                pairs_upto(pre, *self, x as int, 0),
            decreases nodes_cnt - x,
        {
            let mut y: usize = 0;
            while y < x
                invariant
                    pre.wf(),
                    self.wf(),
                    nodes_cnt == pre.nodes@.len(),
                    y < x <= nodes_cnt || (y <= x <= nodes_cnt),
                    x < nodes_cnt,
                    y <= x,
                    pairs_upto(pre, *self, x as int, y as int),
                decreases x - y,
            {
                let ghost cur = *self;
                proof {
                    self.lemma_pair_counts_stable(pre, cur, x as int, y as int);
                }
                self.sim_transfer_btwn_nodes(x, y);
                proof {
                    lemma_pairs_upto_step(pre, cur, *self, x as int, y as int);
                }
                y = y + 1;
            }
            proof {
                lemma_pairs_upto_shift(pre, *self, x as int);
            }
            x = x + 1;
        }
        proof {
            lemma_pairs_upto_final(pre, *self);
        }
    }

    /// While a pair is unhandled, its pending path count is what it was in
    /// the pre state.
    proof fn lemma_pair_counts_stable(&self, pre: SimEnv, cur: SimEnv, x: int, y: int)
        requires
            pre.wf(),
            cur == *self,
            0 <= y < x < pre.nodes@.len(),
            pairs_upto(pre, cur, x, y),
        ensures
            paths_btwn(cur, x, y) == paths_btwn(pre, x, y),
            spec_pair_share(cur, x, y) == spec_share(pre, x, y),
            spec_pair_share(cur, x, y) == spec_share(pre, y, x),
    {
        let oxs = pre.nodes@[x].fn_containers@;
        let nxs = cur.nodes@[x].fn_containers@;
        let oys = pre.nodes@[y].fn_containers@;
        let nys = cur.nodes@[y].fn_containers@;
        assert forall|j: int, k: int|
            0 <= j < oxs.len() && 0 <= k < oxs[j].req_fn_state@.len() && 0 <= y
                < oxs[j].req_fn_state@[k].1.data_recv@.len() implies (
        #[trigger] nxs[j].req_fn_state@[k]).1.data_recv@[y] == oxs[j].req_fn_state@[k].1.data_recv@[y] by {
            assert(!pair_done(x, y, x, y));
        }
        lemma_node_pending_congruence(oxs, nxs, y);
        assert forall|j: int, k: int|
            0 <= j < oys.len() && 0 <= k < oys[j].req_fn_state@.len() && 0 <= x
                < oys[j].req_fn_state@[k].1.data_recv@.len() implies (
        #[trigger] nys[j].req_fn_state@[k]).1.data_recv@[x] == oys[j].req_fn_state@[k].1.data_recv@[x] by {
            assert(!pair_done(x, y, x, y));
        }
        lemma_node_pending_congruence(oys, nys, x);
    }

    /// After both ends of a pair received their share, the environment is
    /// still well-formed.
    proof fn lemma_share_wf(&self, pre: SimEnv, node_a: NodeId, node_b: NodeId, share: int)
        requires
            pre.wf(),
            (node_b as int) < node_a as int,
            (node_a as int) < pre.nodes@.len(),
            0 <= share <= RES_MAX,
            self.fns@ == pre.fns@,
            self.dags@ == pre.dags@,
            self.requests@ == pre.requests@,
            self.node_speeds@ == pre.node_speeds@,
            self.nodes@.len() == pre.nodes@.len(),
            forall|i: int|
                0 <= i < pre.nodes@.len() && i != node_a && i != node_b ==> self.nodes@[i]
                    == pre.nodes@[i],
            node_share_post(
                pre.nodes@[node_a as int],
                self.nodes@[node_a as int],
                node_b as int,
                share,
            ),
            node_share_post(
                pre.nodes@[node_b as int],
                self.nodes@[node_b as int],
                node_a as int,
                share,
            ),
        ensures
            self.wf(),
    {
        assert forall|i: int|
            0 <= i < self.nodes@.len() implies (#[trigger] self.nodes@[i]).wf(
            i,
            self.fns@,
            self.nodes@.len() as nat,
        ) by {
            assert(pre.nodes@[i].wf(i, pre.fns@, pre.nodes@.len() as nat));
            if i == node_a as int {
                lemma_node_share_wf(
                    pre.nodes@[i],
                    self.nodes@[i],
                    i,
                    node_b as int,
                    share,
                    pre.fns@,
                    pre.nodes@.len() as nat,
                );
            }
            if i == node_b as int {
                lemma_node_share_wf(
                    pre.nodes@[i],
                    self.nodes@[i],
                    i,
                    node_a as int,
                    share,
                    pre.fns@,
                    pre.nodes@.len() as nat,
                );
            }
        }
        assert forall|i: int, j: int, k: int|
            self.valid_task_idx(i, j, k) implies #[trigger] self.task_linked(i, j, k) by {
            assert(pre.valid_task_idx(i, j, k));
            assert(pre.task_linked(i, j, k));
            if i == node_a as int || i == node_b as int {
                assert(self.nodes@[i].fn_containers@[j].req_fn_state@[k].0
                    == pre.nodes@[i].fn_containers@[j].req_fn_state@[k].0);
                assert(self.nodes@[i].fn_containers@[j].fn_id
                    == pre.nodes@[i].fn_containers@[j].fn_id);
            }
        }
    }
}

} // verus!
