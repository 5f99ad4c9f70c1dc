//! DAG-dependency resolution: which tasks of a request have become
//! schedulable this frame.

use vstd::prelude::*;
use crate::env::SimEnv;
use crate::model::{FnId, Request};

verus! {

broadcast use vstd::seq_lib::group_seq_properties;

/// A scheduling strategy, as the autoscaling layer sees it.
pub trait Scheduler {
    /// For a scaler to get some schedule info beforehand.
    /// Not needed for a non-scaler scheduler.
    fn prepare_this_turn_will_schedule(&mut self, env: &SimEnv);

    /// For a scaler to get some schedule info.
    /// Not needed for a non-scaler scheduler.
    fn this_turn_will_schedule(&self, fnid: FnId) -> bool;

    /// Bind whatever tasks this strategy decides to bind this frame.
    fn schedule_some(&mut self, env: &mut SimEnv)
        requires
            old(env).wf(),
        ensures
            final(env).wf(),
    ;
}

/// Which predecessor condition makes a task eligible for collection.
pub enum CollectTaskConfig {
    /// Collect every unbound task.
    All,
    /// Collect an unbound task once every DAG parent is done.
    PreAllDone,
    /// Collect an unbound task once every DAG parent is bound.
    PreAllSched,
}

/// Every DAG parent of `f` is marked done for `req`.
pub open spec fn spec_parents_all_done(env: SimEnv, req: Request, f: FnId) -> bool {
    forall|k: int|
        0 <= k < env.fns@[f as int].parent_fns@.len() ==> req.spec_done(
            #[trigger] env.fns@[f as int].parent_fns@[k] as int,
        )
}

/// Every DAG parent of `f` is bound to a node for `req`.
pub open spec fn spec_parents_all_sched(env: SimEnv, req: Request, f: FnId) -> bool {
    forall|k: int|
        0 <= k < env.fns@[f as int].parent_fns@.len() ==> req.spec_bound(
            #[trigger] env.fns@[f as int].parent_fns@[k] as int,
        )
}

/// Whether the collection pass keeps `f`: it is unbound and its parents
/// satisfy the configured condition.
pub open spec fn spec_collectable(env: SimEnv, req: Request, config: CollectTaskConfig, f: FnId) -> bool {
    &&& !req.spec_bound(f as int)
    &&& match config {
        CollectTaskConfig::All => true,
        CollectTaskConfig::PreAllDone => spec_parents_all_done(env, req, f),
        CollectTaskConfig::PreAllSched => spec_parents_all_sched(env, req, f),
    }
}

/// Every DAG parent of `f` is marked done for `req`.
pub fn parents_all_done(env: &SimEnv, req: &Request, f: FnId) -> (r: bool)
    requires
        (f as int) < env.fns@.len(),
        env.fns@[f as int].wf(env.fns@.len() as nat),
        req.done_fns@.len() == env.fns@.len(),
    ensures
        r == spec_parents_all_done(*env, *req, f),
{
    let parents = &env.fns[f].parent_fns;
    let mut k: usize = 0;
    while k < parents.len()
        invariant
            k <= parents@.len(),
            parents@ == env.fns@[f as int].parent_fns@,
            env.fns@[f as int].wf(env.fns@.len() as nat),
            req.done_fns@.len() == env.fns@.len(),
            forall|t: int|
                0 <= t < k ==> req.spec_done(#[trigger] env.fns@[f as int].parent_fns@[t] as int),
        decreases parents@.len() - k,
    {
        if !req.done_fns[parents[k]] {
            return false;
        }
        k = k + 1;
    }
    true
}

/// Every DAG parent of `f` is bound for `req`.
pub fn parents_all_sched(env: &SimEnv, req: &Request, f: FnId) -> (r: bool)
    requires
        (f as int) < env.fns@.len(),
        env.fns@[f as int].wf(env.fns@.len() as nat),
        req.fn_node@.len() == env.fns@.len(),
    ensures
        r == spec_parents_all_sched(*env, *req, f),
{
    let parents = &env.fns[f].parent_fns;
    let mut k: usize = 0;
    while k < parents.len()
        invariant
            k <= parents@.len(),
            parents@ == env.fns@[f as int].parent_fns@,
            env.fns@[f as int].wf(env.fns@.len() as nat),
            req.fn_node@.len() == env.fns@.len(),
            forall|t: int|
                0 <= t < k ==> req.spec_bound(#[trigger] env.fns@[f as int].parent_fns@[t] as int),
        decreases parents@.len() - k,
    {
        if req.fn_node[parents[k]].is_none() {
            return false;
        }
        k = k + 1;
    }
    true
}

/// Walk the request's DAG in topological order and collect, in that
/// order, the functions that have become eligible under `config`: not yet
/// bound, with their predecessors in the configured state.
pub fn collect_task_to_sche(req: &Request, env: &SimEnv, config: CollectTaskConfig) -> (r: Vec<
    FnId,
>)
    requires
        env.wf(),
        (req.dag_i as int) < env.dags@.len(),
        req.fn_node@.len() == env.fns@.len(),
        req.done_fns@.len() == env.fns@.len(),
    ensures
        forall|t: int|
            0 <= t < r@.len() ==> {
                &&& env.dags@[req.dag_i as int].fn_ids@.contains(#[trigger] r@[t])
                &&& (r@[t] as int) < env.fns@.len()
                &&& spec_collectable(*env, *req, config, r@[t])
            },
        forall|i: int|
            0 <= i < env.dags@[req.dag_i as int].fn_ids@.len() && spec_collectable(
                *env,
                *req,
                config,
                #[trigger] env.dags@[req.dag_i as int].fn_ids@[i],
            ) ==> r@.contains(env.dags@[req.dag_i as int].fn_ids@[i]),
        forall|t1: int, t2: int| 0 <= t1 < t2 < r@.len() ==> r@[t1] != r@[t2],
        // the result is the order-preserving restriction of the DAG's
        // function list to the collectable ones
        r@ == env.dags@[req.dag_i as int].fn_ids@.filter(
            |f: FnId| spec_collectable(*env, *req, config, f),
        ),
{
    let mut collect: Vec<FnId> = Vec::new();
    let dag_i = req.dag_i;
    let dag = &env.dags[dag_i];
    let ghost dseq = env.dags@[dag_i as int].fn_ids@;
    let ghost pred = |f: FnId| spec_collectable(*env, *req, config, f);
    proof {
        reveal(Seq::filter);
        assert(dseq.take(0) =~= Seq::<FnId>::empty());
        assert(collect@ =~= dseq.take(0).filter(pred));
    }
    let mut i: usize = 0;
    while i < dag.fn_ids.len()
        invariant
            env.wf(),
            (dag_i as int) < env.dags@.len(),
            dag_i == req.dag_i,
            dag.fn_ids@ == dseq,
            dseq == env.dags@[dag_i as int].fn_ids@,
            req.fn_node@.len() == env.fns@.len(),
            req.done_fns@.len() == env.fns@.len(),
            i <= dseq.len(),
            forall|t: int|
                0 <= t < collect@.len() ==> {
                    &&& exists|j: int| 0 <= j < i && dseq[j] == #[trigger] collect@[t]
                    &&& (collect@[t] as int) < env.fns@.len()
                    &&& spec_collectable(*env, *req, config, collect@[t])
                },
            forall|i2: int|
                0 <= i2 < i && spec_collectable(*env, *req, config, #[trigger] dseq[i2])
                    ==> collect@.contains(dseq[i2]),
            forall|t1: int, t2: int| 0 <= t1 < t2 < collect@.len() ==> collect@[t1] != collect@[t2],
            collect@ == dseq.take(i as int).filter(pred),
            pred == (|f: FnId| spec_collectable(*env, *req, config, f)),
        decreases dseq.len() - i,
    {
        let fnid = dag.fn_ids[i];
        proof {
            reveal(Seq::filter);
            assert(env.dags@[dag_i as int].wf(env.fns@));
            assert(dseq.contains(dseq[i as int]));
            assert(dseq.take(i + 1).drop_last() =~= dseq.take(i as int));
            assert(dseq.take(i + 1).last() == dseq[i as int]);
        }
        let eligible: bool = if req.fn_node[fnid].is_some() {
            // already scheduled
            false
        } else {
            match config {
                CollectTaskConfig::All => true,
                CollectTaskConfig::PreAllDone => parents_all_done(env, req, fnid),
                CollectTaskConfig::PreAllSched => parents_all_sched(env, req, fnid),
            }
        };
        if eligible {
            proof {
                assert forall|t: int| 0 <= t < collect@.len() implies collect@[t] != fnid by {
                    let j = choose|j: int| 0 <= j < i && dseq[j] == collect@[t];
                    assert(env.dags@[dag_i as int].wf(env.fns@));
                }
            }
            collect.push(fnid);
            proof {
                assert(pred(fnid));
                assert(collect@ =~= dseq.take(i + 1).filter(pred));
            }
        } else {
            proof {
                assert(!pred(fnid));
                assert(collect@ =~= dseq.take(i + 1).filter(pred));
            }
        }
        i = i + 1;
    }
    proof {
        assert(dseq.take(dseq.len() as int) =~= dseq);
    }
    collect
}

} // verus!
