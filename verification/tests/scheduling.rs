use serverless_sim::env::SimEnv;
use serverless_sim::model::{
    FnContainer, FnContainerState, FnDag, FnRunningState, Func, Node, NodeRscLimit, Request,
};
use serverless_sim::schedule::{collect_task_to_sche, CollectTaskConfig};

fn func_with_parents(parents: Vec<usize>) -> Func {
    Func {
        calc: 4,
        mem: 1,
        cold_start_container_mem_use: 1,
        cold_start_container_cpu_use: 1,
        cold_start_time: 1,
        out_put_size: 6,
        parent_fns: parents,
    }
}

fn node_hosting(id: usize, fns: &[usize], queued: &[usize]) -> Node {
    let mut containers = vec![];
    for &f in fns {
        let mut tasks = vec![];
        for &q in queued {
            tasks.push((q, FnRunningState { left_calc: 4, data_recv: vec![None, None] }));
        }
        containers.push(FnContainer {
            fn_id: f,
            state: FnContainerState::Running,
            req_fn_state: tasks,
            this_frame_used: false,
            cpu_alloced: 0,
            cpu_used: 0,
        });
    }
    let mem = containers.len() as u64;
    Node {
        node_id: id,
        rsc_limit: NodeRscLimit { cpu: 4, mem: 100 },
        cpu: 0,
        mem,
        fn_containers: containers,
        frame_run_count: 0,
    }
}

fn chain_env(nodes: Vec<Node>) -> SimEnv {
    // function 1 depends on function 0
    let n = nodes.len();
    SimEnv {
        env_id: String::from("env-a"),
        fns: vec![func_with_parents(vec![]), func_with_parents(vec![0])],
        dags: vec![FnDag { fn_ids: vec![0, 1] }],
        nodes,
        requests: vec![Some(Request {
            req_id: 0,
            dag_i: 0,
            fn_node: vec![None, None],
            done_fns: vec![false, false],
        })],
        node_speeds: vec![vec![10; n]; n],
        scale_cmds: vec![],
        done_requests: vec![],
        current_frame: 0,
        hpa_action: 0,
        distance2hpa: 0,
    }
}

/// The collection pass walks the DAG in order and keeps exactly the
/// unbound functions whose predecessors satisfy the configured state.
#[test]
fn collect_task_respects_predecessor_config() {
    let env = chain_env(vec![node_hosting(0, &[0, 1], &[])]);
    let req = env.requests[0].as_ref().unwrap();

    let all = collect_task_to_sche(req, &env, CollectTaskConfig::All);
    assert_eq!(all, vec![0, 1]);

    let pre_done = collect_task_to_sche(req, &env, CollectTaskConfig::PreAllDone);
    assert_eq!(pre_done, vec![0]);

    let pre_sched = collect_task_to_sche(req, &env, CollectTaskConfig::PreAllSched);
    assert_eq!(pre_sched, vec![0]);

    let mut env2 = chain_env(vec![node_hosting(0, &[0, 1], &[])]);
    {
        let req2 = env2.requests[0].as_mut().unwrap();
        req2.fn_node[0] = Some(0);
    }
    let req2 = env2.requests[0].as_ref().unwrap();
    let sched_after_bind = collect_task_to_sche(req2, &env2, CollectTaskConfig::PreAllSched);
    assert_eq!(sched_after_bind, vec![1]);
    let done_after_bind = collect_task_to_sche(req2, &env2, CollectTaskConfig::PreAllDone);
    assert!(done_after_bind.is_empty());
}

/// A function is bound only when every DAG parent is done: the first pass
/// binds the root, not the child.
#[test]
fn dag_child_is_not_bound_before_parent_is_done() {
    let mut env = chain_env(vec![node_hosting(0, &[0, 1], &[])]);
    env.try_put_fn();
    let req = env.requests[0].as_ref().unwrap();
    assert_eq!(req.fn_node[0], Some(0));
    assert_eq!(req.fn_node[1], None);
}

/// Node selection minimizes the predicted execution time: the node with
/// the shorter queue wins; among equals the first found wins.
#[test]
fn binding_picks_the_least_loaded_hosting_node() {
    // node 0 already queues a foreign task on its container of function 0;
    // node 1 hosts an empty container
    let busy = node_hosting(0, &[0], &[5]);
    let idle = node_hosting(1, &[0], &[]);
    let mut env = chain_env(vec![busy, idle]);
    // the queued task belongs to request 5 of function 0
    env.requests = vec![
        Some(Request {
            req_id: 0,
            dag_i: 0,
            fn_node: vec![None, None],
            done_fns: vec![false, false],
        }),
        None,
        None,
        None,
        None,
        Some(Request {
            req_id: 5,
            dag_i: 0,
            fn_node: vec![Some(0), None],
            done_fns: vec![false, false],
        }),
    ];
    env.try_put_fn();
    let req = env.requests[0].as_ref().unwrap();
    assert_eq!(req.fn_node[0], Some(1));
    // the new task carries the function's full compute demand
    let c = &env.nodes[1].fn_containers[0];
    assert_eq!(c.req_fn_state.len(), 1);
    assert_eq!(c.req_fn_state[0].0, 0);
    assert_eq!(c.req_fn_state[0].1.left_calc, 4);
}

/// A whole two-function chain runs to completion through the public
/// frame entry point: the root is bound and computed first, its payload
/// moves, then the child runs, and the request is reported done exactly
/// once. Reserved memory never exceeds the node limits at any frame
/// boundary.
#[test]
fn chain_request_completes_over_frames() {
    let mut env = chain_env(vec![node_hosting(0, &[0, 1], &[])]);
    let mut reported_at = None;
    for frame in 0..10 {
        env.schedule_fn();
        for n in &env.nodes {
            assert!(n.mem <= n.rsc_limit.mem);
        }
        if reported_at.is_none() && env.done_requests == vec![0] {
            reported_at = Some(frame);
        }
    }
    let req = env.requests[0].as_ref().unwrap();
    assert!(req.done_fns[0] && req.done_fns[1]);
    // reported exactly once
    assert_eq!(env.done_requests, vec![0]);
    assert!(reported_at.is_some());
}

/// Binding a child records one incoming-data requirement per parent node,
/// demanding the parent's full payload with nothing received yet.
#[test]
fn binding_records_parent_payload_requirements() {
    let mut env = chain_env(vec![node_hosting(0, &[0, 1], &[])]);
    env.try_put_fn();
    // finish function 0 by hand, then bind function 1
    {
        let req = env.requests[0].as_mut().unwrap();
        req.done_fns[0] = true;
    }
    {
        let node = &mut env.nodes[0];
        node.fn_containers[0].req_fn_state.clear();
    }
    env.try_put_fn();
    let req = env.requests[0].as_ref().unwrap();
    assert_eq!(req.fn_node[1], Some(0));
    let c = &env.nodes[0].fn_containers[1];
    let e = c.req_fn_state[0].1.data_recv[0].as_ref().unwrap();
    assert_eq!(e.required, 6);
    assert_eq!(e.received, 0);
}
