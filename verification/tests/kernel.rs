use serverless_sim::env::SimEnv;
use serverless_sim::model::{
    DataRecv, FnContainer, FnContainerState, FnDag, FnRunningState, Func, Node, NodeRscLimit,
    Request,
};

fn func(calc: u64, mem: u64) -> Func {
    Func {
        calc,
        mem,
        cold_start_container_mem_use: mem,
        cold_start_container_cpu_use: 1,
        cold_start_time: 1,
        out_put_size: 0,
        parent_fns: vec![],
    }
}

fn empty_node(id: usize, cpu: u64, mem: u64) -> Node {
    Node {
        node_id: id,
        rsc_limit: NodeRscLimit { cpu, mem },
        cpu: 0,
        mem: 0,
        fn_containers: vec![],
        frame_run_count: 0,
    }
}

fn base_env(nodes: Vec<Node>, fns: Vec<Func>, dags: Vec<FnDag>, requests: Vec<Option<Request>>, bw: u64) -> SimEnv {
    let n = nodes.len();
    SimEnv {
        env_id: String::from("env-a"),
        fns,
        dags,
        nodes,
        requests,
        node_speeds: vec![vec![bw; n]; n],
        scale_cmds: vec![],
        done_requests: vec![],
        current_frame: 0,
        hpa_action: 0,
        distance2hpa: 0,
    }
}

fn fresh_request(req_id: usize, dag_i: usize, n_fns: usize) -> Request {
    Request { req_id, dag_i, fn_node: vec![None; n_fns], done_fns: vec![false; n_fns] }
}

/// A node with cpu limit 4 and two running tasks each needing compute 4:
/// each gets share 2 per frame, and both complete after 2 frames.
#[test]
fn two_tasks_share_cpu_equally_and_finish_in_two_frames() {
    let f = func(4, 1);
    let mut node = empty_node(0, 4, 100);
    let task = |rid: usize| {
        (rid, FnRunningState { left_calc: 4, data_recv: vec![None] })
    };
    node.fn_containers.push(FnContainer {
        fn_id: 0,
        state: FnContainerState::Running,
        req_fn_state: vec![task(0), task(1)],
        this_frame_used: false,
        cpu_alloced: 0,
        cpu_used: 0,
    });
    node.mem = 1;
    let mut r0 = fresh_request(0, 0, 1);
    r0.fn_node[0] = Some(0);
    let mut r1 = fresh_request(1, 0, 1);
    r1.fn_node[0] = Some(0);
    let mut env = base_env(
        vec![node],
        vec![f],
        vec![FnDag { fn_ids: vec![0] }],
        vec![Some(r0), Some(r1)],
        10,
    );

    env.sim_computes();
    let c = &env.nodes[0].fn_containers[0];
    assert_eq!(c.req_fn_state.len(), 2);
    assert_eq!(c.req_fn_state[0].1.left_calc, 2);
    assert_eq!(c.req_fn_state[1].1.left_calc, 2);
    assert_eq!(env.nodes[0].frame_run_count, 2);
    assert_eq!(env.nodes[0].cpu, 4);

    env.sim_computes();
    assert_eq!(env.nodes[0].fn_containers[0].req_fn_state.len(), 0);
    assert_eq!(env.done_requests, vec![0, 1]);
    assert!(env.requests[0].as_ref().unwrap().done_fns[0]);
    assert!(env.requests[1].as_ref().unwrap().done_fns[0]);
}

fn cross_edge_env(required: u64, bw: u64) -> SimEnv {
    // node 1 runs a task of function 1 that needs bytes from node 0, and
    // node 0 runs a task of function 0 that needs bytes from node 1
    let f0 = func(4, 1);
    let f1 = func(4, 1);
    let mut n0 = empty_node(0, 4, 100);
    let mut n1 = empty_node(1, 4, 100);
    n0.fn_containers.push(FnContainer {
        fn_id: 0,
        state: FnContainerState::Running,
        req_fn_state: vec![(0, FnRunningState {
            left_calc: 4,
            data_recv: vec![None, Some(DataRecv { required, received: 0 })],
        })],
        this_frame_used: false,
        cpu_alloced: 0,
        cpu_used: 0,
    });
    n0.mem = 1;
    n1.fn_containers.push(FnContainer {
        fn_id: 1,
        state: FnContainerState::Running,
        req_fn_state: vec![(1, FnRunningState {
            left_calc: 4,
            data_recv: vec![Some(DataRecv { required, received: 0 }), None],
        })],
        this_frame_used: false,
        cpu_alloced: 0,
        cpu_used: 0,
    });
    n1.mem = 1;
    let mut r0 = fresh_request(0, 0, 2);
    r0.fn_node[0] = Some(0);
    let mut r1 = fresh_request(1, 0, 2);
    r1.fn_node[1] = Some(1);
    base_env(
        vec![n0, n1],
        vec![f0, f1],
        vec![FnDag { fn_ids: vec![0, 1] }],
        vec![Some(r0), Some(r1)],
        bw,
    )
}

/// Two nodes, link bandwidth 10, one send and one recv path active at the
/// same time: the shared link gives each path 10 / 2 = 5 per frame.
#[test]
fn shared_link_bandwidth_divides_between_both_directions() {
    let mut env = cross_edge_env(20, 10);
    env.sim_transfers();
    let e0 = env.nodes[0].fn_containers[0].req_fn_state[0].1.data_recv[1]
        .as_ref()
        .unwrap();
    let e1 = env.nodes[1].fn_containers[0].req_fn_state[0].1.data_recv[0]
        .as_ref()
        .unwrap();
    assert_eq!(e0.received, 5);
    assert_eq!(e1.received, 5);
    // both receiving containers did work this frame
    assert!(env.nodes[0].fn_containers[0].this_frame_used);
    assert!(env.nodes[1].fn_containers[0].this_frame_used);
}

/// Once an edge shows received >= required, further frames never change
/// it again.
#[test]
fn complete_edge_is_never_touched_again() {
    let mut env = cross_edge_env(4, 8);
    env.sim_transfers();
    let received = env.nodes[0].fn_containers[0].req_fn_state[0].1.data_recv[1]
        .as_ref()
        .unwrap()
        .received;
    assert_eq!(received, 4);
    env.sim_transfers();
    let again = env.nodes[0].fn_containers[0].req_fn_state[0].1.data_recv[1]
        .as_ref()
        .unwrap()
        .received;
    assert_eq!(again, 4);
}

/// An edge whose producer ran on the consumer's own node completes
/// instantly, consuming no link bandwidth.
#[test]
fn same_node_edge_completes_instantly() {
    let f0 = func(4, 1);
    let mut n0 = empty_node(0, 4, 100);
    n0.fn_containers.push(FnContainer {
        fn_id: 0,
        state: FnContainerState::Running,
        req_fn_state: vec![(0, FnRunningState {
            left_calc: 4,
            data_recv: vec![Some(DataRecv { required: 7, received: 0 })],
        })],
        this_frame_used: false,
        cpu_alloced: 0,
        cpu_used: 0,
    });
    n0.mem = 1;
    let mut r0 = fresh_request(0, 0, 1);
    r0.fn_node[0] = Some(0);
    let mut env = base_env(
        vec![n0],
        vec![f0],
        vec![FnDag { fn_ids: vec![0] }],
        vec![Some(r0)],
        10,
    );
    env.sim_transfers();
    let e = env.nodes[0].fn_containers[0].req_fn_state[0].1.data_recv[0]
        .as_ref()
        .unwrap();
    assert_eq!(e.received, 7);
}

/// A cold-starting container counts its start down and transitions to
/// running, swapping its memory reservation to the steady-state one.
#[test]
fn cold_start_transitions_to_running() {
    let mut f = func(4, 3);
    f.cold_start_container_mem_use = 5;
    let mut n0 = empty_node(0, 4, 100);
    n0.fn_containers.push(FnContainer {
        fn_id: 0,
        state: FnContainerState::Starting { left_frames: 1 },
        req_fn_state: vec![],
        this_frame_used: false,
        cpu_alloced: 0,
        cpu_used: 0,
    });
    n0.mem = 5;
    let mut env = base_env(vec![n0], vec![f], vec![FnDag { fn_ids: vec![0] }], vec![], 10);
    env.sim_computes();
    assert!(matches!(env.nodes[0].fn_containers[0].state, FnContainerState::Running));
    assert_eq!(env.nodes[0].mem, 3);
    assert!(env.nodes[0].mem <= env.nodes[0].rsc_limit.mem);
}

/// Scale commands are materialized at the load step: scale-up places a
/// cold-starting container, scale-down removes an idle one.
#[test]
fn load_container_materializes_scale_commands() {
    let mut f = func(4, 3);
    f.cold_start_container_mem_use = 5;
    f.cold_start_time = 2;
    let n0 = empty_node(0, 4, 100);
    let mut env = base_env(vec![n0], vec![f], vec![FnDag { fn_ids: vec![0] }], vec![], 10);
    env.scale_cmds.push(serverless_sim::scale::ScaleCmd::Up { fnid: 0, cnt: 1 });
    env.sim_load_container();
    assert!(env.scale_cmds.is_empty());
    assert_eq!(env.nodes[0].fn_containers.len(), 1);
    assert!(matches!(
        env.nodes[0].fn_containers[0].state,
        FnContainerState::Starting { left_frames: 2 }
    ));
    assert_eq!(env.nodes[0].mem, 5);

    env.scale_cmds.push(serverless_sim::scale::ScaleCmd::Down { fnid: 0, cnt: 1 });
    env.sim_load_container();
    assert_eq!(env.nodes[0].fn_containers.len(), 0);
    assert_eq!(env.nodes[0].mem, 0);
}

/// A full frame through the public entry point: the ready task is bound,
/// computed, and the request reported done; the clock ticks once.
#[test]
fn schedule_fn_runs_one_full_frame() {
    let f = func(2, 1);
    let mut n0 = empty_node(0, 4, 100);
    n0.fn_containers.push(FnContainer {
        fn_id: 0,
        state: FnContainerState::Running,
        req_fn_state: vec![],
        this_frame_used: false,
        cpu_alloced: 0,
        cpu_used: 0,
    });
    n0.mem = 1;
    let r0 = fresh_request(0, 0, 1);
    let mut env = base_env(
        vec![n0],
        vec![f],
        vec![FnDag { fn_ids: vec![0] }],
        vec![Some(r0)],
        10,
    );
    env.schedule_fn();
    assert_eq!(env.current_frame, 1);
    assert_eq!(env.requests[0].as_ref().unwrap().fn_node[0], Some(0));
    assert_eq!(env.done_requests, vec![0]);
    assert!(env.nodes[0].mem <= env.nodes[0].rsc_limit.mem);
}
