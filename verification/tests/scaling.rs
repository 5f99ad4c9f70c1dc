use serverless_sim::env::SimEnv;
use serverless_sim::es_ai::AIScaler;
use serverless_sim::es_hpa::HpaESScaler;
use serverless_sim::model::{FnContainer, FnContainerState, FnDag, Func, Node, NodeRscLimit};
use serverless_sim::scale::{
    CarefulScaleDown, ContainerMetric, ESActionWrapper, ESScaler, ScaleCmd, SKIP_ACTION,
};

fn func(mem: u64) -> Func {
    Func {
        calc: 4,
        mem,
        cold_start_container_mem_use: mem,
        cold_start_container_cpu_use: 1,
        cold_start_time: 1,
        out_put_size: 0,
        parent_fns: vec![],
    }
}

fn env_with_one_container(node_mem_used: u64, node_mem_limit: u64) -> SimEnv {
    let f = func(node_mem_used);
    let node = Node {
        node_id: 0,
        rsc_limit: NodeRscLimit { cpu: 4, mem: node_mem_limit },
        cpu: 0,
        mem: node_mem_used,
        fn_containers: vec![FnContainer {
            fn_id: 0,
            state: FnContainerState::Running,
            req_fn_state: vec![],
            this_frame_used: false,
            cpu_alloced: 0,
            cpu_used: 0,
        }],
        frame_run_count: 0,
    };
    SimEnv {
        env_id: String::from("env-a"),
        fns: vec![f],
        dags: vec![FnDag { fn_ids: vec![0] }],
        nodes: vec![node],
        requests: vec![],
        node_speeds: vec![vec![10]],
        scale_cmds: vec![],
        done_requests: vec![],
        current_frame: 0,
        hpa_action: 0,
        distance2hpa: 0,
    }
}

fn env_without_containers() -> SimEnv {
    let f = func(1);
    let node = Node {
        node_id: 0,
        rsc_limit: NodeRscLimit { cpu: 4, mem: 100 },
        cpu: 0,
        mem: 0,
        fn_containers: vec![],
        frame_run_count: 0,
    };
    SimEnv {
        env_id: String::from("env-a"),
        fns: vec![f],
        dags: vec![FnDag { fn_ids: vec![0] }],
        nodes: vec![node],
        requests: vec![],
        node_speeds: vec![vec![10]],
        scale_cmds: vec![],
        done_requests: vec![],
        current_frame: 0,
        hpa_action: 0,
        distance2hpa: 0,
    }
}

/// A function with no containers and one ready request must be scaled up
/// to exactly one container.
#[test]
fn utilization_controller_scales_zero_to_one() {
    let env = env_without_containers();
    let mut hpa = HpaESScaler::new();
    let metric = ContainerMetric { container_count: 0, ready_2_schedule_fn_reqs: vec![0] };
    let decided = hpa.action(&env, 0, &metric);
    assert_eq!(decided, 1);
}

/// With the utilization ratio exactly on target, the controller skips.
#[test]
fn utilization_controller_skips_inside_tolerance() {
    // utilization 5/10 = target 0.5
    let env = env_with_one_container(5, 10);
    let mut hpa = HpaESScaler::new();
    let metric = ContainerMetric { container_count: 1, ready_2_schedule_fn_reqs: vec![] };
    assert_eq!(hpa.action(&env, 0, &metric), SKIP_ACTION);
}

/// Above the tolerance band the controller asks for the ceiling of
/// utilization over target, and issues the matching scale-up command.
#[test]
fn utilization_controller_scales_up_by_formula() {
    // utilization 8/10 = 0.8; ceil(800 / 500) = 2
    let mut env = env_with_one_container(8, 10);
    let mut hpa = HpaESScaler::new();
    let metric = ContainerMetric { container_count: 1, ready_2_schedule_fn_reqs: vec![] };
    assert_eq!(hpa.action(&env, 0, &metric), 2);
    let (score, handled) = hpa.scale_for_fn(&mut env, 0, &metric, &ESActionWrapper::Int(0));
    assert_eq!(score, 0);
    assert!(!handled);
    assert_eq!(env.scale_cmds.len(), 1);
    assert!(matches!(env.scale_cmds[0], ScaleCmd::Up { fnid: 0, cnt: 1 }));
}

/// The sentinel no-op action with zero pending requests leaves the
/// container count unchanged and the auxiliary score neutral.
#[test]
fn policy_action_controller_sentinel_is_neutral() {
    let mut env = env_without_containers();
    let mut ai = AIScaler::new();
    let metric = ContainerMetric { container_count: 0, ready_2_schedule_fn_reqs: vec![] };
    let (score, handled) = ai.scale_for_fn(&mut env, 0, &metric, &ESActionWrapper::Int(11));
    assert_eq!(score, 0);
    assert!(handled);
    assert!(env.scale_cmds.is_empty());
}

/// A raw action asking for zero containers while requests wait is forced
/// up to one container, with the auxiliary penalty.
#[test]
fn policy_action_controller_enforces_floor() {
    let mut env = env_without_containers();
    let mut ai = AIScaler::new();
    let metric = ContainerMetric { container_count: 0, ready_2_schedule_fn_reqs: vec![7] };
    let (score, handled) = ai.scale_for_fn(&mut env, 0, &metric, &ESActionWrapper::Int(0));
    assert_eq!(score, -1000);
    assert!(handled);
    assert_eq!(env.scale_cmds.len(), 1);
    assert!(matches!(env.scale_cmds[0], ScaleCmd::Up { fnid: 0, cnt: 1 }));
}

/// The policy-action controller publishes the utilization baseline and
/// the distance to the external action.
#[test]
fn policy_action_controller_scores_distance_to_baseline() {
    let mut env = env_without_containers();
    let mut ai = AIScaler::new();
    let metric = ContainerMetric { container_count: 0, ready_2_schedule_fn_reqs: vec![] };
    ai.scale_for_fn(&mut env, 0, &metric, &ESActionWrapper::Int(11));
    assert_eq!(env.hpa_action, 0);
    assert_eq!(env.distance2hpa, 11);
}

/// Underutilized containers draw a scale-down command, damped to one
/// step.
#[test]
fn utilization_controller_scales_down_with_damping() {
    // two hosting nodes, each at utilization 1/100; desired is 1, damped
    // from the current 2 by at most one step
    let f = func(1);
    let node = |id: usize| Node {
        node_id: id,
        rsc_limit: NodeRscLimit { cpu: 4, mem: 100 },
        cpu: 0,
        mem: 1,
        fn_containers: vec![FnContainer {
            fn_id: 0,
            state: FnContainerState::Running,
            req_fn_state: vec![],
            this_frame_used: false,
            cpu_alloced: 0,
            cpu_used: 0,
        }],
        frame_run_count: 0,
    };
    let mut env = SimEnv {
        env_id: String::from("env-a"),
        fns: vec![f],
        dags: vec![FnDag { fn_ids: vec![0] }],
        nodes: vec![node(0), node(1)],
        requests: vec![],
        node_speeds: vec![vec![10, 10], vec![10, 10]],
        scale_cmds: vec![],
        done_requests: vec![],
        current_frame: 0,
        hpa_action: 0,
        distance2hpa: 0,
    };
    let mut hpa = HpaESScaler::new();
    let metric = ContainerMetric { container_count: 2, ready_2_schedule_fn_reqs: vec![] };
    assert_eq!(hpa.action(&env, 0, &metric), 1);
    hpa.scale_for_fn(&mut env, 0, &metric, &ESActionWrapper::Int(0));
    assert_eq!(env.scale_cmds.len(), 1);
    assert!(matches!(env.scale_cmds[0], ScaleCmd::Down { fnid: 0, cnt: 1 }));
}

/// The damping filter lowers a count by at most the step bound per
/// decision and never touches a scale-up decision.
#[test]
fn scale_down_filter_damps_by_one_step() {
    let p = CarefulScaleDown::new();
    assert_eq!(p.filter_desired(0, 0, 5), 4);
    assert_eq!(p.filter_desired(0, 3, 5), 4);
    assert_eq!(p.filter_desired(0, 4, 5), 4);
    assert_eq!(p.filter_desired(0, 5, 5), 5);
    assert_eq!(p.filter_desired(0, 7, 5), 7);
    assert_eq!(p.filter_desired(0, 1, 0), 1);
}

/// A damped scale-down decision whose value equals the action sentinel is
/// still carried out: with twelve idle containers and zero utilization the
/// controller scales down by one step, to eleven.
#[test]
fn scale_down_to_sentinel_value_still_issues_the_command() {
    let f = func(0);
    let node = |id: usize| Node {
        node_id: id,
        rsc_limit: NodeRscLimit { cpu: 4, mem: 100 },
        cpu: 0,
        mem: 0,
        fn_containers: vec![FnContainer {
            fn_id: 0,
            state: FnContainerState::Running,
            req_fn_state: vec![],
            this_frame_used: false,
            cpu_alloced: 0,
            cpu_used: 0,
        }],
        frame_run_count: 0,
    };
    let mut env = SimEnv {
        env_id: String::from("env-a"),
        fns: vec![f],
        dags: vec![FnDag { fn_ids: vec![0] }],
        nodes: (0..12).map(node).collect(),
        requests: vec![],
        node_speeds: vec![vec![10; 12]; 12],
        scale_cmds: vec![],
        done_requests: vec![],
        current_frame: 0,
        hpa_action: 0,
        distance2hpa: 0,
    };
    let mut hpa = HpaESScaler::new();
    let metric = ContainerMetric { container_count: 12, ready_2_schedule_fn_reqs: vec![] };
    // the action value happens to equal the skip sentinel
    assert_eq!(hpa.action(&env, 0, &metric), SKIP_ACTION);
    hpa.scale_for_fn(&mut env, 0, &metric, &ESActionWrapper::Int(0));
    assert_eq!(env.scale_cmds.len(), 1);
    assert!(matches!(env.scale_cmds[0], ScaleCmd::Down { fnid: 0, cnt: 1 }));
}
