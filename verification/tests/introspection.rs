use serverless_sim::apis::{GetTopoReq, GetTopoResp};
use serverless_sim::env::SimEnv;
use serverless_sim::model::{Node, NodeRscLimit};

fn two_node_env() -> SimEnv {
    let node = |id: usize| Node {
        node_id: id,
        rsc_limit: NodeRscLimit { cpu: 4, mem: 100 },
        cpu: 0,
        mem: 0,
        fn_containers: vec![],
        frame_run_count: 0,
    };
    SimEnv {
        env_id: String::from("env-a"),
        fns: vec![],
        dags: vec![],
        nodes: vec![node(0), node(1)],
        requests: vec![],
        node_speeds: vec![vec![0, 10], vec![10, 0]],
        scale_cmds: vec![],
        done_requests: vec![],
        current_frame: 0,
        hpa_action: 0,
        distance2hpa: 0,
    }
}

/// A matching identifier answers the bandwidth matrix.
#[test]
fn get_topo_answers_matrix_for_known_env() {
    let env = two_node_env();
    let resp = env.handle_get_topo(&GetTopoReq { env_id: String::from("env-a") });
    match resp {
        GetTopoResp::Exist { topo } => {
            assert_eq!(topo, vec![vec![0, 10], vec![10, 0]]);
        },
        GetTopoResp::NotFound { .. } => panic!("expected the topology"),
    }
}

/// An unknown identifier answers not-found.
#[test]
fn get_topo_answers_not_found_for_unknown_env() {
    let env = two_node_env();
    let resp = env.handle_get_topo(&GetTopoReq { env_id: String::from("elsewhere") });
    assert!(matches!(resp, GetTopoResp::NotFound { .. }));
    assert_eq!(resp.id(), 2);
    let found = env.handle_get_topo(&GetTopoReq { env_id: String::from("env-a") });
    assert_eq!(found.id(), 1);
}
