use p2p_distributed_tswap::a_star::{astar_with_reservation, EdgeReservation, NodeReservation};
use p2p_distributed_tswap::graph::{build_graph, Node};
use p2p_distributed_tswap::tasks::Task;
use p2p_distributed_tswap::tswap::{
    rotate_goals, swap_goals, tswap_mapd, tswap_step, Agent, AgentState,
};

fn grid_of(rows: &[&str]) -> Vec<Vec<char>> {
    rows.iter().map(|r| r.chars().collect()).collect()
}

fn open_grid(w: usize, h: usize) -> Vec<Vec<char>> {
    vec![vec!['.'; w]; h]
}

fn id_of(nodes: &[Node], p: (usize, usize)) -> usize {
    nodes.iter().position(|n| n.pos == p).unwrap()
}

fn sorted(mut v: Vec<usize>) -> Vec<usize> {
    v.sort();
    v
}

fn assert_no_collision(agents: &[Agent]) {
    for i in 0..agents.len() {
        for j in 0..agents.len() {
            if i != j {
                assert_ne!(agents[i].v, agents[j].v);
            }
        }
    }
}

#[test]
fn swap_goals_exchanges_two_goals_only() {
    let mut agents = vec![
        Agent { id: 0, v: 0, g: 5 },
        Agent { id: 1, v: 1, g: 6 },
        Agent { id: 2, v: 2, g: 7 },
    ];
    swap_goals(&mut agents, 0, 2);
    assert_eq!(agents.iter().map(|a| a.g).collect::<Vec<_>>(), vec![7, 6, 5]);
    assert_eq!(agents.iter().map(|a| a.v).collect::<Vec<_>>(), vec![0, 1, 2]);
}

#[test]
fn rotate_goals_moves_each_goal_one_step_around_the_cycle() {
    let mut agents = vec![
        Agent { id: 0, v: 0, g: 10 },
        Agent { id: 1, v: 1, g: 11 },
        Agent { id: 2, v: 2, g: 12 },
        Agent { id: 3, v: 3, g: 13 },
    ];
    let before: Vec<usize> = agents.iter().map(|a| a.g).collect();
    rotate_goals(&mut agents, &vec![0, 2, 3]);
    // first takes last's goal; each other its predecessor's
    assert_eq!(agents.iter().map(|a| a.g).collect::<Vec<_>>(), vec![13, 11, 10, 12]);
    assert_eq!(sorted(agents.iter().map(|a| a.g).collect()), sorted(before.clone()));
    for &k in &[0usize, 2, 3] {
        assert_ne!(agents[k].g, before[k]);
    }
}

#[test]
fn tswap_step_keeps_agents_apart_and_goals_as_multiset() {
    let grid = open_grid(4, 4);
    let nodes = build_graph(&grid);
    let cells = [(0, 0), (1, 0), (2, 0), (3, 0), (0, 1), (1, 1)];
    let targets = [(3, 3), (0, 0), (2, 3), (1, 0), (3, 1), (0, 3)];
    let mut agents: Vec<Agent> = (0..cells.len())
        .map(|i| Agent { id: i, v: id_of(&nodes, cells[i]), g: id_of(&nodes, targets[i]) })
        .collect();
    let goals0 = sorted(agents.iter().map(|a| a.g).collect());
    for _ in 0..20 {
        let before: Vec<Agent> = agents.clone();
        let swaps = tswap_step(&mut agents, &nodes);
        assert_no_collision(&agents);
        assert_eq!(sorted(agents.iter().map(|a| a.g).collect()), goals0);
        for (a, b) in before.iter().zip(agents.iter()) {
            assert!(a.v == b.v || nodes[a.v].neighbors.contains(&b.v));
        }
        for i in 0..agents.len() {
            for j in 0..agents.len() {
                if i != j && agents[i].v == before[j].v && agents[j].v == before[i].v {
                    assert!(swaps.contains(&(i, j)) || swaps.contains(&(j, i)));
                }
            }
        }
    }
}

#[test]
fn head_on_agents_pass_each_other_using_the_detour() {
    // two agents meet in the middle row of a 3x3 grid whose centre is free
    let grid = open_grid(3, 3);
    let nodes = build_graph(&grid);
    let a = id_of(&nodes, (0, 1));
    let b = id_of(&nodes, (2, 1));
    let mut agents = vec![Agent { id: 0, v: a, g: b }, Agent { id: 1, v: b, g: a }];
    let mut ticks = 0;
    while (agents[0].v != agents[0].g || agents[1].v != agents[1].g) && ticks < 10 {
        tswap_step(&mut agents, &nodes);
        assert_no_collision(&agents);
        ticks += 1;
    }
    assert!(ticks <= 4);
    assert_eq!(sorted(vec![agents[0].v, agents[1].v]), sorted(vec![a, b]));
}

#[test]
fn blocked_chain_on_a_corridor_keeps_goals_and_cells() {
    let grid = grid_of(&["...", "@@@", "@@@"]);
    let nodes = build_graph(&grid);
    let c0 = id_of(&nodes, (0, 0));
    let c1 = id_of(&nodes, (1, 0));
    let c2 = id_of(&nodes, (2, 0));
    let mut agents = vec![
        Agent { id: 0, v: c0, g: c1 },
        Agent { id: 1, v: c1, g: c2 },
        Agent { id: 2, v: c2, g: c0 },
    ];
    for _ in 0..3 {
        tswap_step(&mut agents, &nodes);
        assert_no_collision(&agents);
        assert_eq!(sorted(agents.iter().map(|a| a.g).collect()), sorted(vec![c0, c1, c2]));
    }
}

#[test]
fn single_agent_run_reaches_pickup_then_delivery() {
    let grid = open_grid(5, 5);
    let tasks = vec![Task { pickup: (2, 0), delivery: (2, 4), peer_id: None, task_id: Some(1) }];
    let paths = tswap_mapd(&grid, vec![(0, 0)], &tasks);
    assert_eq!(paths.len(), 1);
    let path = &paths[0];
    let at_pickup = path.iter().position(|s| s.0 == (2, 0)).unwrap();
    assert!(at_pickup <= 1, "pickup reached by tick 2");
    let at_delivery = path.iter().position(|s| s.0 == (2, 4)).unwrap();
    assert!(at_delivery <= 5, "delivery reached by tick 6");
    assert!(matches!(path[at_pickup].1, AgentState::PICKING));
    assert!(path.iter().any(|s| matches!(s.1, AgentState::DELIVERED)));
    assert!(matches!(path.last().unwrap().1, AgentState::IDLE));
}

#[test]
fn multi_agent_run_never_collides() {
    let grid = open_grid(4, 4);
    let tasks = vec![
        Task { pickup: (3, 3), delivery: (0, 0), peer_id: None, task_id: None },
        Task { pickup: (0, 3), delivery: (3, 0), peer_id: None, task_id: None },
        Task { pickup: (1, 2), delivery: (2, 1), peer_id: None, task_id: None },
    ];
    let paths = tswap_mapd(&grid, vec![(0, 0), (3, 0), (1, 1)], &tasks);
    let len = paths[0].len();
    assert!(len >= 1 && len <= 2001);
    for p in &paths {
        assert_eq!(p.len(), len);
    }
    for t in 0..len {
        for i in 0..paths.len() {
            for j in 0..paths.len() {
                if i != j {
                    assert_ne!(paths[i][t].0, paths[j][t].0);
                }
            }
            if t > 0 {
                let (a, b) = (paths[i][t].0, paths[i][t - 1].0);
                let d = a.0.abs_diff(b.0) + a.1.abs_diff(b.1);
                assert!(d <= 1);
            }
        }
    }
}

fn check_feasible(
    path: &[(usize, usize)],
    start_time: usize,
    node_res: &NodeReservation,
    edge_res: &EdgeReservation,
) {
    for k in 0..path.len() - 1 {
        let (p, q, t) = (path[k], path[k + 1], start_time + k + 1);
        assert!(p.0.abs_diff(q.0) + p.1.abs_diff(q.1) <= 1);
        assert!(!node_res.contains(&(q, t)));
        assert!(!node_res.contains(&(p, t)));
        assert!(!edge_res.contains(&((p, q), t)));
        assert!(!edge_res.contains(&((q, p), t)));
    }
}

#[test]
fn reserved_path_avoids_reserved_cell_at_its_time() {
    let grid = open_grid(5, 5);
    let node_res: NodeReservation = vec![((2, 2), 4)];
    let edge_res: EdgeReservation = vec![];
    let path = astar_with_reservation(&grid, (0, 0), (4, 4), &node_res, &edge_res, 0).unwrap();
    assert_eq!(path.len(), 9);
    assert_eq!(path[0], (0, 0));
    assert_eq!(path[8], (4, 4));
    assert_ne!(path[4], (2, 2));
    check_feasible(&path, 0, &node_res, &edge_res);
}

#[test]
fn reserved_path_waits_when_the_only_way_is_blocked() {
    // corridor; the middle cell is reserved at time 1, so the agent must wait
    let grid = grid_of(&["..."]);
    let node_res: NodeReservation = vec![((1, 0), 1)];
    let edge_res: EdgeReservation = vec![];
    let path = astar_with_reservation(&grid, (0, 0), (2, 0), &node_res, &edge_res, 0).unwrap();
    assert_eq!(path, vec![(0, 0), (0, 0), (1, 0), (2, 0)]);
    check_feasible(&path, 0, &node_res, &edge_res);
}

#[test]
fn reserved_path_respects_edges_in_both_directions() {
    let grid = grid_of(&["..", ".."]);
    let node_res: NodeReservation = vec![];
    let edge_res: EdgeReservation = vec![(((1, 0), (0, 0)), 1)];
    let path = astar_with_reservation(&grid, (0, 0), (1, 0), &node_res, &edge_res, 0).unwrap();
    assert_eq!(path.len(), 3);
    check_feasible(&path, 0, &node_res, &edge_res);
}

#[test]
fn reserved_path_to_start_is_start() {
    let grid = open_grid(3, 3);
    let path = astar_with_reservation(&grid, (1, 1), (1, 1), &vec![], &vec![], 7).unwrap();
    assert_eq!(path, vec![(1, 1)]);
}

#[test]
fn reserved_path_fails_when_goal_is_walled_off() {
    let grid = grid_of(&[".@."]);
    assert!(astar_with_reservation(&grid, (0, 0), (2, 0), &vec![], &vec![], 0).is_none());
}

fn node(id: usize, pos: (usize, usize), neighbors: Vec<usize>) -> Node {
    Node { id, pos, neighbors }
}

#[test]
fn head_on_pair_exchanges_goals_without_crossing() {
    let nodes = vec![node(0, (0, 0), vec![1]), node(1, (1, 0), vec![0])];
    let mut agents = vec![Agent { id: 0, v: 0, g: 1 }, Agent { id: 1, v: 1, g: 0 }];
    tswap_step(&mut agents, &nodes);
    assert_eq!((agents[0].v, agents[0].g), (0, 0));
    assert_eq!((agents[1].v, agents[1].g), (1, 1));
}

#[test]
fn parked_agent_takes_the_goal_and_moves_on() {
    let nodes = vec![node(0, (0, 0), vec![1]), node(1, (1, 0), vec![2, 0]), node(2, (2, 0), vec![1])];
    let mut agents = vec![Agent { id: 0, v: 0, g: 2 }, Agent { id: 1, v: 1, g: 1 }];
    tswap_step(&mut agents, &nodes);
    assert_eq!((agents[0].v, agents[0].g), (0, 1));
    assert_eq!((agents[1].v, agents[1].g), (2, 2));
}

#[test]
fn four_cycle_rotates_goals_once() {
    let nodes = vec![
        node(0, (0, 0), vec![2, 1]),
        node(1, (1, 0), vec![3, 0]),
        node(2, (0, 1), vec![3, 0]),
        node(3, (1, 1), vec![1, 2]),
    ];
    let mut agents = vec![
        Agent { id: 0, v: 0, g: 1 },
        Agent { id: 1, v: 1, g: 3 },
        Agent { id: 2, v: 3, g: 2 },
        Agent { id: 3, v: 2, g: 0 },
    ];
    tswap_step(&mut agents, &nodes);
    assert_eq!(agents.iter().map(|a| a.v).collect::<Vec<_>>(), vec![0, 1, 3, 2]);
    assert_eq!(agents.iter().map(|a| a.g).collect::<Vec<_>>(), vec![0, 1, 3, 2]);
}

#[test]
fn idle_run_records_one_tick_without_moves() {
    let grid = grid_of(&["..."]);
    let paths = tswap_mapd(&grid, vec![(0, 0), (2, 0)], &[]);
    assert_eq!(paths.len(), 2);
    assert_eq!(paths[0].len(), 1);
    assert_eq!(paths[0][0].0, (0, 0));
    assert_eq!(paths[1][0].0, (2, 0));
    assert!(matches!(paths[0][0].1, AgentState::IDLE));
}

#[test]
fn single_agent_trajectory_tick_by_tick() {
    let grid = open_grid(5, 5);
    let tasks = vec![Task { pickup: (2, 0), delivery: (2, 4), peer_id: None, task_id: Some(1) }];
    let paths = tswap_mapd(&grid, vec![(0, 0)], &tasks);
    let cells: Vec<(usize, usize)> = paths[0].iter().map(|s| s.0).collect();
    assert_eq!(cells, vec![(1, 0), (2, 0), (2, 1), (2, 2), (2, 3), (2, 4), (2, 4)]);
    let states: Vec<&str> = paths[0]
        .iter()
        .map(|s| match s.1 {
            AgentState::PICKING => "picking",
            AgentState::CARRYING => "carrying",
            AgentState::DELIVERED => "delivered",
            AgentState::IDLE => "idle",
        })
        .collect();
    assert_eq!(states, vec!["picking", "picking", "carrying", "carrying", "carrying", "delivered", "idle"]);
}
