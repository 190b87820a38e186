use p2p_distributed_tswap::graph::build_graph;
use p2p_distributed_tswap::grid::get_free_cells;
use p2p_distributed_tswap::manager::{plan_all_paths, AgentRecord, Manager, TaskPhase};
use p2p_distributed_tswap::neighbors::{
    compute_next_move_with_tswap, plan_move, AgentInfo, NearbyAgents, TswapAction,
};
use p2p_distributed_tswap::protocol::{
    choose_initial_cell, AgentNode, GoalSwapRequest, GoalSwapResponse, TargetRotationRequest,
};
use p2p_distributed_tswap::run_config::TestConfig;
use p2p_distributed_tswap::tasks::{
    generate_start_goal_pair, generate_start_goal_pairs, generate_start_positions, Task,
    TaskGeneratorAgent,
};

fn open_grid(w: usize, h: usize) -> Vec<Vec<char>> {
    vec![vec!['.'; w]; h]
}

fn info(peer: &str, pos: (usize, usize), goal: (usize, usize), ts: u64) -> AgentInfo {
    AgentInfo { peer_id: peer.to_string(), current_pos: pos, goal_pos: goal, timestamp: ts }
}

#[test]
fn default_run_config() {
    let c = TestConfig::default();
    assert_eq!(c.num_agents, 3);
    assert_eq!(c.map_size, 100);
    assert_eq!(c.wait_time_secs, 60);
}

#[test]
fn generated_tasks_use_two_distinct_free_cells() {
    let grid: Vec<Vec<char>> = vec![".@.".chars().collect(), "@..".chars().collect()];
    let free = get_free_cells(&grid);
    let mut gen = TaskGeneratorAgent::new(&grid);
    for _ in 0..20 {
        let t = gen.generate_task().unwrap();
        assert_ne!(t.pickup, t.delivery);
        assert!(free.contains(&t.pickup) && free.contains(&t.delivery));
        assert!(t.peer_id.is_none() && t.task_id.is_none());
    }
    let tasks = gen.generate_multiple_tasks(4);
    assert_eq!(tasks.len(), 4);
}

#[test]
fn generation_fails_with_fewer_than_two_free_cells() {
    let grid: Vec<Vec<char>> = vec!["@.@".chars().collect()];
    let mut gen = TaskGeneratorAgent::new(&grid);
    assert!(gen.generate_task().is_none());
    assert!(gen.generate_multiple_tasks(3).is_empty());
}

#[test]
fn start_goal_pairs_are_distinct_free_cells() {
    let grid = open_grid(3, 3);
    let pairs = generate_start_goal_pairs(&grid, 10);
    assert_eq!(pairs.len(), 4);
    let mut seen = Vec::new();
    for (a, b) in &pairs {
        assert!(!seen.contains(a) && !seen.contains(b) && a != b);
        seen.push(*a);
        seen.push(*b);
    }
    let (a, b) = generate_start_goal_pair(&grid);
    assert_ne!(a, b);
    let starts = generate_start_positions(&grid, 5);
    assert_eq!(starts.len(), 5);
    let starts = generate_start_positions(&grid, 50);
    assert_eq!(starts.len(), 9);
}

#[test]
fn neighbor_table_keeps_newest_report_per_peer() {
    let mut t = NearbyAgents::new_at(100);
    t.update(info("a", (0, 0), (3, 3), 10));
    t.update(info("b", (1, 0), (0, 0), 10));
    t.update(info("a", (0, 1), (3, 3), 12));
    t.update(info("a", (9, 9), (3, 3), 11));
    assert_eq!(t.agents.len(), 2);
    assert_eq!(t.agents[0].current_pos, (0, 1));
    assert_eq!(t.agents[0].timestamp, 12);
}

#[test]
fn nearby_excludes_self_and_far_peers() {
    let mut t = NearbyAgents::new_at(0);
    t.update(info("me", (0, 0), (0, 0), 1));
    t.update(info("near", (1, 1), (0, 0), 1));
    t.update(info("far", (9, 9), (0, 0), 1));
    let near = t.get_nearby((0, 0), 3, "me");
    assert_eq!(near.len(), 1);
    assert_eq!(near[0].peer_id, "near");
}

#[test]
fn stale_reports_are_evicted_on_cadence() {
    let mut t = NearbyAgents::new_at(100);
    t.update(info("old", (0, 0), (0, 0), 80));
    t.update(info("new", (1, 0), (0, 0), 99));
    t.cleanup_old_at(103, 10);
    assert_eq!(t.agents.len(), 2, "too soon after the last eviction");
    t.cleanup_old_at(105, 10);
    assert_eq!(t.agents.len(), 1);
    assert_eq!(t.agents[0].peer_id, "new");
    assert_eq!(t.last_cleanup, 105);
}

#[test]
fn decision_never_uses_stale_reports() {
    let grid = open_grid(3, 1);
    let nodes = build_graph(&grid);
    let mut t = NearbyAgents::new_at(0);
    // a stale report claims the next cell is taken
    t.update(info("ghost", (1, 0), (1, 0), 5));
    let (act, used) = plan_move(&mut t, 100, 10, (0, 0), (2, 0), "me", 15, &nodes);
    assert!(used.is_empty());
    assert!(t.agents.is_empty());
    assert!(matches!(act, TswapAction::Move(p) if p == (1, 0)));
}

#[test]
fn decentralized_decisions() {
    let grid = open_grid(3, 3);
    let nodes = build_graph(&grid);
    // at goal: stay
    assert!(matches!(
        compute_next_move_with_tswap((1, 1), (1, 1), "me", &[], &nodes),
        TswapAction::Move(p) if p == (1, 1)
    ));
    // free next cell: move there
    match compute_next_move_with_tswap((0, 0), (2, 0), "me", &[], &nodes) {
        TswapAction::Move(p) => {
            assert_eq!(p.0.abs_diff(0) + p.1.abs_diff(0), 1);
        }
        _ => panic!("expected a move"),
    }
    // blocked by a peer resting at its goal: ask for a goal swap
    let grid1 = open_grid(3, 1);
    let nodes1 = build_graph(&grid1);
    let parked = vec![info("p", (1, 0), (1, 0), 1)];
    match compute_next_move_with_tswap((0, 0), (2, 0), "me", &parked, &nodes1) {
        TswapAction::WaitForGoalSwap(peer) => assert_eq!(peer, "p"),
        _ => panic!("expected a goal swap"),
    }
    // blocked by a peer whose next cell is ours: ask the cycle to rotate
    let busy = vec![info("q", (1, 0), (0, 0), 1), info("r", (2, 0), (1, 0), 1)];
    match compute_next_move_with_tswap((0, 0), (2, 0), "me", &busy, &nodes1) {
        TswapAction::WaitForRotation(ps, gs) => {
            assert_eq!(ps, vec!["me".to_string(), "q".to_string()]);
            assert_eq!(gs, vec![(2, 0), (0, 0)]);
        }
        _ => panic!("expected a rotation"),
    }
    // a blocker whose next cell is free elsewhere: wait
    let grid2 = open_grid(3, 2);
    let nodes2 = build_graph(&grid2);
    let leaving = vec![info("q", (1, 0), (1, 1), 1)];
    assert!(matches!(
        compute_next_move_with_tswap((0, 0), (2, 0), "me", &leaving, &nodes2),
        TswapAction::Wait
    ));
}

fn record(peer: &str, pos: (usize, usize), goal: Option<(usize, usize)>) -> AgentRecord {
    AgentRecord {
        peer_id: peer.to_string(),
        current_pos: pos,
        goal_pos: goal,
        task: None,
        task_phase: TaskPhase::Idle,
    }
}

#[test]
fn central_planning_moves_agents_one_step_without_collision() {
    let grid = open_grid(3, 3);
    let nodes = build_graph(&grid);
    let mut agents = vec![
        record("a", (0, 1), Some((2, 1))),
        record("b", (2, 1), Some((0, 1))),
        record("c", (1, 0), None),
    ];
    let instr = plan_all_paths(&mut agents, &nodes, 77);
    assert_eq!(instr.len(), 3);
    for (i, m) in instr.iter().enumerate() {
        assert_eq!(m.peer_id, agents[i].peer_id);
        assert_eq!(m.next_pos, agents[i].current_pos);
        assert_eq!(m.timestamp, 77);
    }
    assert_eq!(agents[2].current_pos, (1, 0));
    assert_ne!(agents[0].current_pos, agents[1].current_pos);
}

#[test]
fn dispatch_numbers_tasks_in_increasing_order() {
    let grid = open_grid(4, 4);
    let mut gen = TaskGeneratorAgent::new(&grid);
    let mut m = Manager::new();
    assert!(m.record_position("a".to_string(), (0, 0)));
    assert!(m.record_position("b".to_string(), (1, 0)));
    assert!(!m.record_position("a".to_string(), (0, 1)));
    assert_eq!(m.agents[0].current_pos, (0, 1));
    assert!(m.prepare_dispatch(&mut gen, 10).is_none(), "nothing pending");
    m.pending = 3;
    let mut ids = Vec::new();
    while let Some((idx, task)) = m.prepare_dispatch(&mut gen, 10) {
        ids.push(task.task_id.unwrap());
        assert_eq!(task.peer_id.as_deref(), Some(m.agents[idx].peer_id.as_str()));
        m.commit_dispatch(idx, task);
        assert_eq!(m.agents[idx].task_phase, TaskPhase::MovingToPickup);
    }
    assert_eq!(ids, vec![1, 2]);
    assert_eq!(m.pending, 1);
    assert_eq!(m.metrics.metrics.len(), 2);
    // completion frees the agent, and the next dispatch gets a larger id
    assert_eq!(m.complete_task(1).as_deref(), Some("a"));
    assert_eq!(m.agents[0].task_phase, TaskPhase::Idle);
    assert!(m.agents[0].task.is_none());
    let (idx, task) = m.prepare_dispatch(&mut gen, 20).unwrap();
    assert_eq!(idx, 0);
    assert_eq!(task.task_id, Some(3));
    assert!(m.complete_task(42).is_none());
}

#[test]
fn reaching_pickup_switches_to_delivery() {
    let mut m = Manager::new();
    m.record_position("a".to_string(), (2, 0));
    let task = Task { pickup: (2, 0), delivery: (2, 4), peer_id: Some("a".to_string()), task_id: Some(0) };
    m.commit_dispatch(0, task);
    m.advance_phases();
    assert_eq!(m.agents[0].task_phase, TaskPhase::MovingToDelivery);
    assert_eq!(m.agents[0].goal_pos, Some((2, 4)));
}

#[test]
fn goal_swap_round_trip() {
    let mut a = AgentNode::new("A".to_string(), (5, 5));
    let mut b = AgentNode::new("B".to_string(), (1, 1));
    let req = GoalSwapRequest {
        request_id: "r1".to_string(),
        from_peer: "A".to_string(),
        to_peer: "B".to_string(),
        my_goal: a.goal,
    };
    a.await_goal_swap("r1".to_string());
    let resp = b.handle_goal_swap_request(&req).unwrap();
    assert_eq!(b.goal, (5, 5));
    assert_eq!(resp.my_goal, (1, 1));
    assert!(resp.accepted);
    assert!(b.handle_goal_swap_request(&req).is_none(), "duplicate request");
    assert!(a.handle_goal_swap_response(&resp));
    assert_eq!(a.goal, (1, 1));
    assert!(!a.handle_goal_swap_response(&resp), "no longer waiting");
    let other = GoalSwapRequest { to_peer: "C".to_string(), ..req };
    assert!(b.handle_goal_swap_request(&other).is_none());
    let stray = GoalSwapResponse {
        request_id: "zz".to_string(),
        from_peer: "B".to_string(),
        to_peer: "A".to_string(),
        my_goal: (9, 9),
        accepted: true,
    };
    assert!(!a.handle_goal_swap_response(&stray));
    assert_eq!(a.goal, (1, 1));
}

#[test]
fn rotation_takes_the_next_participants_goal() {
    let req = TargetRotationRequest {
        request_id: "rot".to_string(),
        initiator: "X".to_string(),
        participants: vec!["X".to_string(), "Y".to_string(), "Z".to_string()],
        goals: vec![(0, 0), (1, 0), (2, 0)],
    };
    let mut z = AgentNode::new("Z".to_string(), (2, 0));
    assert_eq!(z.handle_rotation(&req), Some((0, 0)));
    assert_eq!(z.goal, (0, 0));
    assert_eq!(z.handle_rotation(&req), None);
    let mut y = AgentNode::new("Y".to_string(), (1, 0));
    assert_eq!(y.handle_rotation(&req), Some((2, 0)));
    let mut w = AgentNode::new("W".to_string(), (7, 7));
    assert_eq!(w.handle_rotation(&req), None);
    assert_eq!(w.goal, (7, 7));
}

#[test]
fn move_instructions_drive_the_task_lifecycle() {
    let me = "A".to_string();
    let mut a = AgentNode::new(me.clone(), (0, 0));
    let task = Task { pickup: (2, 0), delivery: (2, 2), peer_id: Some(me.clone()), task_id: Some(4) };
    assert!(a.receive_task(task));
    assert_eq!(a.phase, TaskPhase::MovingToPickup);
    let not_mine = Task { pickup: (0, 0), delivery: (1, 1), peer_id: Some("B".to_string()), task_id: Some(5) };
    assert!(!a.receive_task(not_mine));
    assert_eq!(a.apply_move_instruction(&me, (1, 0), 1), None);
    assert_eq!(a.apply_move_instruction(&"B".to_string(), (9, 9), 2), None);
    assert_eq!(a.position, Some((1, 0)));
    assert_eq!(a.apply_move_instruction(&me, (2, 0), 2), None);
    assert_eq!(a.phase, TaskPhase::MovingToDelivery);
    assert_eq!(a.goal, (2, 2));
    // an older instruction is ignored
    assert_eq!(a.apply_move_instruction(&me, (0, 0), 1), None);
    assert_eq!(a.position, Some((2, 0)));
    assert_eq!(a.apply_move_instruction(&me, (2, 1), 3), None);
    assert_eq!(a.apply_move_instruction(&me, (2, 2), 4), Some(Some(4)));
    assert_eq!(a.phase, TaskPhase::Idle);
    assert!(a.task.is_none());
}

#[test]
fn initial_cell_avoids_occupied_cells() {
    let free = vec![(0, 0), (1, 0), (2, 0)];
    let occupied = vec![(0, 0), (2, 0)];
    assert_eq!(choose_initial_cell(&free, &occupied), Some((1, 0)));
    assert_eq!(choose_initial_cell(&free, &free), None);
    let c = choose_initial_cell(&free, &vec![]).unwrap();
    assert!(free.contains(&c));
}

#[test]
fn three_agents_elect_distinct_cells_on_three_cell_map() {
    let free = vec![(0, 0), (1, 0), (2, 0)];
    let mut occupied: Vec<(usize, usize)> = Vec::new();
    for _ in 0..3 {
        let c = choose_initial_cell(&free, &occupied).unwrap();
        assert!(!occupied.contains(&c));
        occupied.push(c);
    }
    assert_eq!(choose_initial_cell(&free, &occupied), None);
}

#[test]
fn trimming_drops_oldest_idle_agents_only() {
    let mut m = Manager::new();
    for (peer, x) in [("a", 0), ("b", 1), ("c", 2), ("d", 3)] {
        m.record_position(peer.to_string(), (x, 0));
    }
    let task = Task { pickup: (0, 1), delivery: (1, 1), peer_id: Some("b".to_string()), task_id: Some(0) };
    m.commit_dispatch(1, task);
    m.trim_idle_agents(2);
    let left: Vec<&str> = m.agents.iter().map(|r| r.peer_id.as_str()).collect();
    assert_eq!(left, vec!["b", "d"]);
    m.trim_idle_agents(5);
    assert_eq!(m.agents.len(), 2);
    m.trim_idle_agents(0);
    let left: Vec<&str> = m.agents.iter().map(|r| r.peer_id.as_str()).collect();
    assert_eq!(left, vec!["b"]);
}
