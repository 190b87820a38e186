use p2p_distributed_tswap::graph::{build_graph, get_path, Node};
use p2p_distributed_tswap::grid::{get_free_cells, heuristic, manhattan_distance, parse_map};

fn grid_of(rows: &[&str]) -> Vec<Vec<char>> {
    rows.iter().map(|r| r.chars().collect()).collect()
}

#[test]
fn parse_map_strips_carriage_returns_and_blank_lines() {
    let grid = parse_map("..@\r\n\r\n   \n.@.\n");
    assert_eq!(grid, vec![vec!['.', '.', '@'], vec!['.', '@', '.']]);
}

#[test]
fn parse_map_keeps_last_line_without_newline() {
    let grid = parse_map("@.\n.@");
    assert_eq!(grid, vec![vec!['@', '.'], vec!['.', '@']]);
}

#[test]
fn parse_map_of_empty_text_is_empty() {
    assert!(parse_map("").is_empty());
    assert!(parse_map("\n \t\n").is_empty());
}

#[test]
fn free_cells_are_dots_in_row_major_order() {
    let grid = grid_of(&[".@.", "x..", "@"]);
    assert_eq!(get_free_cells(&grid), vec![(0, 0), (2, 0), (1, 1), (2, 1)]);
}

#[test]
fn heuristic_is_manhattan_distance() {
    assert_eq!(heuristic((0, 0), (3, 4)), 7);
    assert_eq!(heuristic((5, 1), (2, 6)), 8);
    assert_eq!(manhattan_distance((2, 2), (2, 2)), 0);
    assert_eq!(manhattan_distance((1, 7), (4, 3)), 7);
}

#[test]
fn graph_links_four_adjacent_free_cells() {
    let grid = grid_of(&["..", ".@"]);
    let nodes = build_graph(&grid);
    assert_eq!(nodes.len(), 3);
    assert_eq!(nodes[0].pos, (0, 0));
    assert_eq!(nodes[1].pos, (1, 0));
    assert_eq!(nodes[2].pos, (0, 1));
    // below, right, above, left
    assert_eq!(nodes[0].neighbors, vec![2, 1]);
    assert_eq!(nodes[1].neighbors, vec![0]);
    assert_eq!(nodes[2].neighbors, vec![0]);
    for (i, n) in nodes.iter().enumerate() {
        assert_eq!(n.id, i);
    }
}

fn is_walk(nodes: &[Node], path: &[usize]) -> bool {
    path.windows(2).all(|w| nodes[w[0]].neighbors.contains(&w[1]))
}

#[test]
fn get_path_finds_shortest_route_around_wall() {
    let grid = grid_of(&["...", ".@.", "..."]);
    let nodes = build_graph(&grid);
    let id = |p: (usize, usize)| nodes.iter().position(|n| n.pos == p).unwrap();
    let path = get_path(id((0, 0)), id((2, 2)), &nodes);
    assert_eq!(path.first(), Some(&id((0, 0))));
    assert_eq!(path.last(), Some(&id((2, 2))));
    assert!(is_walk(&nodes, &path));
    assert_eq!(path.len(), 5);
    // the canonical walk: from each vertex the least-id neighbour on a shortest walk
    assert_eq!(path, vec![0, 1, 2, 4, 7]);
}

#[test]
fn get_path_to_itself_is_single_vertex() {
    let grid = grid_of(&["..."]);
    let nodes = build_graph(&grid);
    assert_eq!(get_path(1, 1, &nodes), vec![1]);
}

#[test]
fn get_path_falls_back_to_best_neighbor_when_unreachable() {
    // (0,0) (1,0) | wall | (3,0); goal (3,0) cannot be reached
    let grid = grid_of(&["..@."]);
    let nodes = build_graph(&grid);
    assert_eq!(nodes.len(), 3);
    let path = get_path(0, 2, &nodes);
    assert_eq!(path, vec![0, 1]);
    // from (1,0) the only neighbour is taken even though it is farther
    assert_eq!(get_path(1, 2, &nodes), vec![1, 0]);
}

#[test]
fn get_path_without_neighbors_returns_start() {
    let grid = grid_of(&[".@."]);
    let nodes = build_graph(&grid);
    assert_eq!(get_path(0, 1, &nodes), vec![0]);
}
