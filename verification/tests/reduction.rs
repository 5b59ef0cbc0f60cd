use zk_sudoku::graph::Edge;
use zk_sudoku::sudoku::{graph_of, Sudoku};

fn reference_rows() -> Vec<Vec<u8>> {
    vec![
        vec![4, 0, 0, 0, 9, 6, 2, 0, 8],
        vec![3, 0, 8, 1, 0, 0, 0, 9, 0],
        vec![9, 6, 1, 0, 0, 0, 7, 0, 0],
        vec![0, 0, 3, 4, 0, 5, 9, 6, 0],
        vec![6, 0, 0, 9, 2, 8, 0, 7, 4],
        vec![0, 0, 4, 7, 0, 0, 1, 0, 0],
        vec![0, 0, 9, 0, 0, 2, 0, 0, 1],
        vec![0, 0, 0, 8, 3, 1, 6, 4, 0],
        vec![0, 0, 0, 0, 4, 0, 0, 2, 7],
    ]
}

#[test]
fn reference_puzzle_has_38_givens() {
    let s = Sudoku::from_grid(reference_rows()).unwrap();
    assert_eq!(s.given.len(), 38);
    let r = Sudoku::reference_puzzle();
    assert_eq!(r.given.len(), 38);
    assert_eq!(r.grid, s.grid);
}

#[test]
fn graph_has_90_nodes_and_counted_edges() {
    let s = Sudoku::from_grid(reference_rows()).unwrap();
    let g = graph_of(&s);
    assert_eq!(g.nodes.len(), 90);
    // 810 cell-family edges plus eight anchor edges per given.
    assert_eq!(g.edges.len(), 810 + 8 * 38);
}

#[test]
fn empty_puzzle_graph_has_810_edges() {
    let s = Sudoku::empty();
    let g = graph_of(&s);
    assert_eq!(g.nodes.len(), 90);
    assert_eq!(g.edges.len(), 810);
}

#[test]
fn every_edge_is_ordered_and_in_range() {
    let s = Sudoku::from_grid(reference_rows()).unwrap();
    let g = graph_of(&s);
    for e in &g.edges {
        assert!(e.0 < e.1);
        assert!(e.1 < 90);
    }
}

#[test]
fn node_colors_follow_grid_and_anchors() {
    let s = Sudoku::from_grid(reference_rows()).unwrap();
    let g = graph_of(&s);
    assert_eq!(g.nodes[0], 4); // cell (0,0)
    assert_eq!(g.nodes[4], 9); // cell (4,0)
    assert_eq!(g.nodes[9], 3); // cell (0,1)
    assert_eq!(g.nodes[80], 7); // cell (8,8)
    for v in 1..=9u8 {
        assert_eq!(g.nodes[80 + v as usize], v);
    }
}

#[test]
fn first_edges_walk_the_first_row() {
    let s = Sudoku::from_grid(reference_rows()).unwrap();
    let g = graph_of(&s);
    // Cell 0's row family comes first: (0,1) .. (0,8).
    for i in 1..9 {
        assert_eq!(g.edges[i - 1], Edge(0, i));
    }
    // Then its column family: (0,9), (0,18), ..., (0,72).
    for j in 1..9 {
        assert_eq!(g.edges[8 + j - 1], Edge(0, 9 * j));
    }
    // Then its box family: rows 1 and 2, columns 1 and 2.
    assert_eq!(g.edges[16], Edge(0, 10));
    assert_eq!(g.edges[17], Edge(0, 11));
    assert_eq!(g.edges[18], Edge(0, 19));
    assert_eq!(g.edges[19], Edge(0, 20));
}

#[test]
fn anchor_edges_skip_the_given_color() {
    let s = Sudoku::from_grid(reference_rows()).unwrap();
    let g = graph_of(&s);
    // The first given is cell (0,0) with value 4: its anchor edges are the
    // first eight after the 810 cell edges, touching every anchor but 84.
    let anchors: Vec<Edge> = g.edges[810..818].to_vec();
    let expected: Vec<Edge> =
        [81, 82, 83, 85, 86, 87, 88, 89].iter().map(|&b| Edge(0, b)).collect();
    assert_eq!(anchors, expected);
}

#[test]
fn given_cells_are_detected() {
    let s = Sudoku::from_grid(reference_rows()).unwrap();
    assert!(s.given_at(0, 0));
    assert!(s.given_at(4, 0));
    assert!(!s.given_at(1, 0));
    assert!(s.given_at(8, 8)); // cell (8,8) holds 7
}

#[test]
fn set_cell_respects_givens() {
    let mut s = Sudoku::from_grid(reference_rows()).unwrap();
    // (0,0) is given: the edit is refused.
    assert!(!s.set_cell(0, 0, 5));
    assert_eq!(s.grid[0][0], 4);
    // (1,0) is free: the edit lands.
    assert!(s.set_cell(1, 0, 5));
    assert_eq!(s.grid[0][1], 5);
    // Clearing a free cell works too.
    assert!(s.set_cell(1, 0, 0));
    assert_eq!(s.grid[0][1], 0);
}

#[test]
fn check_wf_rejects_bad_shapes() {
    // A ten-valued cell.
    let mut rows = reference_rows();
    rows[3][3] = 10;
    assert!(Sudoku::from_grid(rows).is_none());
    // A short row.
    let mut rows = reference_rows();
    rows[2].pop();
    assert!(Sudoku::from_grid(rows).is_none());
    // A given off the board.
    let bad = Sudoku::new(reference_rows(), vec![(9, 0)]);
    assert!(bad.is_none());
    // A given pointing at an empty cell.
    let bad = Sudoku::new(reference_rows(), vec![(1, 0)]);
    assert!(bad.is_none());
    // A sound explicit given list.
    let ok = Sudoku::new(reference_rows(), vec![(0, 0), (4, 0)]);
    assert!(ok.is_some());
}

#[test]
fn unconstrained_pairs_carry_no_edge() {
    let s = Sudoku::from_grid(reference_rows()).unwrap();
    let g = graph_of(&s);
    // Cells 0 (row 0, column 0) and 12 (row 1, column 3) share no row,
    // column or box, and neither endpoint is an anchor.
    assert!(!g.edges.contains(&Edge(0, 12)));
    // Cell 1 (column 1, row 0) is not given, so it gets no anchor edges.
    for b in 81..90 {
        assert!(!g.edges.contains(&Edge(1, b)));
    }
}

#[test]
fn solution_colors_are_proper_on_every_edge() {
    // The forward face of the coloring correspondence, on the concrete
    // reference solution: extending the solved grid with the anchor colors
    // gives distinct colors across every constraint edge.
    let puzzle = Sudoku::from_grid(reference_rows()).unwrap();
    let solution_rows = vec![
        vec![4, 5, 7, 3, 9, 6, 2, 1, 8],
        vec![3, 2, 8, 1, 5, 7, 4, 9, 6],
        vec![9, 6, 1, 2, 8, 4, 7, 5, 3],
        vec![7, 8, 3, 4, 1, 5, 9, 6, 2],
        vec![6, 1, 5, 9, 2, 8, 3, 7, 4],
        vec![2, 9, 4, 7, 6, 3, 1, 8, 5],
        vec![8, 4, 9, 6, 7, 2, 5, 3, 1],
        vec![5, 7, 2, 8, 3, 1, 6, 4, 9],
        vec![1, 3, 6, 5, 4, 9, 8, 2, 7],
    ];
    let solved = Sudoku::new(solution_rows, puzzle.given.clone()).unwrap();
    let g = graph_of(&solved);
    for e in &g.edges {
        assert_ne!(g.nodes[e.0], g.nodes[e.1]);
        assert!(g.nodes[e.0] >= 1 && g.nodes[e.0] <= 9);
        assert!(g.nodes[e.1] >= 1 && g.nodes[e.1] <= 9);
    }
}
