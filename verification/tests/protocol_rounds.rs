use zk_sudoku::codec::Bytes;
use zk_sudoku::protocol::{
    clamp_count, choose_challenge_edges, decode_commitments, encode_edges, prover_challenges,
    prover_commitments, random_mapper, verify_response, Opening, ProtocolError, ProverState,
    VerificationError,
};
use zk_sudoku::sudoku::{graph_of, Sudoku};

fn puzzle_rows() -> Vec<Vec<u8>> {
    vec![
        vec![4, 0, 0, 0, 9, 6, 2, 0, 8],
        vec![3, 0, 8, 1, 0, 0, 0, 9, 0],
        vec![9, 6, 1, 0, 0, 0, 7, 0, 0],
        vec![0, 0, 3, 4, 0, 5, 9, 6, 0],
        vec![6, 0, 0, 9, 2, 8, 0, 7, 4],
        vec![0, 0, 4, 7, 0, 0, 1, 0, 0],
        vec![0, 0, 9, 0, 0, 2, 0, 0, 1],
        vec![0, 0, 0, 8, 3, 1, 6, 4, 0],
        vec![0, 0, 0, 0, 4, 0, 0, 2, 7],
    ]
}

fn solution_rows() -> Vec<Vec<u8>> {
    vec![
        vec![4, 5, 7, 3, 9, 6, 2, 1, 8],
        vec![3, 2, 8, 1, 5, 7, 4, 9, 6],
        vec![9, 6, 1, 2, 8, 4, 7, 5, 3],
        vec![7, 8, 3, 4, 1, 5, 9, 6, 2],
        vec![6, 1, 5, 9, 2, 8, 3, 7, 4],
        vec![2, 9, 4, 7, 6, 3, 1, 8, 5],
        vec![8, 4, 9, 6, 7, 2, 5, 3, 1],
        vec![5, 7, 2, 8, 3, 1, 6, 4, 9],
        vec![1, 3, 6, 5, 4, 9, 8, 2, 7],
    ]
}

/// A Latin square that satisfies rows and columns but breaks the boxes.
fn fake_rows() -> Vec<Vec<u8>> {
    vec![
        vec![1, 2, 3, 4, 5, 6, 7, 8, 9],
        vec![4, 5, 6, 7, 8, 9, 1, 2, 3],
        vec![7, 8, 9, 1, 2, 3, 4, 5, 6],
        vec![2, 3, 4, 5, 6, 7, 8, 9, 1],
        vec![5, 6, 7, 8, 9, 1, 2, 3, 4],
        vec![8, 9, 1, 2, 3, 4, 5, 6, 7],
        vec![3, 4, 5, 6, 7, 8, 9, 1, 2],
        vec![6, 7, 8, 9, 1, 2, 3, 4, 5],
        vec![9, 1, 2, 3, 4, 5, 6, 7, 8],
    ]
}

fn solved_prover() -> Sudoku {
    let puzzle = Sudoku::from_grid(puzzle_rows()).unwrap();
    Sudoku::new(solution_rows(), puzzle.given.clone()).unwrap()
}

/// Runs one full pass of `count` sub-rounds against `prover_sudoku`,
/// challenging with the given edges (or uniformly drawn ones).
fn run_pass(
    prover_sudoku: &Sudoku,
    count: usize,
    edges: Option<Vec<zk_sudoku::graph::Edge>>,
) -> Result<(), VerificationError> {
    let mut state = ProverState::Idle;
    let commitment_body = prover_commitments(&mut state, prover_sudoku, Some(count));

    // Verifier side: its own copy of the puzzle fixes the edge indexing.
    let verifier_puzzle = Sudoku::from_grid(puzzle_rows()).unwrap();
    let graph = graph_of(&verifier_puzzle);
    let commitments = decode_commitments(&commitment_body)?;
    let edges = match edges {
        Some(e) => e,
        None => choose_challenge_edges(&graph, count),
    };
    let challenge_body = encode_edges(&edges);

    let response_body =
        prover_challenges(&mut state, &challenge_body).expect("prover accepts the challenge");
    verify_response(&commitments, &edges, &response_body)
}

#[test]
fn honest_prover_passes_ten_by_ten() {
    let prover = solved_prover();
    for _ in 0..10 {
        assert_eq!(run_pass(&prover, 10, None), Ok(()));
    }
}

#[test]
fn box_breaking_grid_is_caught() {
    let puzzle = Sudoku::from_grid(puzzle_rows()).unwrap();
    let prover = Sudoku::new(fake_rows(), puzzle.given.clone()).unwrap();
    // Challenge every edge once: some intra-box edge must open with equal
    // colors.  The fake grid is complete, so the first failure is the
    // constraint violation, never an empty cell.
    let graph = graph_of(&Sudoku::from_grid(puzzle_rows()).unwrap());
    let count = graph.num_edges();
    let edges = graph.edges.clone();
    assert_eq!(
        run_pass(&prover, count, Some(edges)),
        Err(VerificationError::UnsatisfiedConstraint)
    );
}

#[test]
fn unfinished_grid_opens_an_empty_cell() {
    let prover = Sudoku::from_grid(puzzle_rows()).unwrap();
    // The very first edge (0,1) touches the empty cell (1,0).
    let graph = graph_of(&prover);
    let count = graph.num_edges();
    let edges = graph.edges.clone();
    assert_eq!(run_pass(&prover, count, Some(edges)), Err(VerificationError::Unsolved));
}

#[test]
fn tampered_key_breaks_the_hash() {
    let prover = solved_prover();
    let mut state = ProverState::Idle;
    let commitment_body = prover_commitments(&mut state, &prover, Some(4));
    let commitments = decode_commitments(&commitment_body).unwrap();

    let verifier_puzzle = Sudoku::from_grid(puzzle_rows()).unwrap();
    let graph = graph_of(&verifier_puzzle);
    let edges = choose_challenge_edges(&graph, 4);
    let challenge_body = encode_edges(&edges);
    let response_body = prover_challenges(&mut state, &challenge_body).unwrap();

    let mut openings = <Vec<Opening>>::from_bytes(&response_body).unwrap();
    openings[2].first_key ^= 1;
    let tampered = openings.to_bytes();
    assert_eq!(
        verify_response(&commitments, &edges, &tampered),
        Err(VerificationError::IncorrectHash)
    );
}

#[test]
fn wrong_length_challenge_is_a_protocol_error() {
    let prover = solved_prover();
    let mut state = ProverState::Idle;
    let _ = prover_commitments(&mut state, &prover, Some(5));

    let graph = graph_of(&Sudoku::from_grid(puzzle_rows()).unwrap());
    // Three edges instead of the committed five.
    let edges = choose_challenge_edges(&graph, 3);
    let challenge_body = encode_edges(&edges);
    assert_eq!(
        prover_challenges(&mut state, &challenge_body),
        Err(ProtocolError::WrongChallengeCount)
    );
}

#[test]
fn wrong_length_response_fails_the_pass() {
    let prover = solved_prover();
    let mut state = ProverState::Idle;
    let commitment_body = prover_commitments(&mut state, &prover, Some(5));
    let commitments = decode_commitments(&commitment_body).unwrap();

    let graph = graph_of(&Sudoku::from_grid(puzzle_rows()).unwrap());
    let edges = choose_challenge_edges(&graph, 5);
    let challenge_body = encode_edges(&edges);
    let response_body = prover_challenges(&mut state, &challenge_body).unwrap();

    // Present the verifier fewer edges than the response opens.
    let fewer = edges[..4].to_vec();
    let mut fewer_commitments = commitments;
    fewer_commitments.truncate(4);
    assert_eq!(
        verify_response(&fewer_commitments, &fewer, &response_body),
        Err(VerificationError::InvalidVerificationData)
    );
}

#[test]
fn challenge_before_commit_is_rejected() {
    let mut state = ProverState::Idle;
    let graph = graph_of(&Sudoku::from_grid(puzzle_rows()).unwrap());
    let edges = choose_challenge_edges(&graph, 2);
    let challenge_body = encode_edges(&edges);
    assert_eq!(prover_challenges(&mut state, &challenge_body), Err(ProtocolError::NotCommitted));
}

#[test]
fn garbage_challenge_is_malformed() {
    let prover = solved_prover();
    let mut state = ProverState::Idle;
    let _ = prover_commitments(&mut state, &prover, Some(2));
    assert_eq!(
        prover_challenges(&mut state, &[1, 2, 3]),
        Err(ProtocolError::MalformedChallenge)
    );
}

#[test]
fn commitment_body_has_wire_shape() {
    let prover = solved_prover();
    let mut state = ProverState::Idle;
    let body = prover_commitments(&mut state, &prover, Some(3));
    // Outer length prefix plus three fixed 90-digest groups of 2880 bytes.
    assert_eq!(body.len(), 8 + 3 * 2880);
    assert_eq!(body[0], 3);
    let commitments = decode_commitments(&body).unwrap();
    assert_eq!(commitments.len(), 3);
    for batch in &commitments {
        assert_eq!(batch.digests.len(), 90);
        for d in &batch.digests {
            assert_eq!(d.bytes.len(), 32);
        }
    }
}

#[test]
fn clamp_count_matches_the_spec() {
    assert_eq!(clamp_count(None, 1114), 1114);
    assert_eq!(clamp_count(Some(0), 1114), 1);
    assert_eq!(clamp_count(Some(10), 1114), 10);
    assert_eq!(clamp_count(Some(5000), 1114), 1114);
}

#[test]
fn random_mapper_is_an_anchored_permutation() {
    for _ in 0..50 {
        let m = random_mapper();
        assert_eq!(m.len(), 10);
        assert_eq!(m[0], 0);
        let mut seen = [false; 10];
        for &v in &m {
            assert!(v <= 9);
            assert!(!seen[v as usize]);
            seen[v as usize] = true;
        }
    }
}

#[test]
fn out_of_range_edge_is_rejected() {
    let prover = solved_prover();
    let mut state = ProverState::Idle;
    let _ = prover_commitments(&mut state, &prover, Some(2));
    let rogue = vec![zk_sudoku::graph::Edge(0, 1), zk_sudoku::graph::Edge(3, 95)];
    let challenge_body = encode_edges(&rogue);
    assert_eq!(
        prover_challenges(&mut state, &challenge_body),
        Err(ProtocolError::EdgeOutOfRange)
    );
}

#[test]
fn truncated_commitment_body_fails_the_pass() {
    let prover = solved_prover();
    let mut state = ProverState::Idle;
    let body = prover_commitments(&mut state, &prover, Some(2));
    match decode_commitments(&body[..body.len() - 1]) {
        Err(e) => assert_eq!(e, VerificationError::InvalidVerificationData),
        Ok(_) => panic!("a truncated batch must not decode"),
    }
}
