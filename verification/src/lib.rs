//! An interactive zero-knowledge proof of Sudoku solvability.
//!
//! A completed Sudoku grid is encoded as a proper 9-coloring of a
//! constraint graph; over repeated hash-commitment rounds the prover
//! convinces a verifier that the coloring is proper — and therefore that
//! the grid is solved — without revealing it.
//!
//! The crate is organized leaves first: [`codec`] and [`codec_seq`] give
//! the bit-exact little-endian wire encoding with its round-trip laws;
//! [`crypto`] holds the SHA-256 commitment and the randomness sources;
//! [`graph`] the colored-graph model; [`sudoku`] the puzzle type and its
//! reduction to the constraint graph; [`protocol`] the prover's state
//! machine and the verifier's checks, with the completeness and soundness
//! arguments.

pub mod codec;
pub mod codec_seq;
pub mod crypto;
pub mod graph;
pub mod protocol;
pub mod sudoku;
