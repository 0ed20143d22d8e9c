//! A chess rules engine on bitboards: the position and its notation, an
//! attack oracle, pseudo-legal move generation per piece family, the legal
//! filter, the move applier, a material evaluator, and a fixed-depth
//! negamax searcher. Every executable function carries a contract stating
//! exactly what it computes over the square-level model of the masks, and
//! the library's laws are proved on top of those contracts: the notation
//! round trip ([`notation::lemma_parsed_round_trip`]), preservation of mask
//! disjointness under the applier ([`apply::lemma_apply_preserves_disjoint`]),
//! the safety of every move the legal filter returns (the `ensures` of
//! [`board::ChessBoard::legal_moves`]), and the reduction of a depth-one
//! search to the immediate material delta
//! ([`eval::lemma_search_depth_one`]).
pub mod apply;
pub mod attack;
pub mod bits;
pub mod board;
pub mod eval;
pub mod movegen;
pub mod notation;
pub mod seqs;
