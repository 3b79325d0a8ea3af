//! Solver for the "Letter Boxed" word puzzle.
//!
//! A puzzle consists of at least three sides, each holding a few distinct
//! letters; the letters across all sides are pairwise distinct.  A word is
//! playable when it uses only puzzle letters and no two consecutive letters
//! of it lie on the same side.  The solver finds every ordered pair of
//! playable dictionary words such that the first word's last letter equals
//! the second word's first letter and the two words together cover every
//! puzzle letter.

mod word;
mod puzzle;
mod filter;
mod solver;

pub use word::Word;
pub use word::make_word;
pub use word::has_repeating_letters;
pub use word::is_alpha;
pub use word::is_upper;
pub use word::to_upper;
pub use word::upper_all;
pub use word::canon;
pub use word::bit_of;
pub use word::mask_of;
pub use word::has_dup;
pub use word::wf_word;
pub use word::lemma_canon_shape;
pub use word::lemma_mask_case_insensitive;
pub use word::lemma_mask_contains;
pub use word::line_views;

pub use puzzle::Puzzle;
pub use puzzle::PuzzleError;
pub use puzzle::build_puzzle;
pub use puzzle::get_side;
pub use puzzle::no_repeated_sides;
pub use puzzle::strips;
pub use puzzle::side_of;
pub use puzzle::chain_ok;
pub use puzzle::split_commas;
pub use puzzle::lemma_side_of_bounds;
pub use puzzle::union_mask;
pub use puzzle::lemma_split_mask;
pub use puzzle::lemma_whole_mask_is_side_union;

pub use filter::no_space;
pub use filter::no_spaces;
pub use filter::valid_word;
pub use filter::admits;
pub use filter::admitted_canons;
pub use filter::filter_words;
pub use filter::lemma_admission;
pub use filter::lemma_admission_for_puzzle;

pub use solver::Solution;
pub use solver::solve;
pub use solver::pair_ok;
pub use solver::row_upto;
pub use solver::sols_upto;
pub use solver::solutions;
pub use solver::sol_views;
pub use solver::lemma_solution_reported;
pub use solver::lemma_cover_is_equality;
pub use solver::lemma_pipeline_deterministic;
