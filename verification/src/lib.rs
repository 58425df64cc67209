use vstd::prelude::*;

pub mod laws;
pub mod pipeline;
pub mod questions;
pub mod ranking;
pub mod scoring;
pub mod reconstruct;
pub mod strutil;

pub use crate::pipeline::build_individual_results;
pub use crate::pipeline::build_team_results;
pub use crate::pipeline::qperf_core;
pub use crate::pipeline::qperformance;
pub use crate::questions::get_question_types_by_round;
pub use crate::questions::parse_question_sets;
pub use crate::ranking::generate_matchup_key;
pub use crate::ranking::handle_matchup;
pub use crate::ranking::rank_teams;
pub use crate::reconstruct::check_new_round;
pub use crate::reconstruct::check_valid_round;
pub use crate::reconstruct::filter_records;
pub use crate::reconstruct::get_quizzer_names;
pub use crate::reconstruct::RecordCollection;
pub use crate::scoring::update_arrays;
pub use crate::scoring::Round;

verus! {

/// The spec-level list of question category letters, in the order used to
/// index the per-quizzer statistic tables (the ninth, `M`, is the synthetic
/// memory aggregate over `Q`, `R` and `V`).
pub open spec fn question_type_letters() -> Seq<char> {
    seq!['A', 'G', 'I', 'Q', 'R', 'S', 'X', 'V', 'M']
}

/// The question category letters recognised by the statistic tables.
pub fn get_question_types() -> (r: Vec<char>)
    ensures
        r@ == question_type_letters(),
{
    let r: Vec<char> = vec!['A', 'G', 'I', 'Q', 'R', 'S', 'X', 'V', 'M'];
    proof {
        assert(r@ =~= question_type_letters());
    }
    r
}

} // verus!
