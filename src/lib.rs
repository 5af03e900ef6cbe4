//! Collatz (3n+1) trajectories on arbitrary-precision naturals: several step
//! strategies with operation counts, a minimum-tracking driver, and an incremental
//! check that a starting value falls below itself.

mod natural;
mod collatz;
mod strategies;
mod timing;
mod driver;
mod report;
mod incremental;
mod display;

pub use natural::{Natural, digits_value};
pub use collatz::{
    collatz, iterate, odd_steps, even_steps, reaches_one, stops_at, stopping_time,
    lemma_iterate_split, lemma_one_step, lemma_steps_total, lemma_stopping_time,
    lemma_stop_bound, lemma_no_repeat, lemma_positive, lemma_odd_pair, lemma_halvings,
};
pub use strategies::{
    op_counts, lemma_op_counts_total, lemma_bitwise_steps, lemma_op_counts_deterministic, lemma_one_is_terminal, basic,
    basic_with_count, bitwise, bitwise_with_count, reduced_bitwise, reduced_bitwise_with_count,
    reduced_syracuse_bitwise_while, reduced_syracuse_bitwise_while_with_count, optimum_syracuse,
    optimum_syracuse_with_count,
};
pub use timing::Elapsed;
pub use driver::{odd_part, next_odd, new_minima, lemma_odd_part, SyracuseError, Method, method_named, optimum_syracuse_with_min_count, syracuse};
pub use report::{digit_char, decimal, duration_text, push_decimal, format_results};
pub use incremental::{Incremental, TIMEOUT_SECS, lemma_incremental_progress};
pub use display::{grouped_fr, tail_start, cropped, crop_biguint};
