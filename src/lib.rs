//! Weighted sampling without replacement by the Gumbel-top-k trick.
//!
//! Each item carries a noisy score (its score plus Gumbel noise), given as the
//! bit pattern of an IEEE 754 double. A [`GumbelTopBucket`] ranks the items
//! once by noisy score and then hands them out from the highest down, each
//! index at most once.

mod bucket;
mod score_order;

pub use bucket::{
    is_run, lemma_draw_scores_non_increasing, lemma_draws_complete, lemma_draws_never_repeat,
    lemma_empty_bucket_stays_empty, some_draw_returns, GumbelTopBucket,
};
pub use score_order::{order_key, order_key_spec, SIGN_BIT};
