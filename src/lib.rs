//! A trivia-question bank: line-structured resource text is parsed into
//! per-category pools of multiple-choice questions, and a session object
//! serves questions from those pools, by index or at random, optionally
//! never serving the same question twice.

mod catalog;
mod category;
mod engine;
mod error;
mod laws;
mod parser;
mod question;

pub use catalog::{catalog_wf, index_categories, load_pool, CachedCategory};
pub use category::{category_at, lemma_ordinal_injective, ordinal_of, Category, CATEGORY_COUNT};
pub use engine::{
    drawn_pick, exhausted, lemma_catalog_total, picked_result, pools_of, result_model,
    scan_unspent, serve_step, specific_pick, unspent_indices, unspent_upto, ContextModel, Seeding,
    TriviaContext,
};
pub use error::TriviaError;
pub use laws::{
    lemma_every_category_has_questions, lemma_exhaustion, lemma_no_marker_no_question,
    lemma_no_repeats, lemma_one_question_per_marker, lemma_specific_is_deterministic,
    lemma_specific_wraps, serve_chain,
};
pub use parser::{
    finished, get_questions, is_option_marker, line_scan, marker_count, models, opt_model,
    parse_line, parse_lines, parse_text, strip_cr, text_lines, ParseError, ParseState,
};
pub use question::{blank_model, Question, QuestionModel};
