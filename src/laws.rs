use vstd::prelude::*;

use crate::catalog::{catalog_wf, CachedCategory};
use crate::category::{ordinal_of, Category};
use crate::engine::{
    exhausted, lemma_catalog_total, picked_result, serve_step, specific_pick, ContextModel,
};
use crate::error::TriviaError;
use crate::parser::{finished, marker_count, parse_lines, parse_text, text_lines};
use crate::question::QuestionModel;

verus! {

/// A run of requests: `states[i]` is the session before request `i`, made
/// for `cats[i]` with outcome `results[i]`, and `states[i + 1]` the session
/// after it.
pub open spec fn serve_chain(
    states: Seq<ContextModel>,
    cats: Seq<Category>,
    results: Seq<Result<QuestionModel, TriviaError>>,
) -> bool {
    &&& states.len() == results.len() + 1
    &&& cats.len() == results.len()
    &&& forall|i: int|
        0 <= i < results.len() ==> serve_step(
            states[i],
            states[i + 1],
            cats[i],
            #[trigger] results[i],
        )
}

/// A complete catalog gives every category a non-empty pool of its own.
pub proof fn lemma_every_category_has_questions(cats: Seq<CachedCategory>, c: Category)
    requires
        catalog_wf(cats),
    ensures
        cats[ordinal_of(c) as int].category == c,
        cats[ordinal_of(c) as int].questions.len() > 0,
{
    lemma_catalog_total(cats);
    assert(cats[ordinal_of(c) as int].category == c);
}

/// With repeats allowed, a `Specific(n)` request returns the question at
/// `n` modulo the pool size and leaves the session as it was, so asking
/// again in the same way returns the same question.
pub proof fn lemma_specific_is_deterministic(
    before: ContextModel,
    after: ContextModel,
    c: Category,
    n: int,
    r: Result<QuestionModel, TriviaError>,
)
    requires
        before.repeat,
        before.pool(c).len() > 0,
        serve_step(before, after, c, r),
        r == picked_result(before, c, specific_pick(before, c, n)),
    ensures
        after == before,
        r == Ok::<QuestionModel, TriviaError>(before.pool(c)[n % (before.pool(c).len() as int)]),
{
}

/// With repeats allowed, `Specific(n)` and `Specific(n + k * pool size)`
/// select the same question.
pub proof fn lemma_specific_wraps(m: ContextModel, c: Category, n: int, k: int)
    requires
        m.repeat,
        m.pool(c).len() > 0,
        n >= 0,
        k >= 0,
    ensures
        picked_result(m, c, specific_pick(m, c, n)) == picked_result(
            m,
            c,
            specific_pick(m, c, n + k * m.pool(c).len()),
        ),
{
    let len = m.pool(c).len() as int;
    vstd::arithmetic::div_mod::lemma_mod_multiples_vanish(k, n, len);
    assert(n + k * len == len * k + n) by (nonlinear_arith);
}

/// Along a run of requests, the mode and the pools never change.
proof fn lemma_chain_fixed(
    states: Seq<ContextModel>,
    cats: Seq<Category>,
    results: Seq<Result<QuestionModel, TriviaError>>,
    j: int,
)
    requires
        serve_chain(states, cats, results),
        0 <= j < states.len(),
    ensures
        states[j].repeat == states[0].repeat,
        states[j].pools == states[0].pools,
    decreases j,
{
    if j > 0 {
        lemma_chain_fixed(states, cats, results, j - 1);
        assert(serve_step(states[j - 1], states[j], cats[j - 1], results[j - 1]));
    }
}

/// Without repeats, a question served by request `i` stays recorded as
/// served in every later session.
proof fn lemma_chain_remembers(
    states: Seq<ContextModel>,
    cats: Seq<Category>,
    results: Seq<Result<QuestionModel, TriviaError>>,
    i: int,
    j: int,
)
    requires
        serve_chain(states, cats, results),
        !states[0].repeat,
        0 <= i < j < states.len(),
        results[i] is Ok,
    ensures
        states[j].spent.contains(results[i]->Ok_0),
    decreases j,
{
    lemma_chain_fixed(states, cats, results, j - 1);
    assert(serve_step(states[j - 1], states[j], cats[j - 1], results[j - 1]));
    if j == i + 1 {
        assert(states[j].spent.last() == results[i]->Ok_0);
    } else {
        lemma_chain_remembers(states, cats, results, i, j - 1);
        let q = results[i]->Ok_0;
        let w = choose|w: int| 0 <= w < states[j - 1].spent.len() && #[trigger] states[j - 1].spent[w] == q;
        assert(states[j].spent[w] == q);
    }
}

/// Without repeats, no two successful requests of one session return equal
/// questions.
pub proof fn lemma_no_repeats(
    states: Seq<ContextModel>,
    cats: Seq<Category>,
    results: Seq<Result<QuestionModel, TriviaError>>,
)
    requires
        serve_chain(states, cats, results),
        !states[0].repeat,
    ensures
        forall|i: int, j: int|
            0 <= i < j < results.len() && (#[trigger] results[i]) is Ok && (#[trigger] results[j]) is Ok
                ==> results[i]->Ok_0 != results[j]->Ok_0,
{
    assert forall|i: int, j: int|
        0 <= i < j < results.len() && (#[trigger] results[i]) is Ok && (#[trigger] results[j]) is Ok
            implies results[i]->Ok_0 != results[j]->Ok_0 by {
        lemma_chain_remembers(states, cats, results, i, j);
        lemma_chain_fixed(states, cats, results, j);
        assert(serve_step(states[j], states[j + 1], cats[j], results[j]));
    }
}

/// Without repeats, once as many questions of a category have been served
/// as its pool holds, the next request for it reports `PoolExhausted`.
pub proof fn lemma_exhaustion(
    states: Seq<ContextModel>,
    cats: Seq<Category>,
    results: Seq<Result<QuestionModel, TriviaError>>,
    c: Category,
    after: ContextModel,
    next: Result<QuestionModel, TriviaError>,
)
    requires
        serve_chain(states, cats, results),
        !states[0].repeat,
        results.len() == states[0].pool(c).len(),
        forall|i: int| 0 <= i < results.len() ==> cats[i] == c && (#[trigger] results[i]) is Ok,
        serve_step(states.last(), after, c, next),
    ensures
        next == Err::<QuestionModel, TriviaError>(TriviaError::PoolExhausted { category: c }),
{
    let n = results.len() as int;
    let last = states.last();
    let pool = states[0].pool(c);
    lemma_chain_fixed(states, cats, results, n);
    lemma_no_repeats(states, cats, results);
    let served = Seq::new(n as nat, |i: int| results[i]->Ok_0);
    assert forall|i: int| 0 <= i < n implies pool.contains(#[trigger] served[i]) by {
        lemma_chain_fixed(states, cats, results, i);
        assert(serve_step(states[i], states[i + 1], cats[i], results[i]));
    }
    assert(served.no_duplicates()) by {
        assert forall|i: int, j: int| 0 <= i < n && 0 <= j < n && i != j implies served[i]
            != served[j] by {
            if i < j {
                assert(results[i] is Ok && results[j] is Ok);
            } else {
                assert(results[j] is Ok && results[i] is Ok);
            }
        }
    }
    served.unique_seq_to_set();
    pool.lemma_cardinality_of_set();
    assert(served.to_set().subset_of(pool.to_set()));
    vstd::set_lib::lemma_len_subset(served.to_set(), pool.to_set());
    vstd::set_lib::lemma_subset_equality(served.to_set(), pool.to_set());
    assert(exhausted(pool, last.spent)) by {
        assert forall|j: int| 0 <= j < pool.len() implies last.spent.contains(#[trigger] pool[j]) by {
            assert(pool.to_set().contains(pool[j]));
            assert(served.to_set().contains(pool[j]));
            let i = choose|i: int| 0 <= i < n && #[trigger] served[i] == pool[j];
            lemma_chain_remembers(states, cats, results, i, n);
        }
    }
    if next is Ok {
        let q = next->Ok_0;
        let j = choose|j: int| 0 <= j < pool.len() && #[trigger] pool[j] == q;
        assert(last.spent.contains(pool[j]));
    }
}

/// Parser states count the `#` lines seen: each one finished or current.
proof fn lemma_parse_counts(lines: Seq<Seq<char>>, category: Category)
    requires
        parse_lines(lines, category) is Ok,
    ensures
        finished(parse_lines(lines, category)->Ok_0).len() == marker_count(lines),
    decreases lines.len(),
{
    if lines.len() > 0 {
        lemma_parse_counts(lines.drop_last(), category);
    }
}

/// A parsed text holds exactly one question per `#` line.
pub proof fn lemma_one_question_per_marker(text: Seq<char>, category: Category)
    requires
        parse_text(text, category) is Ok,
    ensures
        parse_text(text, category)->Ok_0.len() == marker_count(text_lines(text)),
{
    lemma_parse_counts(text_lines(text), category);
}

/// A text without `#` lines yields no question.
pub proof fn lemma_no_marker_no_question(text: Seq<char>, category: Category)
    requires
        parse_text(text, category) is Ok,
        marker_count(text_lines(text)) == 0,
    ensures
        parse_text(text, category)->Ok_0.len() == 0,
{
    lemma_one_question_per_marker(text, category);
}

} // verus!
