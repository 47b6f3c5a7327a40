use vstd::prelude::*;

use crate::category::{category_at, Category, CATEGORY_COUNT};
use crate::error::TriviaError;
use crate::parser::{get_questions, models, parse_text, ParseError};
use crate::question::{Question, QuestionModel};

verus! {

/// One category and its pool of questions, in resource order.
#[derive(Debug)]
pub struct CachedCategory {
    pub category: Category,
    pub questions: Vec<Question>,
}

/// The pool that one category's resource text yields, or why it yields none:
/// a malformed line, or no question at all.
pub open spec fn load_pool(text: Seq<char>, category: Category) -> Result<
    Seq<QuestionModel>,
    TriviaError,
> {
    match parse_text(text, category) {
        Err(k) => Err(TriviaError::MalformedLine { category, line: (k + 1) as usize }),
        Ok(m) => if m.len() == 0 {
            Err(TriviaError::EmptyPool { category })
        } else {
            Ok(m)
        },
    }
}

/// Whether `cats` is a complete catalog: one entry per category, in
/// declaration order, each with a non-empty pool.
pub open spec fn catalog_wf(cats: Seq<CachedCategory>) -> bool {
    &&& cats.len() == CATEGORY_COUNT
    &&& forall|i: int|
        0 <= i < CATEGORY_COUNT ==> {
            &&& (#[trigger] cats[i]).category == category_at(i)
            &&& cats[i].questions.len() > 0
        }
}

/// Parses one category's resource text into a non-empty pool.
fn load_category(text: &str, category: Category) -> (r: Result<Vec<Question>, TriviaError>)
    ensures
        match r {
            Ok(qs) => load_pool(text@, category) == Ok::<Seq<QuestionModel>, TriviaError>(
                models(qs@),
            ) && qs.len() > 0,
            Err(e) => load_pool(text@, category) == Err::<Seq<QuestionModel>, TriviaError>(e),
        },
{
    reveal(load_pool);
    match get_questions(text, category) {
        Err(ParseError::MalformedLine { line }) => Err(TriviaError::MalformedLine { category, line }),
        Ok(questions) => {
            if questions.len() == 0 {
                Err(TriviaError::EmptyPool { category })
            } else {
                Ok(questions)
            }
        },
    }
}

/// Builds the catalog from one resource text per category, indexed by the
/// category's ordinal. The first category, in declaration order, whose text
/// is malformed or holds no question stops the build with that error; no
/// partial catalog is returned.
pub fn index_categories(resources: &[String; 20]) -> (r: Result<Vec<CachedCategory>, TriviaError>)
    ensures
        match r {
            Ok(cats) => {
                &&& catalog_wf(cats@)
                &&& forall|i: int|
                    0 <= i < CATEGORY_COUNT ==> load_pool(resources@[i]@, #[trigger] cats@[i].category)
                        == Ok::<Seq<QuestionModel>, TriviaError>(models(cats@[i].questions@))
            },
            Err(e) => exists|i: int|
                0 <= i < CATEGORY_COUNT && load_pool(resources@[i]@, category_at(i)) == Err::<
                    Seq<QuestionModel>,
                    TriviaError,
                >(e) && forall|j: int|
                    0 <= j < i ==> (#[trigger] load_pool(resources@[j]@, category_at(j))) is Ok,
        },
{
    let mut cats: Vec<CachedCategory> = Vec::new();
    let mut i: usize = 0;
    while i < CATEGORY_COUNT
        invariant
            i <= CATEGORY_COUNT,
            cats.len() == i,
            forall|j: int|
                0 <= j < i ==> {
                    &&& (#[trigger] cats@[j]).questions.len() > 0
                    &&& cats@[j].category == category_at(j)
                    &&& load_pool(resources@[j]@, cats@[j].category) == Ok::<
                        Seq<QuestionModel>,
                        TriviaError,
                    >(models(cats@[j].questions@))
                },
        decreases CATEGORY_COUNT - i,
    {
        let category = Category::from_ordinal(i);
        match load_category(resources[i].as_str(), category) {
            Err(e) => {
                assert forall|j: int| 0 <= j < i implies (#[trigger] load_pool(
                    resources@[j]@,
                    category_at(j),
                )) is Ok by {
                    assert(cats@[j].category == category_at(j));
                }
                assert(load_pool(resources@[i as int]@, category_at(i as int)) == Err::<
                    Seq<QuestionModel>,
                    TriviaError,
                >(e));
                return Err(e);
            },
            Ok(questions) => {
                cats.push(CachedCategory { category, questions });
            },
        }
        i = i + 1;
    }
    Ok(cats)
}

} // verus!
