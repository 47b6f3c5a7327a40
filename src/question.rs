use vstd::prelude::*;

use crate::category::Category;

verus! {

/// Mathematical value of a question: its text fields as character sequences.
pub struct QuestionModel {
    pub category: Category,
    pub question: Seq<char>,
    pub answers: Seq<Seq<char>>,
    pub correct_answer: Seq<char>,
}

/// The accumulator a parser starts from: the category set, every text empty.
pub open spec fn blank_model(category: Category) -> QuestionModel {
    QuestionModel {
        category,
        question: Seq::empty(),
        answers: Seq::empty(),
        correct_answer: Seq::empty(),
    }
}

/// A multiple-choice question; `answers` is in on-screen order.
#[derive(Debug)]
pub struct Question {
    pub category: Category,
    pub question: String,
    pub answers: Vec<String>,
    pub correct_answer: String,
}

impl View for Question {
    type V = QuestionModel;

    open spec fn view(&self) -> QuestionModel {
        QuestionModel {
            category: self.category,
            question: self.question@,
            answers: self.answers@.map_values(|a: String| a@),
            correct_answer: self.correct_answer@,
        }
    }
}

impl Question {
    /// An empty question of the given category.
    pub fn new(category: Category) -> (r: Question)
        ensures
            r@ == blank_model(category),
    {
        let r = Question {
            answers: Vec::new(),
            category,
            correct_answer: String::new(),
            question: String::new(),
        };
        assert(r@.answers =~= Seq::<Seq<char>>::empty());
        r
    }
}

/// Whether two answer lists hold the same texts in the same order.
fn same_answers(a: &Vec<String>, b: &Vec<String>) -> (r: bool)
    ensures
        r == (a@.map_values(|s: String| s@) == b@.map_values(|s: String| s@)),
{
    if a.len() != b.len() {
        return false;
    }
    let mut i: usize = 0;
    while i < a.len()
        invariant
            a.len() == b.len(),
            i <= a.len(),
            forall|j: int| 0 <= j < i ==> a@[j]@ == b@[j]@,
        decreases a.len() - i,
    {
        if a[i] != b[i] {
            assert(a@.map_values(|s: String| s@)[i as int] != b@.map_values(|s: String| s@)[i as int]);
            return false;
        }
        i = i + 1;
    }
    assert(a@.map_values(|s: String| s@) =~= b@.map_values(|s: String| s@));
    true
}

impl PartialEq for Question {
    /// Structural equality: all four fields match.
    fn eq(&self, other: &Question) -> (r: bool) {
        self.category == other.category && self.question == other.question
            && self.correct_answer == other.correct_answer && same_answers(
            &self.answers,
            &other.answers,
        )
    }
}

impl vstd::std_specs::cmp::PartialEqSpecImpl for Question {
    open spec fn obeys_eq_spec() -> bool {
        true
    }

    open spec fn eq_spec(&self, other: &Question) -> bool {
        self@ == other@
    }
}

impl Clone for Question {
    fn clone(&self) -> (r: Question)
        ensures
            r@ == self@,
    {
        let answers = self.answers.clone();
        assert(answers@.map_values(|s: String| s@) =~= self.answers@.map_values(|s: String| s@));
        Question {
            category: self.category,
            question: self.question.clone(),
            answers,
            correct_answer: self.correct_answer.clone(),
        }
    }
}

} // verus!
