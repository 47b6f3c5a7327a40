use trivia::{index_categories, Category, Seeding, TriviaContext, TriviaError, CATEGORY_COUNT};

fn pool_text(category: Category, n: usize) -> String {
    let mut s = String::new();
    for i in 0..n {
        s.push_str(&format!("#Q {} question {}?\nA yes\nB no\n^ yes\n", category.resource_name(), i));
    }
    s
}

fn resources(n: usize) -> [String; 20] {
    std::array::from_fn(|i| pool_text(Category::from_ordinal(i), n))
}

#[test]
fn every_category_gets_a_pool() {
    let cats = index_categories(&resources(3)).unwrap();
    assert_eq!(cats.len(), CATEGORY_COUNT);
    for (i, c) in cats.iter().enumerate() {
        assert_eq!(c.category.ordinal(), i);
        assert_eq!(c.questions.len(), 3);
        assert!(c.questions.iter().all(|q| q.category == c.category));
    }
}

#[test]
fn empty_resource_is_rejected() {
    let mut res = resources(2);
    res[5] = "no markers here\n".to_string();
    res[9] = String::new();
    assert_eq!(
        index_categories(&res).unwrap_err(),
        TriviaError::EmptyPool { category: Category::General }
    );
    assert_eq!(
        TriviaContext::new(false, &res).unwrap_err(),
        TriviaError::EmptyPool { category: Category::General }
    );
}

#[test]
fn malformed_resource_is_rejected() {
    let mut res = resources(2);
    res[3] = "#Q Q\nA a\n^".to_string();
    res[7] = String::new();
    assert_eq!(
        TriviaContext::new(true, &res).unwrap_err(),
        TriviaError::MalformedLine { category: Category::Entertainment, line: 3 }
    );
}

#[test]
fn category_ordinals_round_trip() {
    for i in 0..CATEGORY_COUNT {
        assert_eq!(Category::from_ordinal(i).ordinal(), i);
    }
    assert_eq!(Category::Animals.ordinal(), 0);
    assert_eq!(Category::World.ordinal(), 19);
    assert_eq!(Category::ReligionFaith.resource_name(), "religion-faith");
}

#[test]
fn specific_with_repeats_is_deterministic() {
    let mut ctx = TriviaContext::new(true, &resources(4)).unwrap();
    assert!(ctx.allows_repeats());
    let a = ctx.get_question(Category::History, Seeding::Specific(2)).unwrap();
    let b = ctx.get_question(Category::History, Seeding::Specific(2)).unwrap();
    assert!(a == b);
    assert_eq!(a.question, "history question 2?");
}

#[test]
fn specific_index_wraps_modulo_pool_size() {
    let mut ctx = TriviaContext::new(true, &resources(4)).unwrap();
    let a = ctx.get_question(Category::Music, Seeding::Specific(1)).unwrap();
    for k in 1..5 {
        let b = ctx.get_question(Category::Music, Seeding::Specific(1 + k * 4)).unwrap();
        assert!(a == b);
    }
    let c = ctx.get_question(Category::Music, Seeding::Specific(usize::MAX)).unwrap();
    assert_eq!(c.question, format!("music question {}?", usize::MAX % 4));
}

#[test]
fn no_repeat_specific_moves_to_next_unserved() {
    let mut ctx = TriviaContext::new(false, &resources(3)).unwrap();
    assert!(!ctx.allows_repeats());
    let a = ctx.get_question(Category::Sports, Seeding::Specific(2)).unwrap();
    let b = ctx.get_question(Category::Sports, Seeding::Specific(2)).unwrap();
    let c = ctx.get_question(Category::Sports, Seeding::Specific(5)).unwrap();
    assert_eq!(a.question, "sports question 2?");
    assert_eq!(b.question, "sports question 0?");
    assert_eq!(c.question, "sports question 1?");
}

#[test]
fn no_repeat_never_serves_a_question_twice() {
    let mut ctx = TriviaContext::new(false, &resources(5)).unwrap();
    let mut seen: Vec<String> = Vec::new();
    for i in 0..5 {
        let seeding = if i % 2 == 0 { Seeding::Random } else { Seeding::Specific(0) };
        let q = ctx.get_question(Category::Animals, seeding).unwrap();
        assert!(!seen.contains(&q.question));
        seen.push(q.question);
    }
    assert_eq!(seen.len(), 5);
}

#[test]
fn exhausted_pool_reports_error() {
    let mut ctx = TriviaContext::new(false, &resources(3)).unwrap();
    for _ in 0..3 {
        ctx.get_question(Category::Television, Seeding::Specific(7)).unwrap();
    }
    assert_eq!(
        ctx.get_question(Category::Television, Seeding::Specific(7)).unwrap_err(),
        TriviaError::PoolExhausted { category: Category::Television }
    );
    assert_eq!(
        ctx.get_question(Category::Television, Seeding::Random).unwrap_err(),
        TriviaError::PoolExhausted { category: Category::Television }
    );
    // other categories are unaffected
    assert!(ctx.get_question(Category::Movies, Seeding::Specific(0)).is_ok());
}

#[test]
fn random_exhaustion_after_pool_size_draws() {
    let mut ctx = TriviaContext::new(false, &resources(4)).unwrap();
    let mut seen: Vec<String> = Vec::new();
    for _ in 0..4 {
        let q = ctx.get_question(Category::VideoGames, Seeding::Random).unwrap();
        assert!(!seen.contains(&q.question));
        seen.push(q.question);
    }
    assert_eq!(
        ctx.get_question(Category::VideoGames, Seeding::Random).unwrap_err(),
        TriviaError::PoolExhausted { category: Category::VideoGames }
    );
}

#[test]
fn random_with_repeats_reaches_every_question() {
    let mut ctx = TriviaContext::new(true, &resources(2)).unwrap();
    let mut seen = [false, false];
    for _ in 0..200 {
        let q = ctx.get_question(Category::Celebrities, Seeding::Random).unwrap();
        assert_eq!(q.category, Category::Celebrities);
        let i = if q.question.ends_with("0?") { 0 } else { 1 };
        seen[i] = true;
    }
    assert_eq!(seen, [true, true]);
}

#[test]
fn drawn_number_selects_exactly() {
    let mut ctx = TriviaContext::new(false, &resources(4)).unwrap();
    let a = ctx.get_question_drawn(Category::Literature, 6).unwrap();
    assert_eq!(a.question, "literature question 2?");
    // unserved indices are now 0, 1, 3; position 2 of them is index 3
    let b = ctx.get_question_drawn(Category::Literature, 5).unwrap();
    assert_eq!(b.question, "literature question 3?");
    let mut rep = TriviaContext::new(true, &resources(4)).unwrap();
    let c = rep.get_question_drawn(Category::Literature, 6).unwrap();
    assert_eq!(c.question, "literature question 2?");
}
