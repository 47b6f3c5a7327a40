use trivia::{get_questions, Category, ParseError, Question};

fn texts(q: &Question) -> (String, Vec<String>, String) {
    (q.question.clone(), q.answers.clone(), q.correct_answer.clone())
}

#[test]
fn parses_example_question() {
    let text = "#Q What color is the sky?\nA Blue\nB Green\n^ Blue\n";
    let qs = get_questions(text, Category::General).unwrap();
    assert_eq!(qs.len(), 1);
    assert_eq!(qs[0].category, Category::General);
    assert_eq!(qs[0].question, "What color is the sky?");
    assert_eq!(qs[0].answers, vec!["Blue".to_string(), "Green".to_string()]);
    assert_eq!(qs[0].correct_answer, "Blue");
}

#[test]
fn numbered_marker_keeps_text_after_three_characters() {
    let text = "# 1. What color is the sky?\nA Blue\nB Green\n^ Blue\n";
    let qs = get_questions(text, Category::General).unwrap();
    assert_eq!(qs.len(), 1);
    assert_eq!(qs[0].question, ". What color is the sky?");
    assert_eq!(qs[0].answers, vec!["Blue".to_string(), "Green".to_string()]);
    assert_eq!(qs[0].correct_answer, "Blue");
}

#[test]
fn text_without_markers_has_no_questions() {
    let text = "A Blue\n^ Blue\nsome notes\n\n";
    assert_eq!(get_questions(text, Category::Music).unwrap().len(), 0);
    assert_eq!(get_questions("", Category::Music).unwrap().len(), 0);
}

#[test]
fn one_question_per_marker_last_included() {
    let text = "#Q First?\nA a\nB b\n^ a\n\n#Q Second?\nA c\nD d\n^ d";
    let qs = get_questions(text, Category::History).unwrap();
    assert_eq!(qs.len(), 2);
    assert_eq!(
        texts(&qs[0]),
        ("First?".to_string(), vec!["a".to_string(), "b".to_string()], "a".to_string())
    );
    assert_eq!(
        texts(&qs[1]),
        ("Second?".to_string(), vec!["c".to_string(), "d".to_string()], "d".to_string())
    );
}

#[test]
fn marker_without_body_gives_empty_fields() {
    let qs = get_questions("#Q \n#Q Q", Category::Animals).unwrap();
    assert_eq!(qs.len(), 2);
    assert_eq!(texts(&qs[0]), (String::new(), vec![], String::new()));
    assert_eq!(qs[1].question, "Q");
}

#[test]
fn lines_before_first_marker_are_dropped() {
    let text = "A stray\n^ stray\n#Q Real?\nA yes\n^ yes\n";
    let qs = get_questions(text, Category::Sports).unwrap();
    assert_eq!(qs.len(), 1);
    assert_eq!(
        texts(&qs[0]),
        ("Real?".to_string(), vec!["yes".to_string()], "yes".to_string())
    );
}

#[test]
fn crlf_line_endings_are_stripped() {
    let text = "#Q Windows?\r\nA yes\r\nB no\r\n^ yes\r\n";
    let qs = get_questions(text, Category::World).unwrap();
    assert_eq!(
        texts(&qs[0]),
        ("Windows?".to_string(), vec!["yes".to_string(), "no".to_string()], "yes".to_string())
    );
}

#[test]
fn all_six_option_markers_and_other_lines() {
    let text = "#Q Pick\nA a\nB b\nC c\nD d\nE e\nF f\nG g\nz z\n^ f";
    let qs = get_questions(text, Category::Movies).unwrap();
    assert_eq!(qs[0].answers.len(), 6);
    assert_eq!(qs[0].answers[5], "f");
    assert_eq!(qs[0].correct_answer, "f");
}

#[test]
fn non_ascii_text_is_kept() {
    let qs = get_questions("#Q Où est Zoë?\nA Ärhus\n^ Ärhus", Category::Geography).unwrap();
    assert_eq!(qs[0].question, "Où est Zoë?");
    assert_eq!(qs[0].answers, vec!["Ärhus".to_string()]);
}

#[test]
fn short_marker_lines_are_malformed() {
    assert_eq!(
        get_questions("#Q Q\n#x", Category::People).unwrap_err(),
        ParseError::MalformedLine { line: 2 }
    );
    assert_eq!(
        get_questions("\n\n^", Category::People).unwrap_err(),
        ParseError::MalformedLine { line: 3 }
    );
    assert_eq!(
        get_questions("#Q Q\r\nA\r\n", Category::People).unwrap_err(),
        ParseError::MalformedLine { line: 2 }
    );
    assert_eq!(
        get_questions("F", Category::People).unwrap_err(),
        ParseError::MalformedLine { line: 1 }
    );
}

#[test]
fn first_malformed_line_is_reported() {
    let err = get_questions("#Q Q\n^\n#\n", Category::Hobbies).unwrap_err();
    assert_eq!(err, ParseError::MalformedLine { line: 2 });
}

#[test]
fn questions_compare_structurally() {
    let a = get_questions("#Q Q\nA x\n^ x", Category::Music).unwrap();
    let b = get_questions("#Q Q\nA x\n^ x", Category::Music).unwrap();
    let c = get_questions("#Q Q\nA y\n^ x", Category::Music).unwrap();
    let d = get_questions("#Q Q\nA x\n^ x", Category::Movies).unwrap();
    assert!(a[0] == b[0]);
    assert!(a[0] != c[0]);
    assert!(a[0] != d[0]);
    assert!(a[0].clone() == a[0]);
    let blank = Question::new(Category::Music);
    assert_eq!(blank.question, "");
    assert!(blank.answers.is_empty());
}
