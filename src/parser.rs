use vstd::prelude::*;

use crate::category::Category;
use crate::question::{blank_model, Question, QuestionModel};

verus! {

/// Why a resource text could not be parsed.
#[derive(Debug, Clone, Copy, PartialEq, Eq, Structural)]
pub enum ParseError {
    /// The line (counted from 1) starts with a marker but is shorter than
    /// the marker's prefix.
    MalformedLine { line: usize },
}

/// A line with one trailing carriage return removed, if it has one.
pub open spec fn strip_cr(line: Seq<char>) -> Seq<char> {
    if line.len() > 0 && line.last() == '\r' {
        line.drop_last()
    } else {
        line
    }
}

/// Scans `s` from the left: the lines ended by a line feed so far (each
/// without its `\r\n` or `\n` ending), and the unterminated text after them.
pub open spec fn line_scan(s: Seq<char>) -> (Seq<Seq<char>>, Seq<char>)
    decreases s.len(),
{
    if s.len() == 0 {
        (Seq::empty(), Seq::empty())
    } else {
        let (done, tail) = line_scan(s.drop_last());
        if s.last() == '\n' {
            (done.push(strip_cr(tail)), Seq::empty())
        } else {
            (done, tail.push(s.last()))
        }
    }
}

/// The lines of a text: split at line feeds, a `\r` before a line feed
/// dropped, and no empty line after a final line feed.
pub open spec fn text_lines(s: Seq<char>) -> Seq<Seq<char>> {
    let (done, tail) = line_scan(s);
    if tail.len() == 0 {
        done
    } else {
        done.push(tail)
    }
}

/// Whether `c` introduces an answer option.
pub open spec fn is_option_marker(c: char) -> bool {
    c == 'A' || c == 'B' || c == 'C' || c == 'D' || c == 'E' || c == 'F'
}

/// Parser state between lines: the finished questions, and the question
/// being filled, present once a `#` line has started one.
pub struct ParseState {
    pub done: Seq<QuestionModel>,
    pub current: Option<QuestionModel>,
}

/// Effect of one line on the parser state; `None` for a marker line that is
/// shorter than its prefix. Answer and correct-answer lines before the first
/// `#` line have nothing to fill and are dropped.
pub open spec fn parse_line(st: ParseState, line: Seq<char>, category: Category) -> Option<ParseState> {
    if line.len() == 0 {
        Some(st)
    } else if line[0] == '#' {
        if line.len() < 3 {
            None
        } else {
            let done = match st.current {
                Some(q) => st.done.push(q),
                None => st.done,
            };
            Some(ParseState {
                done,
                current: Some(QuestionModel { question: line.skip(3), ..blank_model(category) }),
            })
        }
    } else if line[0] == '^' {
        if line.len() < 2 {
            None
        } else {
            Some(ParseState {
                done: st.done,
                current: match st.current {
                    Some(q) => Some(QuestionModel { correct_answer: line.skip(2), ..q }),
                    None => None,
                },
            })
        }
    } else if is_option_marker(line[0]) {
        if line.len() < 2 {
            None
        } else {
            Some(ParseState {
                done: st.done,
                current: match st.current {
                    Some(q) => Some(QuestionModel { answers: q.answers.push(line.skip(2)), ..q }),
                    None => None,
                },
            })
        }
    } else {
        Some(st)
    }
}

/// Runs the parser over `lines`; on failure, the index of the first
/// malformed line.
pub open spec fn parse_lines(lines: Seq<Seq<char>>, category: Category) -> Result<ParseState, nat>
    decreases lines.len(),
{
    if lines.len() == 0 {
        Ok(ParseState { done: Seq::empty(), current: None })
    } else {
        match parse_lines(lines.drop_last(), category) {
            Err(k) => Err(k),
            Ok(st) => match parse_line(st, lines.last(), category) {
                Some(next) => Ok(next),
                None => Err((lines.len() - 1) as nat),
            },
        }
    }
}

/// The questions of a finished parse: one per `#` line, the last included.
pub open spec fn finished(st: ParseState) -> Seq<QuestionModel> {
    match st.current {
        Some(q) => st.done.push(q),
        None => st.done,
    }
}

/// The questions that `text` holds, or the index of its first malformed line.
pub open spec fn parse_text(text: Seq<char>, category: Category) -> Result<Seq<QuestionModel>, nat> {
    match parse_lines(text_lines(text), category) {
        Ok(st) => Ok(finished(st)),
        Err(k) => Err(k),
    }
}

/// Number of `#` lines in a sequence of lines.
pub open spec fn marker_count(lines: Seq<Seq<char>>) -> nat
    decreases lines.len(),
{
    if lines.len() == 0 {
        0
    } else {
        marker_count(lines.drop_last()) + if lines.last().len() > 0 && lines.last()[0] == '#' {
            1nat
        } else {
            0nat
        }
    }
}

pub open spec fn models(qs: Seq<Question>) -> Seq<QuestionModel> {
    qs.map_values(|q: Question| q@)
}

pub open spec fn opt_model(q: Option<Question>) -> Option<QuestionModel> {
    match q {
        Some(q) => Some(q@),
        None => None,
    }
}

/// A longer text has every finished line of a shorter prefix of it.
proof fn lemma_scan_prefix(s: Seq<char>, j: int)
    requires
        0 <= j <= s.len(),
    ensures
        line_scan(s.take(j)).0.is_prefix_of(line_scan(s).0),
    decreases s.len(),
{
    if j == s.len() {
        assert(s.take(j) =~= s);
    } else {
        assert(s.take(j) =~= s.drop_last().take(j));
        lemma_scan_prefix(s.drop_last(), j);
    }
}

/// Once a malformed line is met, the lines after it do not change the outcome.
proof fn lemma_error_persists(a: Seq<Seq<char>>, b: Seq<Seq<char>>, category: Category)
    requires
        a.is_prefix_of(b),
        parse_lines(a, category) is Err,
    ensures
        parse_lines(b, category) == parse_lines(a, category),
    decreases b.len(),
{
    if b.len() == a.len() {
        assert(a =~= b);
    } else {
        assert(a.is_prefix_of(b.drop_last()));
        lemma_error_persists(a, b.drop_last(), category);
    }
}

/// Relies on `String::push`: appends one character at the end.
#[verifier::external_body]
fn push_char(s: &mut String, c: char)
    ensures
        final(s)@ == old(s)@.push(c),
{
    s.push(c);
}

/// The characters of `text`, in order.
fn chars_of(text: &str) -> (r: Vec<char>)
    ensures
        r@ == text@,
{
    let mut chars: Vec<char> = Vec::new();
    for c in it: text.chars()
        invariant
            chars@ == it.seq().take(it.index() as int),
    {
        chars.push(c);
    }
    chars
}

/// A string holding `chars[from..to]`.
fn string_from(chars: &Vec<char>, from: usize, to: usize) -> (r: String)
    requires
        from <= to <= chars.len(),
    ensures
        r@ == chars@.subrange(from as int, to as int),
{
    let mut s = String::new();
    let mut i = from;
    while i < to
        invariant
            from <= i <= to <= chars.len(),
            s@ == chars@.subrange(from as int, i as int),
        decreases to - i,
    {
        push_char(&mut s, chars[i]);
        assert(s@ =~= chars@.subrange(from as int, i + 1));
        i = i + 1;
    }
    s
}

/// Applies the line `chars[from..to]` to the parser state held in
/// `questions` and `current`; `None` when the line is malformed.
fn apply_line(
    questions: &mut Vec<Question>,
    current: Option<Question>,
    chars: &Vec<char>,
    from: usize,
    to: usize,
    category: Category,
) -> (r: Option<Option<Question>>)
    requires
        from <= to <= chars.len(),
    ensures
        match parse_line(
            ParseState { done: models(old(questions)@), current: opt_model(current) },
            chars@.subrange(from as int, to as int),
            category,
        ) {
            None => r is None,
            Some(st) => r is Some && models(final(questions)@) == st.done && opt_model(r->0)
                == st.current,
        },
{
    let ghost line = chars@.subrange(from as int, to as int);
    if from == to {
        return Some(current);
    }
    let first = chars[from];
    assert(line[0] == first);
    if first == '#' {
        if to - from < 3 {
            return None;
        }
        match current {
            Some(q) => {
                questions.push(q);
                assert(models(questions@) =~= models(old(questions)@).push(q@));
            },
            None => {},
        }
        let mut q = Question::new(category);
        q.question = string_from(chars, from + 3, to);
        assert(q@.question =~= line.skip(3));
        assert(q@.answers =~= Seq::<Seq<char>>::empty());
        Some(Some(q))
    } else if first == '^' {
        if to - from < 2 {
            return None;
        }
        match current {
            Some(mut q) => {
                let ghost before = q@;
                q.correct_answer = string_from(chars, from + 2, to);
                assert(q@.correct_answer =~= line.skip(2));
                assert(q@.answers == before.answers);
                Some(Some(q))
            },
            None => Some(None),
        }
    } else if first == 'A' || first == 'B' || first == 'C' || first == 'D' || first == 'E'
        || first == 'F' {
        if to - from < 2 {
            return None;
        }
        match current {
            Some(mut q) => {
                let ghost before = q@;
                let a = string_from(chars, from + 2, to);
                q.answers.push(a);
                assert(a@ =~= line.skip(2));
                assert(q@.answers =~= before.answers.push(line.skip(2)));
                Some(Some(q))
            },
            None => Some(None),
        }
    } else {
        Some(current)
    }
}

/// Parses one category's resource text into its questions, in order of
/// appearance. A line starting with `#` starts a question whose text is the
/// line after its first three characters; a line starting with `^` sets the
/// correct answer, and one starting with `A` to `F` appends an option, each
/// to the line after its first two characters; other lines are ignored.
/// Every question started by a `#` line is returned, the last one included,
/// and nothing else. A marker line shorter than its prefix is malformed.
pub fn get_questions(text: &str, category: Category) -> (r: Result<Vec<Question>, ParseError>)
    ensures
        match (r, parse_text(text@, category)) {
            (Ok(qs), Ok(m)) => models(qs@) == m,
            (Err(ParseError::MalformedLine { line }), Err(k)) => line == k + 1,
            _ => false,
        },
{
    let chars = chars_of(text);
    let mut questions: Vec<Question> = Vec::new();
    let mut current: Option<Question> = None;
    let mut start: usize = 0;
    let mut line_no: usize = 0;
    let mut i: usize = 0;
    assert(chars@.take(0) =~= Seq::<char>::empty());
    assert(models(questions@) =~= Seq::<QuestionModel>::empty());
    while i < chars.len()
        invariant
            chars@ == text@,
            start <= i <= chars.len(),
            line_no <= start,
            line_scan(chars@.take(i as int)).0.len() == line_no,
            line_scan(chars@.take(i as int)).1 == chars@.subrange(start as int, i as int),
            parse_lines(line_scan(chars@.take(i as int)).0, category) == Ok::<ParseState, nat>(
                ParseState { done: models(questions@), current: opt_model(current) },
            ),
        decreases chars.len() - i,
    {
        let ghost prev = chars@.take(i as int);
        let ghost next = chars@.take(i + 1);
        assert(next.drop_last() =~= prev);
        assert(next.last() == chars@[i as int]);
        if chars[i] == '\n' {
            let mut end = i;
            if end > start && chars[end - 1] == '\r' {
                end = end - 1;
            }
            assert(chars@.subrange(start as int, end as int) =~= strip_cr(
                chars@.subrange(start as int, i as int),
            ));
            let ghost lines = line_scan(next).0;
            assert(lines.drop_last() =~= line_scan(prev).0);
            match apply_line(&mut questions, current, &chars, start, end, category) {
                Some(c) => {
                    current = c;
                },
                None => {
                    proof {
                        lemma_scan_prefix(text@, i + 1);
                        lemma_error_persists(lines, text_lines(text@), category);
                    }
                    return Err(ParseError::MalformedLine { line: line_no + 1 });
                },
            }
            line_no = line_no + 1;
            start = i + 1;
            assert(chars@.subrange(start as int, i + 1) =~= Seq::<char>::empty());
        } else {
            assert(chars@.subrange(start as int, i + 1) =~= chars@.subrange(
                start as int,
                i as int,
            ).push(chars@[i as int]));
        }
        i = i + 1;
    }
    assert(chars@.take(i as int) =~= text@);
    let ghost lines = text_lines(text@);
    assert(line_scan(text@).0.is_prefix_of(lines));
    if start < chars.len() {
        assert(lines.drop_last() =~= line_scan(text@).0);
        match apply_line(&mut questions, current, &chars, start, chars.len(), category) {
            Some(c) => {
                current = c;
            },
            None => {
                return Err(ParseError::MalformedLine { line: line_no + 1 });
            },
        }
    }
    match current {
        Some(q) => {
            questions.push(q);
        },
        None => {},
    }
    assert(models(questions@) =~= finished(parse_lines(lines, category)->Ok_0));
    Ok(questions)
}

} // verus!
