//! What a model asks for.
use crate::io_error::IoError;
use regex::Error as PatternError;
use crate::text::{contains_text, has_at, occurs_in};
use vstd::prelude::*;

verus! {

/// `regex::Error`: nothing is claimed of an error but that it stays what it is.
#[verifier::external_type_specification]
#[verifier::external_body]
pub struct ExPatternError(PatternError);

/// Why it cannot be told what a model asks for.
#[derive(Debug)]
pub enum ModelParseError {
    /// No part of the model is a `solve` statement.
    NoSolveStatement,
    IoError(IoError),
    RegexError(PatternError),
}

impl From<IoError> for ModelParseError {
    fn from(e: IoError) -> (r: Self) {
        Self::IoError(e)
    }
}

impl vstd::std_specs::convert::FromSpecImpl<IoError> for ModelParseError {
    open spec fn obeys_from_spec() -> bool {
        true
    }

    open spec fn from_spec(e: IoError) -> Self {
        ModelParseError::IoError(e)
    }
}

impl From<PatternError> for ModelParseError {
    fn from(e: PatternError) -> (r: Self) {
        Self::RegexError(e)
    }
}

impl vstd::std_specs::convert::FromSpecImpl<PatternError> for ModelParseError {
    open spec fn obeys_from_spec() -> bool {
        true
    }

    open spec fn from_spec(e: PatternError) -> Self {
        ModelParseError::RegexError(e)
    }
}

/// What a model asks for.
#[derive(Debug, Clone, Copy, PartialEq, Eq, Structural)]
pub enum ObjectiveType {
    Satisfy,
    Minimize,
    Maximize,
}

/// The value of an objective.
pub type ObjectiveValue = i64;

/// The pattern of a `solve` statement, whose group is what follows the word.
pub open spec fn solve_pattern() -> Seq<char> {
    r"solve([\S\s]*?;)"@
}

/// Whether a `solve` statement begins at `i` and the semicolon at `j` could end it.
pub open spec fn spans_solve(text: Seq<char>, i: int, j: int) -> bool {
    has_at(text, i, "solve"@) && i + 5 <= j < text.len() && text[j] == ';'
}

/// Whether `statement` is what follows the first word `solve` that a semicolon comes after, up to
/// and with the first such semicolon; without such a word there is none.
pub open spec fn is_solve_statement(text: Seq<char>, statement: Option<Seq<char>>) -> bool {
    match statement {
        Some(s) => exists|i: int, j: int|
            {
                &&& #[trigger] spans_solve(text, i, j)
                &&& s == text.subrange(i + 5, j + 1)
                &&& forall|i2: int, j2: int| i2 < i ==> !#[trigger] spans_solve(text, i2, j2)
                &&& forall|j2: int| j2 < j ==> !#[trigger] spans_solve(text, i, j2)
            },
        None => forall|i: int, j: int| !#[trigger] spans_solve(text, i, j),
    }
}

/// `regex::Regex::new` on the pattern of a `solve` statement, and `regex::Regex::captures` on the
/// text, of which the first group is handed out.
///
/// What is claimed: the pattern, which is made of literals, a group, a class and a lazy repetition
/// only, compiles; the leftmost match is found; and since `*?` takes as little as it can and `[\S\s]`
/// is any character at all, its group goes to the first semicolon behind the word.
#[verifier::external_body]
fn first_group(pattern: &str, text: &str) -> (r: Result<Option<String>, PatternError>)
    requires
        pattern@ == solve_pattern(),
    ensures
        r is Ok,
        r matches Ok(group) ==> is_solve_statement(
            text@,
            match group {
                Some(s) => Some(s@),
                None => None,
            },
        ),
{
    let re = regex::Regex::new(pattern)?;
    Ok(re.captures(text).and_then(|c| c.get(1)).map(|m| m.as_str().to_owned()))
}

/// What a `solve` statement asks for: the word `minimize` counts before the word `maximize`.
pub open spec fn objective_of(statement: Seq<char>) -> ObjectiveType {
    if occurs_in("minimize"@, statement) {
        ObjectiveType::Minimize
    } else if occurs_in("maximize"@, statement) {
        ObjectiveType::Maximize
    } else {
        ObjectiveType::Satisfy
    }
}

/// Whether the word `minimize` stands somewhere in a statement.
pub open spec fn says_minimize(statement: Seq<char>) -> bool {
    exists|at: int|
        0 <= at && at + 8 <= statement.len() && #[trigger] statement.subrange(at, at + 8) == seq![
            'm',
            'i',
            'n',
            'i',
            'm',
            'i',
            'z',
            'e',
        ]
}

/// Whether the word `maximize` stands somewhere in a statement.
pub open spec fn says_maximize(statement: Seq<char>) -> bool {
    exists|at: int|
        0 <= at && at + 8 <= statement.len() && #[trigger] statement.subrange(at, at + 8) == seq![
            'm',
            'a',
            'x',
            'i',
            'm',
            'i',
            'z',
            'e',
        ]
}

/// Whether a statement asks for the given objective: to minimize just if it says so, to maximize just
/// if it says so and does not say to minimize, and for any solution just if it says neither.
pub open spec fn is_asked_by(objective: ObjectiveType, statement: Seq<char>) -> bool {
    &&& objective == ObjectiveType::Minimize <==> says_minimize(statement)
    &&& objective == ObjectiveType::Maximize <==> says_maximize(statement) && !says_minimize(
        statement,
    )
    &&& objective == ObjectiveType::Satisfy <==> !says_minimize(statement) && !says_maximize(
        statement,
    )
}

/// The words of a statement decide what it asks for, wherever in it they stand and whatever else is
/// said.
pub proof fn law_words_decide_the_objective(statement: Seq<char>)
    ensures
        is_asked_by(objective_of(statement), statement),
{
    reveal_strlit("minimize");
    reveal_strlit("maximize");
    assert("minimize"@ =~= seq!['m', 'i', 'n', 'i', 'm', 'i', 'z', 'e']);
    assert("maximize"@ =~= seq!['m', 'a', 'x', 'i', 'm', 'i', 'z', 'e']);
    if says_minimize(statement) {
        let at = choose|at: int|
            0 <= at && at + 8 <= statement.len() && #[trigger] statement.subrange(at, at + 8)
                == seq!['m', 'i', 'n', 'i', 'm', 'i', 'z', 'e'];
        assert(has_at(statement, at, "minimize"@));
    }
    if says_maximize(statement) {
        let at = choose|at: int|
            0 <= at && at + 8 <= statement.len() && #[trigger] statement.subrange(at, at + 8)
                == seq!['m', 'a', 'x', 'i', 'm', 'i', 'z', 'e'];
        assert(has_at(statement, at, "maximize"@));
    }
    if occurs_in("minimize"@, statement) {
        let at = choose|at: int| #[trigger] has_at(statement, at, "minimize"@);
        assert(statement.subrange(at, at + 8) == "minimize"@);
    }
    if occurs_in("maximize"@, statement) {
        let at = choose|at: int| #[trigger] has_at(statement, at, "maximize"@);
        assert(statement.subrange(at, at + 8) == "maximize"@);
    }
}

/// A statement that says to minimize asks for it, whatever stands before the word and behind it.
pub proof fn law_minimize_is_found_anywhere(a: Seq<char>, b: Seq<char>)
    ensures
        objective_of(a + seq!['m', 'i', 'n', 'i', 'm', 'i', 'z', 'e'] + b)
            == ObjectiveType::Minimize,
        objective_of(a + seq!['m', 'a', 'x', 'i', 'm', 'i', 'z', 'e'] + b)
            != ObjectiveType::Satisfy,
{
    let min = seq!['m', 'i', 'n', 'i', 'm', 'i', 'z', 'e'];
    let max = seq!['m', 'a', 'x', 'i', 'm', 'i', 'z', 'e'];
    let at = a.len() as int;
    law_words_decide_the_objective(a + min + b);
    law_words_decide_the_objective(a + max + b);
    assert((a + min + b).subrange(at, at + 8) =~= min);
    assert((a + max + b).subrange(at, at + 8) =~= max);
}

/// What the `solve` statement of a model asks for, if the model has one.
pub fn classify(statement: Option<&str>) -> (r: Result<ObjectiveType, ModelParseError>)
    ensures
        match statement {
            Some(s) => r == Ok::<ObjectiveType, ModelParseError>(objective_of(s@)),
            None => r == Err::<ObjectiveType, ModelParseError>(ModelParseError::NoSolveStatement),
        },
        statement matches Some(s) ==> (r matches Ok(objective) && is_asked_by(objective, s@)),
{
    proof {
        if let Some(s) = statement {
            law_words_decide_the_objective(s@);
        }
    }
    match statement {
        Some(s) => if contains_text(s, "minimize") {
            Ok(ObjectiveType::Minimize)
        } else if contains_text(s, "maximize") {
            Ok(ObjectiveType::Maximize)
        } else {
            Ok(ObjectiveType::Satisfy)
        },
        None => Err(ModelParseError::NoSolveStatement),
    }
}

/// What the model with the given text asks for.
pub fn parse_objective_type(content: &str) -> (r: Result<ObjectiveType, ModelParseError>)
    ensures
        match r {
            Ok(objective) => exists|s: Seq<char>| #[trigger]
                is_solve_statement(content@, Some(s)) && objective == objective_of(s)
                    && is_asked_by(objective, s),
            Err(ModelParseError::NoSolveStatement) => is_solve_statement(content@, None),
            Err(_) => false,
        },
{
    match first_group(r"solve([\S\s]*?;)", content) {
        Ok(Some(statement)) => classify(Some(statement.as_str())),
        Ok(None) => classify(None),
        Err(e) => Err(ModelParseError::from(e)),
    }
}

/// A text has at most one `solve` statement that counts.
pub proof fn law_one_solve_statement(text: Seq<char>, a: Option<Seq<char>>, b: Option<Seq<char>>)
    requires
        is_solve_statement(text, a),
        is_solve_statement(text, b),
    ensures
        a == b,
{
    match (a, b) {
        (Some(s), Some(t)) => {
            let (i, j) = choose|i: int, j: int|
                {
                    &&& #[trigger] spans_solve(text, i, j)
                    &&& s == text.subrange(i + 5, j + 1)
                    &&& forall|i2: int, j2: int| i2 < i ==> !#[trigger] spans_solve(text, i2, j2)
                    &&& forall|j2: int| j2 < j ==> !#[trigger] spans_solve(text, i, j2)
                };
            let (k, l) = choose|k: int, l: int|
                {
                    &&& #[trigger] spans_solve(text, k, l)
                    &&& t == text.subrange(k + 5, l + 1)
                    &&& forall|i2: int, j2: int| i2 < k ==> !#[trigger] spans_solve(text, i2, j2)
                    &&& forall|j2: int| j2 < l ==> !#[trigger] spans_solve(text, k, j2)
                };
            assert(i == k);
            assert(j == l);
        },
        _ => {},
    }
}

/// Whether the word `solve` stands at `i`.
pub open spec fn says_solve_at(text: Seq<char>, i: int) -> bool {
    &&& 0 <= i && i + 5 <= text.len()
    &&& text[i] == 's' && text[i + 1] == 'o' && text[i + 2] == 'l' && text[i + 3] == 'v' && text[i
        + 4] == 'e'
}

proof fn lemma_spans_solve(text: Seq<char>, i: int, j: int)
    ensures
        spans_solve(text, i, j) <==> says_solve_at(text, i) && i + 5 <= j < text.len() && text[j]
            == ';',
{
    reveal_strlit("solve");
    if 0 <= i && i + 5 <= text.len() {
        let part = text.subrange(i, i + 5);
        assert(part[0] == text[i] && part[1] == text[i + 1] && part[2] == text[i + 2] && part[3]
            == text[i + 3] && part[4] == text[i + 4]);
        if says_solve_at(text, i) {
            assert(part =~= "solve"@);
        }
    }
}

/// The statement of a model is what stands between the first word `solve` and the first semicolon
/// behind it, with the semicolon, whatever stands before and behind.
pub proof fn law_first_solve_statement_counts(
    text: Seq<char>,
    before: Seq<char>,
    body: Seq<char>,
    behind: Seq<char>,
)
    requires
        text == before + seq!['s', 'o', 'l', 'v', 'e'] + body + seq![';'] + behind,
        forall|i: int| 0 <= i < before.len() ==> !#[trigger] says_solve_at(text, i),
        !body.contains(';'),
    ensures
        is_solve_statement(text, Some(body + seq![';'])),
{
    let i = before.len() as int;
    let j = i + 5 + body.len();
    assert(says_solve_at(text, i));
    lemma_spans_solve(text, i, j);
    assert(spans_solve(text, i, j));
    assert(text.subrange(i + 5, j + 1) =~= body + seq![';']);
    assert forall|i2: int, j2: int| i2 < i implies !#[trigger] spans_solve(text, i2, j2) by {
        lemma_spans_solve(text, i2, j2);
        if spans_solve(text, i2, j2) {
            assert(!says_solve_at(text, i2));
        }
    }
    assert forall|j2: int| j2 < j implies !#[trigger] spans_solve(text, i, j2) by {
        if spans_solve(text, i, j2) {
            assert(text[j2] == body[j2 - i - 5]);
            assert(body.contains(body[j2 - i - 5]));
        }
    }
}

/// A model has no statement just if no semicolon stands behind a word `solve`.
pub proof fn law_no_solve_statement(text: Seq<char>)
    ensures
        is_solve_statement(text, None) <==> forall|i: int, j: int|
            #![trigger says_solve_at(text, i), text[j]]
            says_solve_at(text, i) && i + 5 <= j < text.len() ==> text[j] != ';',
{
    assert forall|i: int, j: int| #[trigger] spans_solve(text, i, j) <==> says_solve_at(text, i) && i
        + 5 <= j < text.len() && text[j] == ';' by {
        lemma_spans_solve(text, i, j);
    }
    if is_solve_statement(text, None) {
        assert forall|i: int, j: int|
            #![trigger says_solve_at(text, i), text[j]]
            says_solve_at(text, i) && i + 5 <= j < text.len() implies text[j] != ';' by {
            assert(!spans_solve(text, i, j));
        }
    }
}

} // verus!
