//! What a solver prints.
use crate::text::{ends_in, ends_with_text, trim, trimmed};
use crate::text_laws::law_end_stands_last;
use vstd::prelude::*;

verus! {

const DONE_TERMINATOR: &'static str = "==========";

const UNSATISFIABLE_TERMINATOR: &'static str = "=====UNSATISFIABLE=====";

const UNBOUNDED_TERMINATOR: &'static str = "=====UNBOUNDED=====";

const UNKNOWN_TERMINATOR: &'static str = "=====UNKNOWN=====";

/// What a solver says of the problem.
#[derive(Debug, Clone, Copy, PartialEq, Eq, Structural)]
pub enum OutputKind {
    /// A solution, but not the last word.
    Intermediate,
    /// The search is over; the last solution is the best there is.
    Optimal,
    Unsatisfiable,
    Unbounded,
    Unknown,
}

/// One solution of an optimisation problem.
#[derive(Debug)]
pub struct Solution {
    pub solution: String,
    pub objective: isize,
}

/// Something that a solver printed, and what it says.
#[derive(Debug)]
pub struct Output {
    pub kind: OutputKind,
    /// The text that was printed, without the white space around it.
    pub original_output: String,
}

/// What a text without white space around it says, judged by how it ends.
pub open spec fn kind_of(text: Seq<char>) -> OutputKind {
    if ends_in(text, "=========="@) {
        OutputKind::Optimal
    } else if ends_in(text, "=====UNSATISFIABLE====="@) {
        OutputKind::Unsatisfiable
    } else if ends_in(text, "=====UNBOUNDED====="@) {
        OutputKind::Unbounded
    } else if ends_in(text, "=====UNKNOWN====="@) {
        OutputKind::Unknown
    } else {
        OutputKind::Intermediate
    }
}

impl Output {
    fn new(kind: OutputKind, original_output: String) -> (r: Self)
        ensures
            r.kind == kind,
            r.original_output@ == original_output@,
    {
        Output { kind, original_output }
    }

    /// Reads what a solver printed.
    pub fn parse(output: &str) -> (r: Self)
        ensures
            r.original_output@ == trim(output@),
            r.kind == kind_of(trim(output@)),
    {
        let s = trimmed(output);
        if ends_with_text(s, DONE_TERMINATOR) {
            Output::new(OutputKind::Optimal, s.to_owned())
        } else if ends_with_text(s, UNSATISFIABLE_TERMINATOR) {
            Output::new(OutputKind::Unsatisfiable, s.to_owned())
        } else if ends_with_text(s, UNBOUNDED_TERMINATOR) {
            Output::new(OutputKind::Unbounded, s.to_owned())
        } else if ends_with_text(s, UNKNOWN_TERMINATOR) {
            Output::new(OutputKind::Unknown, s.to_owned())
        } else {
            Output::new(OutputKind::Intermediate, s.to_owned())
        }
    }
}

/// No text ends in two terminators, so it says one thing however the terminators are tried.
pub proof fn law_terminators_exclude_each_other(text: Seq<char>)
    ensures
        !(ends_in(text, "=========="@) && ends_in(text, "=====UNSATISFIABLE====="@)),
        !(ends_in(text, "=========="@) && ends_in(text, "=====UNBOUNDED====="@)),
        !(ends_in(text, "=========="@) && ends_in(text, "=====UNKNOWN====="@)),
        !(ends_in(text, "=====UNSATISFIABLE====="@) && ends_in(text, "=====UNBOUNDED====="@)),
        !(ends_in(text, "=====UNSATISFIABLE====="@) && ends_in(text, "=====UNKNOWN====="@)),
        !(ends_in(text, "=====UNBOUNDED====="@) && ends_in(text, "=====UNKNOWN====="@)),
{
    reveal_strlit("==========");
    reveal_strlit("=====UNSATISFIABLE=====");
    reveal_strlit("=====UNBOUNDED=====");
    reveal_strlit("=====UNKNOWN=====");
    // The sixth character from the end tells the terminators apart.
    let n = text.len();
    if ends_in(text, "=========="@) {
        assert(text.subrange(n - 10, n as int)[4] == '=');
        assert(text[n - 6] == '=');
    }
    if ends_in(text, "=====UNSATISFIABLE====="@) {
        assert(text.subrange(n - 23, n as int)[17] == 'E');
        assert(text[n - 6] == 'E');
    }
    if ends_in(text, "=====UNBOUNDED====="@) {
        assert(text.subrange(n - 19, n as int)[13] == 'D');
        assert(text[n - 6] == 'D');
    }
    if ends_in(text, "=====UNKNOWN====="@) {
        assert(text.subrange(n - 17, n as int)[11] == 'N');
        assert(text[n - 6] == 'N');
    }
}

/// A terminator at the end of what a solver printed says what it says whatever was printed before it.
pub proof fn law_terminator_decides(before: Seq<char>)
    ensures
        kind_of(before + "=========="@) == OutputKind::Optimal,
        kind_of(before + "=====UNSATISFIABLE====="@) == OutputKind::Unsatisfiable,
        kind_of(before + "=====UNBOUNDED====="@) == OutputKind::Unbounded,
        kind_of(before + "=====UNKNOWN====="@) == OutputKind::Unknown,
{
    law_terminators_exclude_each_other(before + "=========="@);
    law_terminators_exclude_each_other(before + "=====UNSATISFIABLE====="@);
    law_terminators_exclude_each_other(before + "=====UNBOUNDED====="@);
    law_terminators_exclude_each_other(before + "=====UNKNOWN====="@);
    law_end_stands_last(before, "=========="@, Seq::empty());
    law_end_stands_last(before, "=====UNSATISFIABLE====="@, Seq::empty());
    law_end_stands_last(before, "=====UNBOUNDED====="@, Seq::empty());
    law_end_stands_last(before, "=====UNKNOWN====="@, Seq::empty());
}

/// Whether a text is something with the given terminator behind it.
pub open spec fn is_closed_by(text: Seq<char>, end: Seq<char>) -> bool {
    end.len() <= text.len() && text == text.take(text.len() - end.len()) + end
}

/// A text says that the search is over just if it has the terminator for that at its end, and is an
/// intermediate solution just if it has none.
pub proof fn law_just_terminators_end_the_search(text: Seq<char>)
    ensures
        kind_of(text) == OutputKind::Optimal <==> is_closed_by(text, "=========="@),
        kind_of(text) == OutputKind::Unsatisfiable <==> is_closed_by(
            text,
            "=====UNSATISFIABLE====="@,
        ),
        kind_of(text) == OutputKind::Unbounded <==> is_closed_by(text, "=====UNBOUNDED====="@),
        kind_of(text) == OutputKind::Unknown <==> is_closed_by(text, "=====UNKNOWN====="@),
{
    law_terminators_exclude_each_other(text);
    lemma_closed(text, "=========="@);
    lemma_closed(text, "=====UNSATISFIABLE====="@);
    lemma_closed(text, "=====UNBOUNDED====="@);
    lemma_closed(text, "=====UNKNOWN====="@);
}

proof fn lemma_closed(text: Seq<char>, end: Seq<char>)
    ensures
        ends_in(text, end) <==> is_closed_by(text, end),
{
    law_end_stands_last(text.take(text.len() - end.len()), end, text);
}

} // verus!
