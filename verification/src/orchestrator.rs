//! Solving a problem from start to end.
use crate::backup_solvers;
use crate::text::ends_in;
use crate::text_laws::law_end_stands_last;
use vstd::prelude::*;

pub mod static_parallel_portfolio;

verus! {

/// Why a problem was not solved.
#[derive(Debug)]
pub enum Error {
    Cancelled,
    Other(static_parallel_portfolio::Error),
}

impl From<static_parallel_portfolio::Error> for Error {
    fn from(value: static_parallel_portfolio::Error) -> (r: Self) {
        match value {
            static_parallel_portfolio::Error::Cancelled => Error::Cancelled,
            e => Error::Other(e),
        }
    }
}

impl vstd::std_specs::convert::FromSpecImpl<static_parallel_portfolio::Error> for Error {
    open spec fn obeys_from_spec() -> bool {
        true
    }

    open spec fn from_spec(value: static_parallel_portfolio::Error) -> Self {
        if value is Cancelled {
            Error::Cancelled
        } else {
            Error::Other(value)
        }
    }
}

impl Error {
    /// The error in words, as a mathematical value.
    pub open spec fn words(self) -> Seq<char> {
        match self {
            Error::Cancelled => "conversion was cancelled"@,
            Error::Other(e) => "error occurred in orchestrator: "@ + e.words(),
        }
    }

    /// The error in words.
    pub fn message(&self) -> (r: String)
        ensures
            r@ == self.words(),
    {
        match self {
            Error::Cancelled => "conversion was cancelled".to_owned(),
            Error::Other(e) => {
                let mut m = "error occurred in orchestrator: ".to_owned();
                m.append(e.message());
                m
            },
        }
    }
}

/// Whether the backup solver has to be run: not where the problem was solved, nor where the user
/// called the search off.
pub fn needs_backup_solver(result: &Result<(), Error>) -> (r: bool)
    ensures
        r == (*result matches Err(Error::Other(_))),
{
    match result {
        Ok(()) => false,
        Err(Error::Cancelled) => false,
        Err(Error::Other(_)) => true,
    }
}

/// The code to exit with after the backup solver, which was called off if there is no result.
pub fn exit_code(backup: &Option<Result<(), backup_solvers::Error>>) -> (r: i32)
    ensures
        r == if *backup matches Some(Err(_)) {
            1i32
        } else {
            0i32
        },
{
    match backup {
        Some(Err(_)) => 1,
        _ => 0,
    }
}

/// Just a portfolio that was called off makes the whole called off; every other error is kept as it is.
pub proof fn law_errors_are_kept(e: static_parallel_portfolio::Error)
    ensures
        ({
            let made = <Error as vstd::std_specs::convert::FromSpec<
                static_parallel_portfolio::Error,
            >>::from_spec(e);
            &&& made is Cancelled <==> e is Cancelled
            &&& made is Other <==> !(e is Cancelled)
            &&& made is Other ==> made->Other_0 == e
        }),
{
}

/// The words for an error end in those for its cause.
pub proof fn law_words_name_the_cause(e: static_parallel_portfolio::Error)
    ensures
        ends_in(Error::Other(e).words(), e.words()),
{
    law_end_stands_last("error occurred in orchestrator: "@, e.words(), Seq::empty());
}

} // verus!
