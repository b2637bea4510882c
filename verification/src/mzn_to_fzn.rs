//! Compilation of MiniZinc models to FlatZinc.
use crate::args::{CommonArgs, Verbosity};
use crate::command::{
    input_args, is_given, is_set_to, Arg, CommandLine, CommandView, ExitStatus,
};
use crate::io_error::IoError;
use crate::path::PathBuf;
use crate::vec_map::VecMap;
use std::sync::Arc;
use vstd::prelude::*;

pub mod compilation_core_manager;
pub mod compilation_manager;
pub mod compilation_scheduler;
pub mod pool;
pub mod pool_laws;
pub mod priority;
pub mod work_laws;

verus! {

/// The arguments with which MiniZinc compiles a model for one solver.
pub open spec fn mzn_to_fzn_args(
    args: CommonArgs,
    solver_name: Seq<char>,
    fzn: PathBuf,
    ozn: PathBuf,
) -> Seq<Arg> {
    seq![Arg::Text("-c"@)] + input_args(args.model, args.data) + seq![
        Arg::Text("--solver"@),
        Arg::Text(solver_name),
        Arg::Text("-o"@),
        Arg::Path(fzn),
        Arg::Text("--output-objective"@),
        Arg::Text("--output-mode"@),
        Arg::Text(args.output_mode.name()),
        Arg::Text("--ozn"@),
        Arg::Path(ozn),
    ]
}

/// The command that compiles a model for one solver.
pub fn get_mzn_to_fzn_cmd<'a>(
    args: &'a CommonArgs,
    solver_name: &str,
    fzn_result_path: &'a PathBuf,
    ozn_result_path: &'a PathBuf,
) -> (r: CommandLine<'a>)
    ensures
        r@ == (CommandView {
            program: args.minizinc.minizinc_exe,
            args: mzn_to_fzn_args(*args, solver_name@, *fzn_result_path, *ozn_result_path),
        }),
{
    let mut cmd = CommandLine::new(&args.minizinc.minizinc_exe);
    cmd.text("-c");
    cmd.path(&args.model);
    if let Some(data) = &args.data {
        cmd.path(data);
    }
    cmd.text("--solver");
    cmd.text(solver_name);
    cmd.text("-o");
    cmd.path(fzn_result_path);
    cmd.text("--output-objective");
    cmd.text("--output-mode");
    cmd.text(args.output_mode.as_text());
    cmd.text("--ozn");
    cmd.path(ozn_result_path);
    assert(cmd@.args =~= mzn_to_fzn_args(
        *args,
        solver_name@,
        *fzn_result_path,
        *ozn_result_path,
    ));
    cmd
}

/// MiniZinc is told to compile the model, with the data if there are any, for the solver that is named,
/// to write each of its two results where it is wanted, and to put the objective into the output, which
/// has the form that the user asks for.
pub proof fn law_compilation_is_told_everything(
    args: CommonArgs,
    solver_name: Seq<char>,
    fzn: PathBuf,
    ozn: PathBuf,
)
    ensures
        ({
            let told = mzn_to_fzn_args(args, solver_name, fzn, ozn);
            &&& is_given(told, Arg::Text("-c"@))
            &&& is_given(told, Arg::Path(args.model))
            &&& args.data matches Some(data) ==> is_given(told, Arg::Path(data))
        }),
        ({
            let told = mzn_to_fzn_args(args, solver_name, fzn, ozn);
            &&& is_set_to(told, "--solver"@, Arg::Text(solver_name))
            &&& is_set_to(told, "-o"@, Arg::Path(fzn))
            &&& is_set_to(told, "--ozn"@, Arg::Path(ozn))
            &&& is_given(told, Arg::Text("--output-objective"@))
            &&& is_set_to(told, "--output-mode"@, Arg::Text("dzn"@))
            &&& told.len() == if args.data is Some {
                12
            } else {
                11int
            }
        }),
{
    let told = mzn_to_fzn_args(args, solver_name, fzn, ozn);
    let n: int = if args.data is Some {
        3
    } else {
        2
    };
    assert(told[0] == Arg::Text("-c"@));
    assert(told[1] == Arg::Path(args.model));
    if let Some(data) = args.data {
        assert(told[2] == Arg::Path(data));
    }
    assert(told[n] == Arg::Text("--solver"@) && told[n + 1] == Arg::Text(solver_name));
    assert(told[n + 2] == Arg::Text("-o"@) && told[n + 3] == Arg::Path(fzn));
    assert(told[n + 4] == Arg::Text("--output-objective"@));
    assert(told[n + 5] == Arg::Text("--output-mode"@) && told[n + 6] == Arg::Text("dzn"@));
    assert(told[n + 7] == Arg::Text("--ozn"@) && told[n + 8] == Arg::Path(ozn));
}

/// Whether what MiniZinc warns of is passed on.
pub fn forwards_warnings(verbosity: Verbosity) -> (r: bool)
    ensures
        r == (verbosity == Verbosity::Warning || verbosity == Verbosity::Info),
{
    verbosity.at_least(Verbosity::Warning)
}

/// Why there is no conversion.
#[derive(Debug)]
pub enum Error {
    Cancelled,
    Conversion(ConversionError),
}

/// What went wrong in a conversion.
#[derive(Debug)]
pub enum ConversionError {
    /// MiniZinc ended otherwise than with success.
    CommandFailed(ExitStatus),
    /// A temporary file could not be made.
    TempFile(IoError),
    Io(IoError),
}

/// How the wait for a compilation ended.
#[derive(Debug)]
pub enum Wait {
    /// It was broken off.
    Cancelled,
    /// The process could not be waited for.
    Failed(IoError),
    Exited(ExitStatus),
}

/// What the end of the wait means for the conversion.
pub fn conversion_result(wait: Wait) -> (r: Result<(), Error>)
    ensures
        match wait {
            Wait::Cancelled => r == Err::<(), Error>(Error::Cancelled),
            Wait::Failed(e) => r == Err::<(), Error>(Error::Conversion(ConversionError::Io(e))),
            Wait::Exited(status) => if status.succeeded() {
                r == Ok::<(), Error>(())
            } else {
                r == Err::<(), Error>(Error::Conversion(ConversionError::CommandFailed(status)))
            },
        },
{
    match wait {
        Wait::Cancelled => Err(Error::Cancelled),
        Wait::Failed(e) => Err(Error::Conversion(ConversionError::Io(e))),
        Wait::Exited(status) => {
            if status.success() {
                Ok(())
            } else {
                Err(Error::Conversion(ConversionError::CommandFailed(status)))
            }
        },
    }
}

/// The conversions that were made, by solver.
#[derive(Debug)]
pub struct CachedConverter<C> {
    cache: VecMap<String, Arc<C>>,
}

impl<C> View for CachedConverter<C> {
    type V = Map<Seq<char>, Arc<C>>;

    closed spec fn view(&self) -> Map<Seq<char>, Arc<C>> {
        self.cache@
    }
}

impl<C> CachedConverter<C> {
    /// The conversions can be looked up.
    pub closed spec fn wf(&self) -> bool {
        self.cache.wf()
    }

    /// No conversion was made yet.
    pub fn new() -> (r: Self)
        ensures
            r.wf(),
            r@ == Map::<Seq<char>, Arc<C>>::empty(),
    {
        CachedConverter { cache: VecMap::new() }
    }

    /// The conversion for `solver_name`, if it was made.
    pub fn cached(&self, solver_name: &str) -> (r: Option<&Arc<C>>)
        requires
            self.wf(),
        ensures
            match r {
                Some(conversion) => self@.contains_key(solver_name@) && *conversion
                    == self@[solver_name@],
                None => !self@.contains_key(solver_name@),
            },
    {
        self.cache.get(&solver_name.to_owned())
    }

    /// Takes in how a conversion for `solver_name` ended. A conversion is kept; an error is not, so
    /// that the next attempt converts again.
    pub fn converted(&mut self, solver_name: &str, result: Result<Arc<C>, Error>) -> (r: Result<
        (),
        Error,
    >)
        requires
            old(self).wf(),
        ensures
            final(self).wf(),
            match result {
                Ok(conversion) => r == Ok::<(), Error>(()) && final(self)@ == old(self)@.insert(
                    solver_name@,
                    conversion,
                ),
                Err(e) => r == Err::<(), Error>(e) && final(self)@ == old(self)@,
            },
    {
        match result {
            Ok(conversion) => {
                self.cache.insert(solver_name.to_owned(), conversion);
                Ok(())
            },
            Err(e) => Err(e),
        }
    }
}

} // verus!
