//! Commands to be run.
use crate::path::PathBuf;
use vstd::prelude::*;

verus! {

/// An argument of a command.
#[derive(Debug)]
pub enum Argument<'a> {
    Text(String),
    Path(&'a PathBuf),
}

/// An argument as a mathematical value.
pub enum Arg {
    Text(Seq<char>),
    Path(PathBuf),
}

impl<'a> View for Argument<'a> {
    type V = Arg;

    open spec fn view(&self) -> Arg {
        match *self {
            Argument::Text(text) => Arg::Text(text@),
            Argument::Path(path) => Arg::Path(*path),
        }
    }
}

/// A list of arguments as mathematical values.
pub open spec fn arguments_view<'a>(arguments: Seq<Argument<'a>>) -> Seq<Arg> {
    arguments.map_values(|a: Argument<'a>| a@)
}

/// A program and what it is called with.
#[derive(Debug)]
pub struct CommandLine<'a> {
    pub program: &'a PathBuf,
    pub arguments: Vec<Argument<'a>>,
}

/// A program and what it is called with, as a mathematical value.
pub struct CommandView {
    pub program: PathBuf,
    pub args: Seq<Arg>,
}

impl<'a> View for CommandLine<'a> {
    type V = CommandView;

    open spec fn view(&self) -> CommandView {
        CommandView { program: *self.program, args: arguments_view(self.arguments@) }
    }
}

impl<'a> CommandLine<'a> {
    /// A program without arguments.
    pub fn new(program: &'a PathBuf) -> (r: Self)
        ensures
            r@ == (CommandView { program: *program, args: Seq::empty() }),
    {
        let r = CommandLine { program, arguments: Vec::new() };
        assert(r@.args =~= Seq::<Arg>::empty());
        r
    }

    /// Adds an argument that is text.
    pub fn text(&mut self, text: &str)
        ensures
            final(self)@ == (CommandView {
                args: old(self)@.args.push(Arg::Text(text@)),
                ..old(self)@
            }),
    {
        let ghost before = self.arguments@;
        let argument = Argument::Text(text.to_owned());
        assert(arguments_view(before.push(argument)) =~= arguments_view(before).push(argument@));
        self.arguments.push(argument);
    }

    /// Adds an argument that is a path.
    pub fn path(&mut self, path: &'a PathBuf)
        ensures
            final(self)@ == (CommandView {
                args: old(self)@.args.push(Arg::Path(*path)),
                ..old(self)@
            }),
    {
        let ghost before = self.arguments@;
        let argument = Argument::Path(path);
        assert(arguments_view(before.push(argument)) =~= arguments_view(before).push(argument@));
        self.arguments.push(argument);
    }
}

/// The model, and the data if there are any.
pub open spec fn input_args(model: PathBuf, data: Option<PathBuf>) -> Seq<Arg> {
    match data {
        Some(path) => seq![Arg::Path(model), Arg::Path(path)],
        None => seq![Arg::Path(model)],
    }
}

/// Whether an argument is given.
pub open spec fn is_given(args: Seq<Arg>, arg: Arg) -> bool {
    exists|i: int| 0 <= i < args.len() && #[trigger] args[i] == arg
}

/// Whether a flag is given and the argument behind it is `value`.
pub open spec fn is_set_to(args: Seq<Arg>, flag: Seq<char>, value: Arg) -> bool {
    exists|i: int|
        0 <= i < args.len() - 1 && #[trigger] args[i] == Arg::Text(flag) && args[i + 1] == value
}

/// How a process ended.
#[derive(Debug, Clone, Copy, PartialEq, Eq, Structural)]
pub enum ExitStatus {
    /// It returned a code.
    Code(i32),
    /// Something ended it, and it returned no code.
    Terminated,
}

impl ExitStatus {
    /// Whether the process did what it was run for.
    pub open spec fn succeeded(self) -> bool {
        self == ExitStatus::Code(0)
    }

    /// Whether the process did what it was run for.
    pub fn success(self) -> (r: bool)
        ensures
            r == self.succeeded(),
    {
        match self {
            ExitStatus::Code(code) => code == 0,
            ExitStatus::Terminated => false,
        }
    }
}

/// A list of arguments is seen whole: each as it is given, in order.
pub proof fn law_arguments_are_seen_whole<'a>(arguments: Seq<Argument<'a>>, i: int)
    requires
        0 <= i < arguments.len(),
    ensures
        arguments_view(arguments).len() == arguments.len(),
        match arguments[i] {
            Argument::Text(text) => arguments_view(arguments)[i] == Arg::Text(text@),
            Argument::Path(path) => arguments_view(arguments)[i] == Arg::Path(*path),
        },
{
}

/// Just the code 0 says that a process did what it was run for; one that was ended did not.
pub proof fn law_just_zero_is_success(code: i32)
    ensures
        ExitStatus::Code(code).succeeded() <==> code == 0,
        !ExitStatus::Terminated.succeeded(),
{
}

} // verus!
