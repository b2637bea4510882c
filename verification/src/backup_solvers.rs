//! The solver that is run when the portfolio fails.
use crate::args::{CommonArgs, OutputMode};
use crate::command::{
    input_args, is_given, is_set_to, Arg, CommandLine, CommandView, ExitStatus,
};
use crate::io_error::IoError;
use crate::text::{decimal, decimal_text};
use crate::text_laws::law_written_without_leading_zeros;
use vstd::prelude::*;

verus! {

/// Why the backup solver failed.
#[derive(Debug)]
pub enum Error {
    CommandFailed,
    Io(IoError),
}

/// The arguments with which MiniZinc runs the backup solver.
pub open spec fn backup_solver_args(
    args: CommonArgs,
    output_mode: Option<OutputMode>,
    cores: usize,
) -> Seq<Arg> {
    seq![Arg::Text("--solver"@), Arg::Text("cp-sat"@)] + input_args(args.model, args.data) + seq![
        Arg::Text("-i"@),
        Arg::Text("-f"@),
    ] + (if args.output_objective {
        seq![Arg::Text("--output-objective"@)]
    } else {
        Seq::empty()
    }) + seq![
        Arg::Text("--output-mode"@),
        Arg::Text(
            match output_mode {
                Some(mode) => mode.name(),
                None => "dzn"@,
            },
        ),
        Arg::Text("-p"@),
        Arg::Text(decimal(cores as nat)),
    ]
}

/// The command that runs the backup solver.
pub fn backup_solver_cmd<'a>(
    args: &'a CommonArgs,
    output_mode: Option<OutputMode>,
    cores: usize,
) -> (r: CommandLine<'a>)
    ensures
        r@ == (CommandView {
            program: args.minizinc.minizinc_exe,
            args: backup_solver_args(*args, output_mode, cores),
        }),
{
    let mut cmd = CommandLine::new(&args.minizinc.minizinc_exe);
    cmd.text("--solver");
    cmd.text("cp-sat");
    cmd.path(&args.model);
    if let Some(data) = &args.data {
        cmd.path(data);
    }
    cmd.text("-i");
    cmd.text("-f");
    if args.output_objective {
        cmd.text("--output-objective");
    }
    cmd.text("--output-mode");
    match output_mode {
        Some(mode) => cmd.text(mode.as_text()),
        None => cmd.text("dzn"),
    }
    cmd.text("-p");
    cmd.text(decimal_text(cores as u64).as_str());
    assert(cmd@.args =~= backup_solver_args(*args, output_mode, cores));
    cmd
}

/// The backup solver is CP-SAT, is given the model and the data if there are any, searches freely, prints
/// intermediate solutions in the form asked for, and runs on all the cores. It prints the objective just
/// if the user wants to see it.
pub proof fn law_backup_solver_is_told_everything(
    args: CommonArgs,
    output_mode: Option<OutputMode>,
    cores: usize,
)
    ensures
        ({
            let told = backup_solver_args(args, output_mode, cores);
            &&& is_given(told, Arg::Path(args.model))
            &&& args.data matches Some(data) ==> is_given(told, Arg::Path(data))
        }),
        ({
            let told = backup_solver_args(args, output_mode, cores);
            &&& is_set_to(told, "--solver"@, Arg::Text("cp-sat"@))
            &&& is_given(told, Arg::Text("-i"@))
            &&& is_given(told, Arg::Text("-f"@))
            &&& is_set_to(told, "--output-mode"@, Arg::Text("dzn"@))
            &&& is_set_to(told, "-p"@, Arg::Text(decimal(cores as nat)))
            &&& is_given(told, Arg::Text("--output-objective"@)) <==> args.output_objective
            &&& told.len() == 9 + (if args.data is Some {
                1int
            } else {
                0
            }) + (if args.output_objective {
                1int
            } else {
                0
            })
        }),
{
    let told = backup_solver_args(args, output_mode, cores);
    let n: int = if args.data is Some {
        4
    } else {
        3
    };
    let m: int = if args.output_objective {
        n + 3
    } else {
        n + 2
    };
    assert(told[0] == Arg::Text("--solver"@) && told[1] == Arg::Text("cp-sat"@));
    assert(told[2] == Arg::Path(args.model));
    if let Some(data) = args.data {
        assert(told[3] == Arg::Path(data));
    }
    assert(told[n] == Arg::Text("-i"@) && told[n + 1] == Arg::Text("-f"@));
    if args.output_objective {
        assert(told[n + 2] == Arg::Text("--output-objective"@));
    }
    assert(told[m] == Arg::Text("--output-mode"@) && told[m + 1] == Arg::Text("dzn"@));
    assert(told[m + 2] == Arg::Text("-p"@) && told[m + 3] == Arg::Text(decimal(cores as nat)));
    reveal_strlit("--output-objective");
    reveal_strlit("--solver");
    reveal_strlit("cp-sat");
    reveal_strlit("-i");
    reveal_strlit("-f");
    reveal_strlit("--output-mode");
    reveal_strlit("dzn");
    reveal_strlit("-p");
    law_written_without_leading_zeros(cores as nat);
    assert("--output-objective"@[0] == '-');
    assert(decimal(cores as nat)[0] != '-');
    if !args.output_objective {
        assert forall|i: int| 0 <= i < told.len() implies #[trigger] told[i] != Arg::Text(
            "--output-objective"@,
        ) by {
            assert("--output-objective"@.len() == 18 && "--solver"@.len() == 8 && "cp-sat"@.len()
                == 6);
            assert("-i"@.len() == 2 && "-f"@.len() == 2 && "-p"@.len() == 2);
            assert("--output-mode"@.len() == 13 && "dzn"@.len() == 3);
            assert(i == 0 || i == 1 || i == 2 || i == n - 1 || i == n || i == n + 1 || i == m || i
                == m + 1 || i == m + 2 || i == m + 3);
        }
    }
}

/// What the end of the backup solver means.
pub fn backup_result(ended: Result<ExitStatus, IoError>) -> (r: Result<(), Error>)
    ensures
        match ended {
            Ok(status) => if status.succeeded() {
                r == Ok::<(), Error>(())
            } else {
                r == Err::<(), Error>(Error::CommandFailed)
            },
            Err(e) => r == Err::<(), Error>(Error::Io(e)),
        },
{
    match ended {
        Ok(status) => {
            if status.success() {
                Ok(())
            } else {
                Err(Error::CommandFailed)
            }
        },
        Err(e) => Err(Error::Io(e)),
    }
}

} // verus!
