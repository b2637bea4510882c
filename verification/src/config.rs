//! How solvers are called.
use crate::solver_config::{Solver, Solvers, SupportedStdFlags};
use crate::text::texts;
use crate::vec_map::VecMap;
use std::sync::Arc;
use vstd::prelude::*;

verus! {

/// The flags that each solver is called with.
#[derive(Debug, Clone)]
pub struct Config {
    pub solver_args: Arc<VecMap<String, Vec<String>>>,
}

/// The flags for a solver: intermediate solutions if it can give them, else all solutions, and a
/// free search if it can do one.
pub open spec fn args_for(flags: SupportedStdFlags) -> Seq<Seq<char>> {
    let shown = if flags.i {
        seq!["-i"@]
    } else if flags.a {
        seq!["-a"@]
    } else {
        Seq::empty()
    };
    if flags.f {
        shown.push("-f"@)
    } else {
        shown
    }
}

/// The flags for each of the given solvers, by name; of solvers with one name, the last counts.
pub open spec fn args_by_id(solvers: Seq<Solver>) -> Map<Seq<char>, Seq<Seq<char>>>
    decreases solvers.len(),
{
    if solvers.len() == 0 {
        Map::empty()
    } else {
        args_by_id(solvers.drop_last()).insert(
            solvers.last()@.id,
            args_for(solvers.last()@.supported_std_flags),
        )
    }
}

impl View for Config {
    type V = Map<Seq<char>, Seq<Seq<char>>>;

    open spec fn view(&self) -> Map<Seq<char>, Seq<Seq<char>>> {
        self.solver_args@.map_values(|args: Vec<String>| texts(args@))
    }
}

impl Config {
    /// The flags can be looked up.
    pub open spec fn wf(&self) -> bool {
        self.solver_args.wf()
    }

    /// The flags for the given solvers.
    pub fn new(solvers: &Solvers) -> (r: Self)
        ensures
            r.wf(),
            r@ == args_by_id(solvers@),
    {
        let mut solver_args: VecMap<String, Vec<String>> = VecMap::new();
        let mut i: usize = 0;
        assert(solver_args@.map_values(|args: Vec<String>| texts(args@)) =~= Map::empty());
        while i < solvers.len()
            invariant
                i <= solvers@.len(),
                solver_args.wf(),
                solver_args@.map_values(|args: Vec<String>| texts(args@)) == args_by_id(
                    solvers@.take(i as int),
                ),
            decreases solvers@.len() - i,
        {
            let solver = solvers.solver(i);
            let supported_flags = solver.supported_std_flags();
            let mut args: Vec<String> = Vec::new();
            if supported_flags.i {
                args.push("-i".to_owned());
            } else if supported_flags.a {
                args.push("-a".to_owned());
            }
            if supported_flags.f {
                args.push("-f".to_owned());
            }
            proof {
                assert(texts(args@) =~= args_for(*supported_flags));
                assert(solvers@.take(i + 1).drop_last() =~= solvers@.take(i as int));
            }
            let ghost before = solver_args@;
            solver_args.insert(solver.id().to_owned(), args);
            proof {
                assert(solver_args@.map_values(|args: Vec<String>| texts(args@))
                    =~= before.map_values(|args: Vec<String>| texts(args@)).insert(
                    solver@.id,
                    texts(args@),
                ));
            }
            i += 1;
        }
        assert(solvers@.take(i as int) =~= solvers@);
        Config { solver_args: Arc::new(solver_args) }
    }
}

/// A solver is asked for intermediate solutions just if it can give them, for all solutions just if it
/// can give those and not intermediate ones, and for a free search just if it can do one; no flag comes
/// twice, and there are no others.
pub proof fn law_flags_follow_what_is_supported(flags: SupportedStdFlags)
    ensures
        ({
            let args = args_for(flags);
            &&& args.contains("-i"@) <==> flags.i
            &&& args.contains("-a"@) <==> flags.a && !flags.i
            &&& args.contains("-f"@) <==> flags.f
            &&& args.no_duplicates()
            &&& forall|arg: Seq<char>| #[trigger]
                args.contains(arg) ==> arg == "-i"@ || arg == "-a"@ || arg == "-f"@
        }),
{
    reveal_strlit("-i");
    reveal_strlit("-a");
    reveal_strlit("-f");
    assert("-i"@[1] == 'i' && "-a"@[1] == 'a' && "-f"@[1] == 'f');
    let args = args_for(flags);
    if flags.i {
        assert(args[0] == "-i"@);
    } else if flags.a {
        assert(args[0] == "-a"@);
    }
    if flags.f {
        assert(args[args.len() - 1] == "-f"@);
    }
}

/// Whether a solver has the name `id`.
pub open spec fn names(solvers: Seq<Solver>, id: Seq<char>) -> bool {
    exists|i: int| 0 <= i < solvers.len() && (#[trigger] solvers[i])@.id == id
}

/// Every solver has flags, and nothing else does.
pub proof fn law_every_solver_has_flags(solvers: Seq<Solver>, id: Seq<char>)
    ensures
        args_by_id(solvers).contains_key(id) <==> names(solvers, id),
    decreases solvers.len(),
{
    if solvers.len() > 0 {
        let head = solvers.drop_last();
        law_every_solver_has_flags(head, id);
        if names(head, id) {
            let i = choose|i: int| 0 <= i < head.len() && (#[trigger] head[i])@.id == id;
            assert(solvers[i]@.id == id);
        }
        if solvers.last()@.id == id {
            assert(solvers[solvers.len() - 1]@.id == id);
        }
        if names(solvers, id) {
            let i = choose|i: int| 0 <= i < solvers.len() && (#[trigger] solvers[i])@.id == id;
            if i < head.len() {
                assert(head[i]@.id == id);
            }
        }
    }
}

/// A solver that shares its name with no later one has the flags for what it supports.
pub proof fn law_solver_has_its_flags(solvers: Seq<Solver>, i: int)
    requires
        0 <= i < solvers.len(),
        !names(solvers.skip(i + 1), solvers[i]@.id),
    ensures
        args_by_id(solvers).contains_key(solvers[i]@.id),
        args_by_id(solvers)[solvers[i]@.id] == args_for(solvers[i]@.supported_std_flags),
    decreases solvers.len(),
{
    let head = solvers.drop_last();
    if i < head.len() {
        let later = solvers.skip(i + 1);
        assert(later[later.len() - 1] == solvers.last());
        assert(solvers.last()@.id != solvers[i]@.id);
        assert(!names(head.skip(i + 1), solvers[i]@.id)) by {
            if names(head.skip(i + 1), solvers[i]@.id) {
                let j = choose|j: int|
                    0 <= j < head.skip(i + 1).len() && (#[trigger] head.skip(i + 1)[j])@.id
                        == solvers[i]@.id;
                assert(later[j]@.id == solvers[i]@.id);
            }
        }
        law_solver_has_its_flags(head, i);
    }
}

} // verus!
