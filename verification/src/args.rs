//! What the user asks for.
use crate::ai::SimpleAi;
use crate::mzn_to_fzn::priority::SolverPriority;
use crate::path::PathBuf;
use crate::text::{
    chars_of, joined, law_split_of_joined, law_split_reads_joined, law_trim_once, lemma_split_one,
    split, split_text, texts, trim, trimmed,
};
use crate::vec_map::VecMap;
use vstd::prelude::*;

verus! {

/// The command line.
#[derive(Debug)]
pub struct Cli {
    pub command: Command,
}

/// What is to be done.
#[derive(Debug)]
pub enum Command {
    /// Run the static parallel portfolio.
    Static(StaticArgs),
    /// Build the cache of solver configurations and exit.
    BuildSolverCache(BuildSolverCacheArgs),
}

/// How the static parallel portfolio runs.
#[derive(Debug)]
pub struct StaticArgs {
    pub ai: AiArgs,
    /// The least time, in seconds, for which the initial schedule runs.
    pub static_runtime: u64,
    /// The time, in seconds, between restarts that share the bound found.
    pub restart_interval: u64,
    /// The time, in seconds, after which feature extraction is given up.
    pub feature_timeout: u64,
    /// The file that holds the initial schedule.
    pub static_schedule: Option<PathBuf>,
    /// The file that holds the schedule for when feature extraction is given up.
    pub timeout_schedule: Option<PathBuf>,
    pub common: CommonArgs,
}

/// Which AI picks the schedule.
#[derive(Debug, Clone)]
pub struct AiArgs {
    pub kind: Ai,
    /// Settings for the AI, in the form `<key1>=<value1>,<key2>=<value2>,...`.
    pub config: Option<String>,
    /// The solver for which the model is compiled to extract features from it.
    pub feature_extraction_solver_id: String,
}

/// What every way of solving needs.
#[derive(Debug)]
pub struct CommonArgs {
    /// The MiniZinc model.
    pub model: PathBuf,
    /// The MiniZinc data for the model.
    pub data: Option<PathBuf>,
    pub output_mode: OutputMode,
    /// Whether the objective is printed.
    pub output_objective: bool,
    /// Whether the solver that found a solution is printed.
    pub output_solver: bool,
    /// The cores that may be used.
    pub cores: usize,
    /// Whether solvers that run on Java are pinned to cores.
    pub pin_java_solvers: bool,
    /// Whether solvers are killed when memory runs short.
    pub enforce_memory: bool,
    pub solver_config_mode: SolverConfigMode,
    /// The file that lists the solvers to compile for ahead of need.
    pub compilation_priority: Option<PathBuf>,
    pub minizinc: MiniZincArgs,
    pub verbosity: Verbosity,
}

/// Where MiniZinc is.
#[derive(Debug)]
pub struct MiniZincArgs {
    pub minizinc_exe: PathBuf,
}

/// How the cache of solver configurations is built.
#[derive(Debug)]
pub struct BuildSolverCacheArgs {
    pub minizinc: MiniZincArgs,
}

/// The kinds of AI.
#[derive(Debug, Clone, Copy, PartialEq, Eq, Structural)]
pub enum Ai {
    /// No AI: only the initial schedule runs.
    Off,
    /// The simple AI.
    Simple,
    /// A program that is run. The configuration must hold `command=<command-path>`.
    CommandLine,
}

/// The form in which solutions are printed.
#[derive(Debug, Clone, Copy, PartialEq, Eq, Structural)]
pub enum OutputMode {
    Dzn,
}

impl OutputMode {
    /// The name of the form.
    pub open spec fn name(self) -> Seq<char> {
        match self {
            OutputMode::Dzn => "dzn"@,
        }
    }

    /// The name of the form, as MiniZinc has it.
    pub fn as_text(&self) -> (r: &'static str)
        ensures
            r@ == self.name(),
    {
        match self {
            OutputMode::Dzn => "dzn",
        }
    }
}

/// How much is logged.
#[derive(Debug, Clone, Copy, PartialEq, Eq, Structural)]
pub enum Verbosity {
    Quiet,
    Error,
    Warning,
    Info,
}

impl Verbosity {
    /// The place among the levels, from the quietest on.
    pub open spec fn level(self) -> int {
        match self {
            Verbosity::Quiet => 0,
            Verbosity::Error => 1,
            Verbosity::Warning => 2,
            Verbosity::Info => 3,
        }
    }

    fn rank(self) -> (r: u8)
        ensures
            r == self.level(),
    {
        match self {
            Verbosity::Quiet => 0,
            Verbosity::Error => 1,
            Verbosity::Warning => 2,
            Verbosity::Info => 3,
        }
    }

    /// Whether what belongs to `other` is logged.
    pub fn at_least(self, other: Verbosity) -> (r: bool)
        ensures
            r == (self.level() >= other.level()),
    {
        self.rank() >= other.rank()
    }
}

/// What belongs to a level is logged on that level and on every louder one, and on no quieter one.
pub proof fn law_louder_levels_log_more(a: Verbosity, b: Verbosity)
    ensures
        a.level() >= b.level() <==> match b {
            Verbosity::Quiet => true,
            Verbosity::Error => !(a is Quiet),
            Verbosity::Warning => a is Warning || a is Info,
            Verbosity::Info => a is Info,
        },
{
}

/// Where the solver configurations come from.
#[derive(Debug, Clone, Copy, PartialEq, Eq, Structural)]
pub enum SolverConfigMode {
    /// A cache that was built beforehand.
    Cache,
    /// A search at startup.
    Discover,
}

/// The key and the value of a pair, which the first `=` parts.
pub open spec fn key_value(pair: Seq<char>) -> Option<(Seq<char>, Seq<char>)> {
    match pair.index_of_first('=') {
        Some(i) => Some((pair.take(i), pair.skip(i + 1))),
        None => None,
    }
}

/// The pairs that a configuration holds; without a configuration there are none.
pub open spec fn config_pairs(config: Option<Seq<char>>) -> Seq<Seq<char>> {
    match config {
        Some(text) => split(text, ','),
        None => Seq::empty(),
    }
}

/// The settings that the given pairs make; of pairs with one key, the last counts.
pub open spec fn settings(pairs: Seq<Seq<char>>) -> Map<Seq<char>, Seq<char>>
    decreases pairs.len(),
{
    if pairs.len() == 0 {
        Map::empty()
    } else {
        match key_value(pairs.last()) {
            Some((k, v)) => settings(pairs.drop_last()).insert(k, v),
            None => settings(pairs.drop_last()),
        }
    }
}

/// Whether every pair has a key and a value.
pub open spec fn well_formed_pairs(pairs: Seq<Seq<char>>) -> bool {
    forall|i: int| 0 <= i < pairs.len() ==> key_value(#[trigger] pairs[i]) is Some
}

/// Whether `bad` is the first pair without a `=`.
pub open spec fn is_first_malformed(pairs: Seq<Seq<char>>, bad: Seq<char>) -> bool {
    exists|i: int|
        {
            &&& 0 <= i < pairs.len()
            &&& #[trigger] pairs[i] == bad
            &&& key_value(bad) is None
            &&& well_formed_pairs(pairs.take(i))
        }
}

/// Whether `key` is the key of one of the pairs.
pub open spec fn has_key(pairs: Seq<Seq<char>>, key: Seq<char>) -> bool {
    exists|i: int|
        0 <= i < pairs.len() && (key_value(#[trigger] pairs[i]) matches Some((k, _)) && k == key)
}

/// A key is set exactly if a pair has it.
pub proof fn law_pairs_set_their_keys(pairs: Seq<Seq<char>>, key: Seq<char>)
    ensures
        settings(pairs).contains_key(key) <==> has_key(pairs, key),
    decreases pairs.len(),
{
    if pairs.len() > 0 {
        let head = pairs.drop_last();
        law_pairs_set_their_keys(head, key);
        if has_key(head, key) {
            let i = choose|i: int|
                0 <= i < head.len() && (key_value(#[trigger] head[i]) matches Some((k, _)) && k
                    == key);
            assert(pairs[i] == head[i]);
        }
        if has_key(pairs, key) {
            let i = choose|i: int|
                0 <= i < pairs.len() && (key_value(#[trigger] pairs[i]) matches Some((k, _)) && k
                    == key);
            if i < head.len() {
                assert(head[i] == pairs[i]);
            }
        }
        assert(pairs[pairs.len() - 1] == pairs.last());
    }
}

/// The first `=` of a pair parts it: what stands before it is the key, all that stands behind it is the
/// value.
pub proof fn law_first_equals_parts_a_pair(key: Seq<char>, value: Seq<char>)
    requires
        !key.contains('='),
    ensures
        key_value(key + seq!['='] + value) == Some((key, value)),
{
    let pair = key + seq!['='] + value;
    let n = key.len() as int;
    assert(pair[n] == '=');
    pair.index_of_first_ensures('=');
    let i = pair.index_of_first('=').unwrap();
    if i < n {
        assert(key[i] == pair[i]);
        assert(key.contains(key[i]));
    }
    assert(i == n);
    assert(pair.take(n) =~= key);
    assert(pair.skip(n + 1) =~= value);
}

/// Just a pair without a `=` has no key and value.
pub proof fn law_pair_without_equals(pair: Seq<char>)
    ensures
        key_value(pair) is None <==> !pair.contains('='),
        key_value(pair) matches Some((key, value)) ==> !key.contains('=') && pair == key + seq!['=']
            + value,
{
    pair.index_of_first_ensures('=');
    if pair.contains('=') {
        let i = pair.index_of_first('=').unwrap();
        let key = pair.take(i);
        assert(!key.contains('=')) by {
            if key.contains('=') {
                let k = choose|k: int| 0 <= k < key.len() && key[k] == '=';
                assert(pair[k] == '=');
            }
        }
        assert(pair =~= key + seq!['='] + pair.skip(i + 1));
    }
}

/// A configuration is refused just if one of its pairs lacks a `=`, and the pair that it is refused for
/// is the first of these.
pub proof fn law_first_malformed_pair(pairs: Seq<Seq<char>>, a: Seq<char>, b: Seq<char>)
    ensures
        well_formed_pairs(pairs) <==> forall|i: int|
            0 <= i < pairs.len() ==> (#[trigger] pairs[i]).contains('='),
        is_first_malformed(pairs, a) ==> !well_formed_pairs(pairs) && pairs.contains(a)
            && !a.contains('='),
        is_first_malformed(pairs, a) && is_first_malformed(pairs, b) ==> a == b,
{
    assert forall|i: int| 0 <= i < pairs.len() implies (key_value(#[trigger] pairs[i]) is Some
        <==> pairs[i].contains('=')) by {
        law_pair_without_equals(pairs[i]);
    }
    law_pair_without_equals(a);
    if is_first_malformed(pairs, a) && is_first_malformed(pairs, b) {
        let i = choose|i: int|
            {
                &&& 0 <= i < pairs.len()
                &&& #[trigger] pairs[i] == a
                &&& key_value(a) is None
                &&& well_formed_pairs(pairs.take(i))
            };
        let j = choose|j: int|
            {
                &&& 0 <= j < pairs.len()
                &&& #[trigger] pairs[j] == b
                &&& key_value(b) is None
                &&& well_formed_pairs(pairs.take(j))
            };
        if i < j {
            assert(pairs.take(j)[i] == a);
        }
        if j < i {
            assert(pairs.take(i)[j] == b);
        }
    }
}

/// The pairs of keys and values, each with a `=` between.
pub open spec fn pair_texts(pairs: Seq<(Seq<char>, Seq<char>)>) -> Seq<Seq<char>> {
    Seq::new(pairs.len(), |i: int| pairs[i].0 + seq!['='] + pairs[i].1)
}

/// A configuration that is written as pairs with commas between reads back: each key that the last pair
/// with it sets has the value that the pair gives it, and no other key is set.
pub proof fn law_config_reads_back(pairs: Seq<(Seq<char>, Seq<char>)>, i: int)
    requires
        0 <= i < pairs.len(),
        forall|j: int|
            0 <= j < pairs.len() ==> !(#[trigger] pairs[j]).0.contains('=') && !pairs[j].0.contains(',')
                && !pairs[j].1.contains(','),
        forall|j: int| i < j < pairs.len() ==> (#[trigger] pairs[j]).0 != pairs[i].0,
    ensures
        ({
            let read = config_pairs(Some(joined(pair_texts(pairs), seq![','])));
            &&& well_formed_pairs(read)
            &&& settings(read).contains_key(pairs[i].0)
            &&& settings(read)[pairs[i].0] == pairs[i].1
            &&& forall|key: Seq<char>| #[trigger]
                settings(read).contains_key(key) <==> exists|j: int|
                    0 <= j < pairs.len() && (#[trigger] pairs[j]).0 == key
        }),
{
    let all = pair_texts(pairs);
    assert forall|j: int| 0 <= j < all.len() implies !(#[trigger] all[j]).contains(',') && key_value(
        all[j],
    ) == Some((pairs[j].0, pairs[j].1)) by {
        law_first_equals_parts_a_pair(pairs[j].0, pairs[j].1);
        if all[j].contains(',') {
            let k = choose|k: int| 0 <= k < all[j].len() && all[j][k] == ',';
            let n = pairs[j].0.len() as int;
            if k < n {
                assert(pairs[j].0[k] == ',');
            } else if k > n {
                assert(pairs[j].1[k - n - 1] == ',');
            }
        }
    }
    law_split_reads_joined(all, ',');
    let later = all.skip(i + 1);
    assert(!has_key(later, pairs[i].0)) by {
        if has_key(later, pairs[i].0) {
            let j = choose|j: int|
                0 <= j < later.len() && (key_value(#[trigger] later[j]) matches Some((k, _)) && k
                    == pairs[i].0);
            assert(later[j] == all[i + 1 + j]);
            assert(pairs[i + 1 + j].0 != pairs[i].0);
        }
    }
    assert(key_value(all[i]) == Some((pairs[i].0, pairs[i].1)));
    law_last_pair_counts(all, i);
    assert forall|key: Seq<char>| #[trigger] settings(all).contains_key(key) <==> exists|j: int|
        0 <= j < pairs.len() && (#[trigger] pairs[j]).0 == key by {
        law_pairs_set_their_keys(all, key);
        if has_key(all, key) {
            let j = choose|j: int|
                0 <= j < all.len() && (key_value(#[trigger] all[j]) matches Some((k, _)) && k
                    == key);
            assert(pairs[j].0 == key);
        }
        if exists|j: int| 0 <= j < pairs.len() && (#[trigger] pairs[j]).0 == key {
            let j = choose|j: int| 0 <= j < pairs.len() && (#[trigger] pairs[j]).0 == key;
            assert(key_value(all[j]) == Some((key, pairs[j].1)));
        }
    }
}

/// Of the pairs with one key, the last one sets it.
pub proof fn law_last_pair_counts(pairs: Seq<Seq<char>>, i: int)
    requires
        0 <= i < pairs.len(),
        key_value(pairs[i]) is Some,
        !has_key(pairs.skip(i + 1), key_value(pairs[i]).unwrap().0),
    ensures
        settings(pairs).contains_key(key_value(pairs[i]).unwrap().0),
        settings(pairs)[key_value(pairs[i]).unwrap().0] == key_value(pairs[i]).unwrap().1,
    decreases pairs.len(),
{
    let head = pairs.drop_last();
    let key = key_value(pairs[i]).unwrap().0;
    if i < head.len() {
        let later = pairs.skip(i + 1);
        assert(later[later.len() - 1] == pairs.last());
        assert(!has_key(head.skip(i + 1), key)) by {
            if has_key(head.skip(i + 1), key) {
                let j = choose|j: int|
                    0 <= j < head.skip(i + 1).len() && (key_value(
                        #[trigger] head.skip(i + 1)[j],
                    ) matches Some((k, _)) && k == key);
                assert(later[j] == head.skip(i + 1)[j]);
            }
        }
        law_last_pair_counts(head, i);
    }
}

/// Settings as plain text.
pub open spec fn settings_view(map: Map<Seq<char>, String>) -> Map<Seq<char>, Seq<char>> {
    map.map_values(|v: String| v@)
}

fn split_pair(pair: &str) -> (r: Option<(String, String)>)
    ensures
        match r {
            Some((k, v)) => key_value(pair@) == Some((k@, v@)),
            None => key_value(pair@) is None,
        },
{
    let chars = chars_of(pair);
    let mut i: usize = 0;
    while i < chars.len()
        invariant
            chars@ == pair@,
            i <= chars@.len(),
            forall|j: int| 0 <= j < i ==> pair@[j] != '=',
        decreases chars@.len() - i,
    {
        if chars[i] == '=' {
            proof {
                pair@.index_of_first_ensures('=');
                assert(pair@.contains('='));
                assert(pair@.skip(i + 1) =~= pair@.subrange(i + 1, pair@.len() as int));
                assert(pair@.take(i as int) =~= pair@.subrange(0, i as int));
            }
            return Some(
                (
                    pair.substring_char(0, i).to_owned(),
                    pair.substring_char(i + 1, chars.len()).to_owned(),
                ),
            );
        }
        i += 1;
    }
    proof {
        pair@.index_of_first_ensures('=');
    }
    None
}

/// Reads the configuration of an AI.
///
/// Where a pair has no `=`, the first such pair is handed back as the error.
pub fn parse_ai_config(config: Option<&str>) -> (r: Result<VecMap<String, String>, String>)
    ensures
        ({
            let pairs = config_pairs(
                match config {
                    Some(text) => Some(text@),
                    None => None,
                },
            );
            match r {
                Ok(map) => well_formed_pairs(pairs) && map.wf() && settings_view(map@) == settings(
                    pairs,
                ),
                Err(bad) => is_first_malformed(pairs, bad@),
            }
        }),
{
    let pairs: Vec<String> = match config {
        Some(text) => split_text(text, ','),
        None => Vec::new(),
    };
    let ghost all = texts(pairs@);
    let mut map: VecMap<String, String> = VecMap::new();
    assert(settings_view(map@) =~= Map::empty());
    let mut i: usize = 0;
    while i < pairs.len()
        invariant
            i <= pairs@.len(),
            texts(pairs@) == all,
            map.wf(),
            well_formed_pairs(all.take(i as int)),
            settings_view(map@) == settings(all.take(i as int)),
            all == config_pairs(
                match config {
                    Some(text) => Some(text@),
                    None => None,
                },
            ),
        decreases pairs@.len() - i,
    {
        assert(all[i as int] == pairs@[i as int]@);
        match split_pair(pairs[i].as_str()) {
            Some((key, value)) => {
                let ghost before = map@;
                proof {
                    assert(all.take(i + 1).drop_last() =~= all.take(i as int));
                    assert forall|j: int| 0 <= j < i + 1 implies key_value(
                        #[trigger] all.take(i + 1)[j],
                    ) is Some by {
                        if j < i {
                            assert(all.take(i + 1)[j] == all.take(i as int)[j]);
                        }
                    }
                }
                map.insert(key, value);
                assert(settings_view(map@) =~= settings_view(before).insert(key@, value@));
            },
            None => {
                return Err(pairs[i].clone());
            },
        }
        i += 1;
    }
    assert(all.take(i as int) =~= all);
    Ok(map)
}

/// Whether a line, without the white space around it, names a solver.
pub open spec fn names_solver(line: Seq<char>) -> bool {
    line.len() > 0 && line[0] != '#'
}

/// The lines of `text` that name a solver: those that are not empty and do not begin with `#`,
/// without the white space around them.
pub open spec fn solver_lines(text: Seq<char>) -> Seq<Seq<char>> {
    split(text, '\n').map_values(|line: Seq<char>| trim(line)).filter(
        |line: Seq<char>| names_solver(line),
    )
}

/// Reads a list of solvers to compile for, the first with the highest priority.
pub fn parse_compilation_priority(s: &str) -> (r: SolverPriority)
    ensures
        r@ == Map::new(
            |p: u64| p < solver_lines(s@).len(),
            |p: u64| solver_lines(s@)[p as int],
        ),
{
    let lines = split_text(s, '\n');
    let ghost cut = split(s@, '\n').map_values(|line: Seq<char>| trim(line));
    let ghost keep = |line: Seq<char>| names_solver(line);
    let mut solvers: Vec<String> = Vec::new();
    let mut i: usize = 0;
    proof {
        reveal(Seq::filter);
    }
    assert(texts(solvers@) =~= cut.take(0).filter(keep));
    while i < lines.len()
        invariant
            i <= lines@.len(),
            texts(lines@) == split(s@, '\n'),
            cut == split(s@, '\n').map_values(|line: Seq<char>| trim(line)),
            keep == (|line: Seq<char>| names_solver(line)),
            texts(solvers@) == cut.take(i as int).filter(keep),
        decreases lines@.len() - i,
    {
        let line = trimmed(lines[i].as_str());
        proof {
            reveal(Seq::filter);
            assert(texts(lines@)[i as int] == lines@[i as int]@);
            assert(cut[i as int] == line@);
            assert(cut.take(i + 1).drop_last() =~= cut.take(i as int));
            assert(cut.take(i + 1).last() == line@);
        }
        let wanted = !line.is_empty() && line.get_char(0) != '#';
        if wanted {
            let id = line.to_owned();
            assert(texts(solvers@.push(id)) =~= texts(solvers@).push(id@));
            solvers.push(id);
        }
        i += 1;
    }
    assert(cut.take(i as int) =~= cut);
    let queue = SolverPriority::from_descending_priority(solvers);
    proof {
        assert(queue@ =~= Map::new(
            |p: u64| p < solver_lines(s@).len(),
            |p: u64| solver_lines(s@)[p as int],
        )) by {
            assert forall|p: u64| p < solvers@.len() implies #[trigger] queue@[p]
                == solver_lines(s@)[p as int] by {
                assert(texts(solvers@)[p as int] == solvers@[p as int]@);
            }
        }
    }
    queue
}

/// The list of solvers is that of the lines one by one: a line adds the solver that it names and no
/// other, and a line that is empty or begins with `#` adds none.
pub proof fn law_lines_count_one_by_one(first: Seq<char>, rest: Seq<char>)
    requires
        !first.contains('\n'),
    ensures
        solver_lines(first.push('\n') + rest) == (if trim(first).len() > 0 && trim(first)[0] != '#' {
            seq![trim(first)]
        } else {
            Seq::empty()
        }) + solver_lines(rest),
        solver_lines(first) == if trim(first).len() > 0 && trim(first)[0] != '#' {
            seq![trim(first)]
        } else {
            Seq::empty()
        },
{
    let cut = |line: Seq<char>| trim(line);
    let keep = |line: Seq<char>| names_solver(line);
    law_split_of_joined(first, rest, '\n');
    lemma_split_one(first, '\n');
    let a = split(first, '\n').map_values(cut);
    let b = split(rest, '\n').map_values(cut);
    assert((split(first, '\n') + split(rest, '\n')).map_values(cut) =~= a + b);
    Seq::filter_distributes_over_add(a, b, keep);
    assert(a =~= seq![trim(first)]);
    assert(a.filter(keep) =~= if keep(trim(first)) {
        seq![trim(first)]
    } else {
        Seq::empty()
    }) by {
        reveal(Seq::filter);
        assert(a.drop_last() =~= Seq::empty());
        assert(a.drop_last().filter(keep) =~= Seq::empty());
    }
}

/// The lines of a list that name a solver, without the white space around them.
pub open spec fn solvers_named(lines: Seq<Seq<char>>) -> Seq<Seq<char>> {
    lines.map_values(|line: Seq<char>| trim(line)).filter(|line: Seq<char>| names_solver(line))
}

/// What is kept of a list of lines is trimmed, names a solver each, and stays when it is gone
/// through again.
proof fn lemma_kept_lines(lines: Seq<Seq<char>>)
    requires
        forall|i: int| 0 <= i < lines.len() ==> !(#[trigger] lines[i]).contains('\n'),
    ensures
        solvers_named(solvers_named(lines)) == solvers_named(lines),
        forall|i: int|
            0 <= i < solvers_named(lines).len() ==> !(#[trigger] solvers_named(lines)[i]).contains(
                '\n',
            ),
    decreases lines.len(),
{
    let cut = |line: Seq<char>| trim(line);
    let keep = |line: Seq<char>| names_solver(line);
    reveal(Seq::filter);
    let kept = solvers_named(lines);
    if lines.len() == 0 {
        assert(lines.map_values(cut) =~= Seq::empty());
        assert(kept =~= Seq::empty());
        assert(kept.map_values(cut) =~= Seq::empty());
    } else {
        let head = lines.drop_last();
        let line = trim(lines.last());
        assert forall|i: int| 0 <= i < head.len() implies !(#[trigger] head[i]).contains('\n') by {
            assert(head[i] == lines[i]);
        }
        lemma_kept_lines(head);
        assert(lines.map_values(cut).drop_last() =~= head.map_values(cut));
        assert(lines.map_values(cut).last() == line);
        law_trim_once(lines.last());
        assert(!lines[lines.len() - 1].contains('\n'));
        let before = solvers_named(head);
        if keep(line) {
            assert(kept == before.push(line));
            assert(kept.map_values(cut) =~= before.map_values(cut).push(line));
            assert(kept.map_values(cut).drop_last() =~= before.map_values(cut));
            assert(solvers_named(kept) == solvers_named(before).push(line));
        }
    }
}

/// Lines that name no solver, and white space around lines, change nothing: a list says the same as
/// one that holds just its solvers, a line each.
pub proof fn law_idle_lines_change_nothing(lines: Seq<Seq<char>>)
    requires
        forall|i: int| 0 <= i < lines.len() ==> !(#[trigger] lines[i]).contains('\n'),
    ensures
        solver_lines(joined(lines, seq!['\n'])) == solvers_named(lines),
        solver_lines(joined(solvers_named(lines), seq!['\n'])) == solvers_named(lines),
{
    lemma_kept_lines(lines);
    lemma_lines_of_joined(lines);
    lemma_lines_of_joined(solvers_named(lines));
}

/// The solvers of a list are those of its lines.
proof fn lemma_lines_of_joined(lines: Seq<Seq<char>>)
    requires
        forall|i: int| 0 <= i < lines.len() ==> !(#[trigger] lines[i]).contains('\n'),
    ensures
        solver_lines(joined(lines, seq!['\n'])) == solvers_named(lines),
{
    if lines.len() > 0 {
        law_split_reads_joined(lines, '\n');
    } else {
        let cut = |line: Seq<char>| trim(line);
        let keep = |line: Seq<char>| names_solver(line);
        let none = Seq::<char>::empty();
        let nothing = Seq::<Seq<char>>::empty();
        reveal(Seq::filter);
        assert(joined(lines, seq!['\n']) =~= none);
        lemma_split_one(none, '\n');
        assert(trim(none) =~= none);
        assert(seq![none].map_values(cut) =~= seq![none]);
        assert(seq![none].last() == none);
        assert(seq![none].drop_last() =~= nothing);
        assert(nothing.filter(keep) =~= nothing);
        assert(seq![none].filter(keep) =~= nothing);
        assert(lines.map_values(cut) =~= nothing);
    }
}

/// An AI that was picked.
#[derive(Debug)]
pub enum UnpackedAi {
    Simple(SimpleAi),
    /// The program to run.
    CommandLine(String),
}

/// Why an AI cannot be picked.
#[derive(Debug)]
pub enum UnpackAiError {
    /// The configuration lacks a setting, which is named.
    CommandLineAiConfigMissing(String),
    /// The configuration holds a pair without a `=`, which is given.
    MalformedConfig(String),
}

/// Picks the AI that is asked for.
pub fn unpack_ai(ai: &AiArgs) -> (r: Result<Option<UnpackedAi>, UnpackAiError>)
    ensures
        ({
            let pairs = config_pairs(
                match ai.config {
                    Some(text) => Some(text@),
                    None => None,
                },
            );
            match ai.kind {
                Ai::Off => r == Ok::<Option<UnpackedAi>, UnpackAiError>(None),
                Ai::Simple => r == Ok::<Option<UnpackedAi>, UnpackAiError>(
                    Some(UnpackedAi::Simple(SimpleAi {  })),
                ),
                Ai::CommandLine => if !well_formed_pairs(pairs) {
                    r matches Err(UnpackAiError::MalformedConfig(bad)) && is_first_malformed(
                        pairs,
                        bad@,
                    )
                } else if settings(pairs).contains_key("command"@) {
                    r matches Ok(Some(UnpackedAi::CommandLine(command))) && command@ == settings(
                        pairs,
                    )["command"@]
                } else {
                    r matches Err(UnpackAiError::CommandLineAiConfigMissing(key)) && key@
                        == "command"@
                },
            }
        }),
{
    match ai.kind {
        Ai::Off => Ok(None),
        Ai::Simple => Ok(Some(UnpackedAi::Simple(SimpleAi {  }))),
        Ai::CommandLine => {
            let config = match &ai.config {
                Some(text) => Some(text.as_str()),
                None => None,
            };
            match parse_ai_config(config) {
                Ok(map) => match map.get(&"command".to_owned()) {
                    Some(command) => {
                        assert(settings_view(map@)["command"@] == command@);
                        Ok(Some(UnpackedAi::CommandLine(command.clone())))
                    },
                    None => Err(
                        UnpackAiError::CommandLineAiConfigMissing("command".to_owned()),
                    ),
                },
                Err(bad) => Err(UnpackAiError::MalformedConfig(bad)),
            }
        },
    }
}

/// Settings are seen whole: each key with the characters of its value.
pub proof fn law_settings_are_seen_whole(map: Map<Seq<char>, String>, key: Seq<char>)
    ensures
        settings_view(map).contains_key(key) == map.contains_key(key),
        map.contains_key(key) ==> settings_view(map)[key] == map[key]@,
{
}

} // verus!
