//! The solvers that are installed.
use crate::path::PathBuf;
use vstd::prelude::*;

verus! {

/// The standard flags of MiniZinc that a solver understands.
#[derive(Debug, Clone, Copy)]
pub struct SupportedStdFlags {
    pub a: bool,
    pub i: bool,
    pub f: bool,
    pub p: bool,
}

impl Default for SupportedStdFlags {
    fn default() -> (r: Self)
        ensures
            r == (SupportedStdFlags { a: false, i: false, f: false, p: false }),
    {
        SupportedStdFlags { a: false, i: false, f: false, p: false }
    }
}

/// The form in which a solver wants a compiled model.
#[derive(Debug, Clone, Copy, PartialEq, Eq, Structural)]
pub enum SolverInputType {
    Fzn,
    Json,
}

/// A program to run, and the arguments that it is always given.
#[derive(Debug)]
pub struct Executable(PathBuf, Vec<String>);

impl Executable {
    /// The program.
    pub closed spec fn spec_program(&self) -> PathBuf {
        self.0
    }

    /// The arguments.
    pub closed spec fn spec_arguments(&self) -> Seq<String> {
        self.1@
    }

    /// A program with the arguments that it is always given.
    pub fn new(program: PathBuf, arguments: Vec<String>) -> (r: Self)
        ensures
            r.spec_program() == program,
            r.spec_arguments() == arguments@,
    {
        Executable(program, arguments)
    }

    /// The program and its arguments.
    pub fn into_parts(self) -> (r: (PathBuf, Vec<String>))
        ensures
            r.0 == self.spec_program(),
            r.1@ == self.spec_arguments(),
    {
        (self.0, self.1)
    }
}

/// An installed solver.
#[derive(Debug)]
pub struct Solver {
    id: String,
    executable: Option<Executable>,
    supported_std_flags: SupportedStdFlags,
    input_type: SolverInputType,
}

/// A solver as a mathematical value.
pub struct SolverView {
    pub id: Seq<char>,
    pub executable: Option<Executable>,
    pub supported_std_flags: SupportedStdFlags,
    pub input_type: SolverInputType,
}

impl View for Solver {
    type V = SolverView;

    closed spec fn view(&self) -> SolverView {
        SolverView {
            id: self.id@,
            executable: self.executable,
            supported_std_flags: self.supported_std_flags,
            input_type: self.input_type,
        }
    }
}

impl Solver {
    /// A solver with the given properties.
    pub fn new(
        id: String,
        executable: Option<Executable>,
        supported_std_flags: SupportedStdFlags,
        input_type: SolverInputType,
    ) -> (r: Self)
        ensures
            r@ == (SolverView { id: id@, executable, supported_std_flags, input_type }),
    {
        Solver { id, executable, supported_std_flags, input_type }
    }

    /// The name by which the solver is known.
    pub fn id(&self) -> (r: &str)
        ensures
            r@ == self@.id,
    {
        self.id.as_str()
    }

    /// The program that runs the solver, if it has one of its own.
    pub fn executable(&self) -> (r: Option<&Executable>)
        ensures
            match r {
                Some(e) => self@.executable == Some(*e),
                None => self@.executable is None,
            },
    {
        self.executable.as_ref()
    }

    /// The standard flags that the solver understands.
    pub fn supported_std_flags(&self) -> (r: &SupportedStdFlags)
        ensures
            *r == self@.supported_std_flags,
    {
        &self.supported_std_flags
    }

    /// The form in which the solver wants a compiled model.
    pub fn input_type(&self) -> (r: &SolverInputType)
        ensures
            *r == self@.input_type,
    {
        &self.input_type
    }
}

/// The installed solvers, in the order in which they were found.
#[derive(Debug)]
pub struct Solvers(Vec<Solver>);

impl View for Solvers {
    type V = Seq<Solver>;

    closed spec fn view(&self) -> Seq<Solver> {
        self.0@
    }
}

/// `text` with every upper-case letter of ASCII replaced by its lower-case letter.
pub open spec fn ascii_lowercase(text: Seq<char>) -> Seq<char> {
    text.map_values(
        |c: char|
            if 'A' <= c && c <= 'Z' {
                ((c as u32) + 32) as char
            } else {
                c
            },
    )
}

/// `text` in lower case, as `str::to_lowercase` has it.
pub uninterp spec fn lowercase(text: Seq<char>) -> Seq<char>;

/// Calls `str::to_lowercase`. It is claimed that the result depends on the text alone, and that in
/// a text of ASCII characters just the letters `A` to `Z` become the letters `a` to `z`. What other
/// characters become is left open.
#[verifier::external_body]
fn to_lowercase(text: &str) -> (r: String)
    ensures
        r@ == lowercase(text@),
        text.is_ascii() ==> r@ == ascii_lowercase(text@),
{
    text.to_lowercase()
}

impl Solvers {
    /// No solvers.
    pub fn empty() -> (r: Self)
        ensures
            r@ == Seq::<Solver>::empty(),
    {
        Solvers(Vec::new())
    }

    /// The given solvers.
    pub fn from_vec(solvers: Vec<Solver>) -> (r: Self)
        ensures
            r@ == solvers@,
    {
        Solvers(solvers)
    }

    /// The solvers in order.
    pub fn iter(&self) -> (r: core::slice::Iter<'_, Solver>)
        ensures
            vstd::std_specs::iter::IteratorSpec::remaining(&r).unref() == self@,
    {
        self.0.iter()
    }

    /// How many solvers there are.
    pub fn len(&self) -> (r: usize)
        ensures
            r == self@.len(),
    {
        self.0.len()
    }

    /// The solver at position `i`.
    pub fn solver(&self, i: usize) -> (r: &Solver)
        requires
            i < self@.len(),
        ensures
            *r == self@[i as int],
    {
        &self.0[i]
    }

    /// The first solver whose name is `name` in lower case.
    pub fn get_by_id(&self, name: &str) -> (r: Option<&Solver>)
        ensures
            is_first_with_id(self@, lowercase(name@), r),
            name.is_ascii() ==> is_first_with_id(self@, ascii_lowercase(name@), r),
    {
        let lowered = to_lowercase(name);
        self.find_by_lowered_id(&lowered)
    }

    /// The first solver whose name is `lowered`.
    pub fn find_by_lowered_id(&self, lowered: &String) -> (r: Option<&Solver>)
        ensures
            is_first_with_id(self@, lowered@, r),
    {
        let mut i: usize = 0;
        while i < self.0.len()
            invariant
                i <= self.0@.len(),
                forall|j: int| 0 <= j < i ==> (#[trigger] self.0@[j])@.id != lowered@,
            decreases self.0@.len() - i,
        {
            if self.0[i].id == *lowered {
                return Some(&self.0[i]);
            }
            i += 1;
        }
        None
    }
}

/// Whether `found` is the first of `solvers` with the name `id`, if there is one.
pub open spec fn is_first_with_id(
    solvers: Seq<Solver>,
    id: Seq<char>,
    found: Option<&Solver>,
) -> bool {
    match found {
        Some(s) => exists|i: int|
            {
                &&& 0 <= i < solvers.len()
                &&& *s == #[trigger] solvers[i]
                &&& solvers[i]@.id == id
                &&& forall|j: int| 0 <= j < i ==> (#[trigger] solvers[j])@.id != id
            },
        None => forall|j: int| 0 <= j < solvers.len() ==> (#[trigger] solvers[j])@.id != id,
    }
}

/// Whether `lower` is the lower-case letter of ASCII for the upper-case letter `upper`.
pub open spec fn is_lowered(upper: char, lower: char) -> bool {
    'A' <= upper && upper <= 'Z' && lower == ((upper as u32) + 32) as char
}

/// Lower case changes the upper-case letters of ASCII and no other character.
pub proof fn law_lower_case_changes_letters_only(text: Seq<char>, i: int)
    requires
        0 <= i < text.len(),
    ensures
        ascii_lowercase(text).len() == text.len(),
        'A' <= text[i] && text[i] <= 'Z' ==> ascii_lowercase(text)[i] as u32 == text[i] as u32 + (
        'a' as u32 - 'A' as u32),
        !('A' <= text[i] && text[i] <= 'Z') ==> ascii_lowercase(text)[i] == text[i],
        ascii_lowercase(ascii_lowercase(text)) == ascii_lowercase(text),
{
    let lower = ascii_lowercase(text);
    assert forall|k: int| 0 <= k < text.len() implies #[trigger] ascii_lowercase(lower)[k]
        == lower[k] by {
        if 'A' <= text[k] && text[k] <= 'Z' {
            assert(lower[k] as u32 == text[k] as u32 + 32);
            assert(lower[k] > 'Z');
        }
    }
    assert(ascii_lowercase(lower) =~= lower);
}

/// Of two answers to one search, both are the same solver, or there is none in both.
pub proof fn law_search_has_one_answer(
    solvers: Seq<Solver>,
    id: Seq<char>,
    a: Option<&Solver>,
    b: Option<&Solver>,
)
    requires
        is_first_with_id(solvers, id, a),
        is_first_with_id(solvers, id, b),
    ensures
        a == b,
        a is Some <==> exists|i: int| 0 <= i < solvers.len() && (#[trigger] solvers[i])@.id == id,
        a matches Some(s) ==> s@.id == id,
{
    if let (Some(s), Some(t)) = (a, b) {
        let i = choose|i: int|
            {
                &&& 0 <= i < solvers.len()
                &&& *s == #[trigger] solvers[i]
                &&& solvers[i]@.id == id
                &&& forall|j: int| 0 <= j < i ==> (#[trigger] solvers[j])@.id != id
            };
        let k = choose|k: int|
            {
                &&& 0 <= k < solvers.len()
                &&& *t == #[trigger] solvers[k]
                &&& solvers[k]@.id == id
                &&& forall|j: int| 0 <= j < k ==> (#[trigger] solvers[j])@.id != id
            };
        assert(i == k);
    }
}

/// A name of ASCII characters finds the same solver however its letters are written: names that
/// differ in the case of letters only are one name in lower case.
pub proof fn law_case_does_not_matter(a: Seq<char>, b: Seq<char>)
    requires
        a.len() == b.len(),
        forall|i: int|
            0 <= i < a.len() ==> #[trigger] a[i] == b[i] || is_lowered(a[i], b[i]) || is_lowered(
                b[i],
                a[i],
            ),
    ensures
        ascii_lowercase(a) == ascii_lowercase(b),
{
    assert forall|i: int| 0 <= i < a.len() implies #[trigger] ascii_lowercase(a)[i]
        == ascii_lowercase(b)[i] by {
        assert(a[i] == b[i] || a[i] > 'Z' || b[i] > 'Z');
    }
    assert(ascii_lowercase(a) =~= ascii_lowercase(b));
}

} // verus!
