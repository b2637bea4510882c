//! What holds of the bounds that are put into models in the JSON form of FlatZinc.
use super::json::{
    bound_of, field_of, field_texts, file_name_for, is_field, item_texts, json_string, json_text,
    name_in, refuses, Error, Json, Tree,
};
use crate::model_parser::{ObjectiveType, ObjectiveValue};
use crate::text::{decimal_value, signed_decimal, trim};
use crate::text_laws::{law_joining_puts_separators_between, law_signed_number_reads_back};
use vstd::prelude::*;

verus! {

/// Of the fields with one name, the first counts; an object without such a field, and a value that is no
/// object, has none.
pub proof fn law_first_field_counts(fields: Seq<(Seq<char>, Tree)>, name: Seq<char>, i: int)
    requires
        0 <= i < fields.len(),
        fields[i].0 == name,
        forall|j: int| 0 <= j < i ==> (#[trigger] fields[j]).0 != name,
    ensures
        field_of(Tree::Object(fields), name) == Some(fields[i].1),
{
    assert(is_field(fields, name, i));
    let k = choose|k: int| is_field(fields, name, k);
    assert(is_field(fields, name, k));
    assert(k == i);
}

/// A value has no field of a name just if it is no object or none of its fields has the name.
pub proof fn law_missing_field(json: Tree, name: Seq<char>)
    ensures
        field_of(json, name) is None <==> (json matches Tree::Object(fields) ==> forall|i: int|
            0 <= i < fields.len() ==> (#[trigger] fields[i]).0 != name),
{
    if let Tree::Object(fields) = json {
        if exists|i: int| 0 <= i < fields.len() && (#[trigger] fields[i]).0 == name {
            let i = choose|i: int| 0 <= i < fields.len() && (#[trigger] fields[i]).0 == name;
            let first = lemma_first(fields, name, i);
            law_first_field_counts(fields, name, first);
        }
    }
}

proof fn lemma_first(fields: Seq<(Seq<char>, Tree)>, name: Seq<char>, i: int) -> (first: int)
    requires
        0 <= i < fields.len(),
        fields[i].0 == name,
    ensures
        0 <= first <= i,
        fields[first].0 == name,
        forall|j: int| 0 <= j < first ==> (#[trigger] fields[j]).0 != name,
    decreases i,
{
    if exists|j: int| 0 <= j < i && (#[trigger] fields[j]).0 == name {
        let j = choose|j: int| 0 <= j < i && (#[trigger] fields[j]).0 == name;
        lemma_first(fields, name, j)
    } else {
        i
    }
}

/// The objective's name stands under `solve`, or under `Solve` where there is no `solve`; there it stands
/// under `objective`, else under `objective_name`, else under `objectiveName`.
pub proof fn law_objective_name_is_found(json: Tree, solve: Tree, name: Seq<char>)
    requires
        field_of(json, "solve"@) == Some(solve) || field_of(json, "solve"@) is None && field_of(
            json,
            "Solve"@,
        ) == Some(solve),
    ensures
        field_of(solve, "objective"@) == Some(Tree::Text(name)) ==> name_in(json) == Ok::<
            Seq<char>,
            Seq<char>,
        >(name),
        field_of(solve, "objective"@) is None && field_of(solve, "objective_name"@) == Some(
            Tree::Text(name),
        ) ==> name_in(json) == Ok::<Seq<char>, Seq<char>>(name),
        field_of(solve, "objective"@) is None && field_of(solve, "objective_name"@) is None
            && field_of(solve, "objectiveName"@) == Some(Tree::Text(name)) ==> name_in(json) == Ok::<
            Seq<char>,
            Seq<char>,
        >(name),
        name_in(json) == Ok::<Seq<char>, Seq<char>>(name) ==> {
            ||| field_of(solve, "objective"@) == Some(Tree::Text(name))
            ||| field_of(solve, "objective_name"@) == Some(Tree::Text(name))
            ||| field_of(solve, "objectiveName"@) == Some(Tree::Text(name))
        },
{
}

/// A model that does not say how to solve it, or not what for, has no objective.
pub proof fn law_no_objective_name(json: Tree)
    ensures
        field_of(json, "solve"@) is None && field_of(json, "Solve"@) is None ==> name_in(json) is Err,
        forall|solve: Tree|
            #![trigger field_of(solve, "objective"@)]
            (field_of(json, "solve"@) == Some(solve) || field_of(json, "solve"@) is None && field_of(
                json,
                "Solve"@,
            ) == Some(solve)) && field_of(solve, "objective"@) is None && field_of(
                solve,
                "objective_name"@,
            ) is None && field_of(solve, "objectiveName"@) is None ==> name_in(json) is Err,
{
}

/// What an argument of a constraint is worth where the variable `name` has the value `v`.
pub open spec fn worth(arg: Tree, name: Seq<char>, v: int) -> Option<int> {
    match arg {
        Tree::Text(text) => if text == name {
            Some(v)
        } else {
            None
        },
        Tree::Number(text) => if text.len() > 0 && text[0] == '-' {
            match decimal_value(text.skip(1)) {
                Some(n) => Some(-(n as int)),
                None => None,
            }
        } else {
            match decimal_value(text) {
                Some(n) => Some(n as int),
                None => None,
            }
        },
        _ => None,
    }
}

/// Whether a constraint says that one number is at most another, and this holds where the variable
/// `name` has the value `v`.
pub open spec fn allows(constraint: Tree, name: Seq<char>, v: int) -> bool {
    &&& field_of(constraint, "id"@) == Some(Tree::Text("int_le"@))
    &&& field_of(constraint, "args"@) matches Some(Tree::Array(args))
    &&& args.len() == 2
    &&& worth(args[0], name, v) matches Some(a)
    &&& worth(args[1], name, v) matches Some(b)
    &&& a <= b
}

/// A bound on the objective allows just the values that are no worse than it: none above it where the
/// objective is minimised, and none below it where it is maximised.
pub proof fn law_bound_allows_nothing_worse(
    objective_type: ObjectiveType,
    name: Seq<char>,
    bound: ObjectiveValue,
    v: int,
)
    requires
        objective_type != ObjectiveType::Satisfy,
    ensures
        objective_type == ObjectiveType::Minimize ==> (allows(
            bound_of(objective_type, name, bound),
            name,
            v,
        ) <==> v <= bound),
        objective_type == ObjectiveType::Maximize ==> (allows(
            bound_of(objective_type, name, bound),
            name,
            v,
        ) <==> v >= bound),
{
    reveal_strlit("id");
    reveal_strlit("args");
    assert("id"@.len() == 2 && "args"@.len() == 4);
    let constraint = bound_of(objective_type, name, bound);
    let fields = constraint->Object_0;
    law_first_field_counts(fields, "id"@, 0);
    law_first_field_counts(fields, "args"@, 1);
    law_signed_number_reads_back(bound as int);
    assert(worth(Tree::Number(signed_decimal(bound as int)), name, v) == Some(bound as int));
    assert(worth(Tree::Text(name), name, v) == Some(v));
}

/// A list of values is written in brackets with commas between, each as it is written alone; a number is
/// written as it is, and a text as `serde_json` writes it.
pub proof fn law_values_are_written_one_by_one(a: Seq<Tree>, b: Seq<Tree>, item: Tree)
    requires
        a.len() > 0,
        b.len() > 0,
    ensures
        json_text(Tree::Array(Seq::empty())) == seq!['[', ']'],
        json_text(Tree::Array(seq![item])) == seq!['['] + json_text(item) + seq![']'],
        json_text(Tree::Array(a + b)) == json_text(Tree::Array(a)).drop_last() + seq![',']
            + json_text(Tree::Array(b)).drop_first(),
        forall|n: Seq<char>| #[trigger] json_text(Tree::Number(n)) == n,
        forall|s: Seq<char>| #[trigger] json_text(Tree::Text(s)) == json_string(s),
        json_text(Tree::Null) == seq!['n', 'u', 'l', 'l'],
        json_text(Tree::Bool(true)) == seq!['t', 'r', 'u', 'e'],
        json_text(Tree::Bool(false)) == seq!['f', 'a', 'l', 's', 'e'],
{
    reveal_strlit("[");
    reveal_strlit("]");
    reveal_strlit(",");
    reveal_strlit("null");
    reveal_strlit("true");
    reveal_strlit("false");
    assert(","@ =~= seq![',']);
    let none = Seq::<Tree>::empty();
    assert(item_texts(none) =~= Seq::empty());
    assert(json_text(Tree::Array(none)) =~= seq!['[', ']']);
    assert(item_texts(seq![item]) =~= seq![json_text(item)]);
    assert(json_text(Tree::Array(seq![item])) =~= seq!['['] + json_text(item) + seq![']']);
    assert(item_texts(a + b) =~= item_texts(a) + item_texts(b));
    law_joining_puts_separators_between(item_texts(a), item_texts(b), ","@, Seq::empty());
    assert(json_text(Tree::Array(a + b)) =~= json_text(Tree::Array(a)).drop_last() + seq![',']
        + json_text(Tree::Array(b)).drop_first());
    assert(json_text(Tree::Null) =~= seq!['n', 'u', 'l', 'l']);
    assert(json_text(Tree::Bool(true)) =~= seq!['t', 'r', 'u', 'e']);
    assert(json_text(Tree::Bool(false)) =~= seq!['f', 'a', 'l', 's', 'e']);
}

/// An object is written in braces with commas between its fields, of each the name, a colon and the
/// value.
pub proof fn law_fields_are_written_one_by_one(
    a: Seq<(Seq<char>, Tree)>,
    b: Seq<(Seq<char>, Tree)>,
    name: Seq<char>,
    value: Tree,
)
    requires
        a.len() > 0,
        b.len() > 0,
    ensures
        json_text(Tree::Object(Seq::empty())) == seq!['{', '}'],
        json_text(Tree::Object(seq![(name, value)])) == seq!['{'] + json_string(name) + seq![':']
            + json_text(value) + seq!['}'],
        json_text(Tree::Object(a + b)) == json_text(Tree::Object(a)).drop_last() + seq![',']
            + json_text(Tree::Object(b)).drop_first(),
{
    reveal_strlit("{");
    reveal_strlit("}");
    reveal_strlit(",");
    reveal_strlit(":");
    assert(","@ =~= seq![',']);
    let none = Seq::<(Seq<char>, Tree)>::empty();
    assert(field_texts(none) =~= Seq::empty());
    assert(json_text(Tree::Object(none)) =~= seq!['{', '}']);
    assert(field_texts(seq![(name, value)]) =~= seq![json_string(name) + ":"@ + json_text(value)]);
    assert(json_text(Tree::Object(seq![(name, value)])) =~= seq!['{'] + json_string(name) + seq![
        ':',
    ] + json_text(value) + seq!['}']);
    assert(field_texts(a + b) =~= field_texts(a) + field_texts(b));
    law_joining_puts_separators_between(field_texts(a), field_texts(b), ","@, Seq::empty());
    assert(json_text(Tree::Object(a + b)) =~= json_text(Tree::Object(a)).drop_last() + seq![',']
        + json_text(Tree::Object(b)).drop_first());
}

/// Whether a bound can be put into a model: the text is not blank and says something, the problem has an
/// objective, which has a name, and there is a list of constraints to add to.
pub open spec fn can_be_bounded<E>(
    content: Seq<char>,
    parsed: Result<Tree, E>,
    objective_type: ObjectiveType,
) -> bool {
    &&& trim(content).len() > 0
    &&& objective_type != ObjectiveType::Satisfy
    &&& parsed matches Ok(json)
    &&& name_in(json) is Ok
    &&& field_of(json, "constraints"@) matches Some(Tree::Array(_))
}

/// Nothing stands against a bound that can be put into the model; and what stands against any other is
/// told in this order: that the text is blank, that it is no JSON, that there is no objective, that the
/// objective has no name, that there are no constraints, that they are no list.
pub proof fn law_refused_for_a_cause<E>(
    content: Seq<char>,
    parsed: Result<Tree, E>,
    objective_type: ObjectiveType,
    e: Error<E>,
)
    ensures
        can_be_bounded(content, parsed, objective_type) ==> !refuses(
            content,
            parsed,
            objective_type,
            e,
        ),
        refuses(content, parsed, objective_type, e) ==> {
            let blank = trim(content).len() == 0;
            let readable = !blank && parsed is Ok;
            let aimed = readable && objective_type != ObjectiveType::Satisfy;
            let named = aimed && name_in(parsed->Ok_0) is Ok;
            let constraints = field_of(parsed->Ok_0, "constraints"@);
            &&& e is NoStatements <==> blank
            &&& e is JsonParse <==> !blank && parsed is Err
            &&& e is GetObjectiveOnSatisfyType <==> readable && !aimed
            &&& e is ObjectiveNotFound <==> aimed && !named
            &&& e is ConstraintsNotFound <==> named && constraints is None
            &&& e is InvalidConstraintsType <==> named && constraints is Some
        },
{
}

/// Marks that differ make names that differ, and the mark can be read back from the name.
pub proof fn law_file_names_tell_marks_apart(a: Seq<char>, b: Seq<char>)
    ensures
        file_name_for(a) == file_name_for(b) ==> a == b,
        file_name_for(a).len() == a.len() + 14,
        file_name_for(a).subrange(5, 5 + a.len() as int) == a,
        file_name_for(a).skip(5 + a.len() as int) == ".fzn.json"@,
{
    reveal_strlit("temp-");
    reveal_strlit(".fzn.json");
    assert(file_name_for(a).subrange(5, 5 + a.len() as int) =~= a);
    assert(file_name_for(b).subrange(5, 5 + b.len() as int) =~= b);
    assert(file_name_for(a).skip(5 + a.len() as int) =~= ".fzn.json"@);
}

/// A value is seen whole: what each of its parts says, in order.
pub proof fn law_values_are_seen_whole(json: Json)
    ensures
        match json {
            Json::Null => json@ == Tree::Null,
            Json::Bool(b) => json@ == Tree::Bool(b),
            Json::Number(n) => json@ == Tree::Number(n@),
            Json::Text(s) => json@ == Tree::Text(s@),
            Json::Array(items) => json@ is Array && json@->Array_0.len() == items@.len() && forall|
                i: int,
            | 0 <= i < items@.len() ==> #[trigger] json@->Array_0[i] == items@[i]@,
            Json::Object(fields) => json@ is Object && json@->Object_0.len() == fields@.len()
                && forall|i: int|
                0 <= i < fields@.len() ==> (#[trigger] json@->Object_0[i]).0 == fields@[i].0@
                    && json@->Object_0[i].1 == fields@[i].1@,
        },
{
}

} // verus!
