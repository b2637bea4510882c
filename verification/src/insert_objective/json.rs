//! Bounds on the objective, put into models in the JSON form of FlatZinc.
use crate::model_parser::{ObjectiveType, ObjectiveValue};
use crate::text::{joined, signed_decimal, signed_decimal_text, trim, trimmed};
use serde_json::Error as JsonError;
use serde_json::Value as JsonValue;
use vstd::prelude::*;

verus! {

/// `serde_json::Error`: nothing is claimed of an error but that it stays what it is.
#[verifier::external_type_specification]
#[verifier::external_body]
pub struct ExJsonError(JsonError);

/// `serde_json::Value`: nothing is claimed of a value beyond what `tree_in` names.
#[verifier::external_type_specification]
#[verifier::external_body]
pub struct ExJsonValue(JsonValue);

/// A JSON value.
#[derive(Debug)]
pub enum Json {
    Null,
    Bool(bool),
    /// A number, as it is written.
    Number(String),
    Text(String),
    Array(Vec<Json>),
    Object(Vec<(String, Json)>),
}

/// A JSON value as a mathematical value.
pub enum Tree {
    Null,
    Bool(bool),
    Number(Seq<char>),
    Text(Seq<char>),
    Array(Seq<Tree>),
    Object(Seq<(Seq<char>, Tree)>),
}

/// What a JSON value says.
pub open spec fn tree(json: Json) -> Tree
    decreases json,
{
    match json {
        Json::Null => Tree::Null,
        Json::Bool(b) => Tree::Bool(b),
        Json::Number(n) => Tree::Number(n@),
        Json::Text(s) => Tree::Text(s@),
        Json::Array(items) => Tree::Array(
            Seq::new(
                items@.len(),
                |i: int|
                    if 0 <= i < items@.len() {
                        tree(items@[i])
                    } else {
                        Tree::Null
                    },
            ),
        ),
        Json::Object(fields) => Tree::Object(
            Seq::new(
                fields@.len(),
                |i: int|
                    if 0 <= i < fields@.len() {
                        (fields@[i].0@, tree(fields@[i].1))
                    } else {
                        (Seq::empty(), Tree::Null)
                    },
            ),
        ),
    }
}

impl View for Json {
    type V = Tree;

    open spec fn view(&self) -> Tree {
        tree(*self)
    }
}

/// What a `serde_json::Value` holds, with numbers as `serde_json` writes them.
pub uninterp spec fn tree_in(value: JsonValue) -> Tree;

/// What the text of a JSON value says, as `serde_json` reads it; nothing where it reads no value.
pub uninterp spec fn json_of(text: Seq<char>) -> Option<Tree>;

/// `serde_json::from_str`, into `serde_json::Value`.
///
/// What is claimed: the text alone decides whether there is a value and what it holds.
#[verifier::external_body]
fn read_value(text: &str) -> (r: Result<JsonValue, JsonError>)
    ensures
        match r {
            Ok(value) => json_of(text@) == Some(tree_in(value)),
            Err(_) => json_of(text@) is None,
        },
{
    serde_json::from_str(text)
}

/// A `serde_json::Value` as a value of this crate, part by part.
///
/// What is claimed: it is what the value holds. A number becomes the text that `serde_json` writes
/// for it; fields keep the order in which `serde_json` walks them.
#[verifier::external_body]
fn json_from(value: JsonValue) -> (r: Json)
    ensures
        r@ == tree_in(value),
{
    match value {
        JsonValue::Null => Json::Null,
        JsonValue::Bool(b) => Json::Bool(b),
        JsonValue::Number(n) => Json::Number(n.to_string()),
        JsonValue::String(s) => Json::Text(s),
        JsonValue::Array(a) => Json::Array(a.into_iter().map(json_from).collect()),
        JsonValue::Object(o) => {
            Json::Object(o.into_iter().map(|(k, v)| (k, json_from(v))).collect())
        },
    }
}

/// Reads the text of a JSON value.
pub fn parse_json(text: &str) -> (r: Result<Json, JsonError>)
    ensures
        match r {
            Ok(json) => json_of(text@) == Some(json@),
            Err(_) => json_of(text@) is None,
        },
{
    match read_value(text) {
        Ok(value) => Ok(json_from(value)),
        Err(e) => Err(e),
    }
}

/// How `serde_json` writes a text: in quotation marks, with what cannot stand between them escaped.
pub uninterp spec fn json_string(text: Seq<char>) -> Seq<char>;

/// Whether a character stands for itself in the text of a JSON value.
pub open spec fn is_plain(c: char) -> bool {
    c != '"' && c != '\\' && c >= ' '
}

/// `serde_json::Value`'s `to_string`, on a text.
///
/// What is claimed: the text alone decides what is written, and a text without quotation marks,
/// backslashes and control characters is written as it is between quotation marks. How the others
/// are escaped is left open.
#[verifier::external_body]
fn quoted(text: &str) -> (r: String)
    ensures
        r@ == json_string(text@),
        (forall|i: int| 0 <= i < text@.len() ==> is_plain(#[trigger] text@[i])) ==> r@ == seq!['"']
            + text@ + seq!['"'],
{
    JsonValue::String(text.to_owned()).to_string()
}

/// A JSON value, written without white space.
pub open spec fn json_text(json: Tree) -> Seq<char>
    decreases json,
{
    match json {
        Tree::Null => "null"@,
        Tree::Bool(b) => if b {
            "true"@
        } else {
            "false"@
        },
        Tree::Number(n) => n,
        Tree::Text(s) => json_string(s),
        Tree::Array(items) => "["@ + joined(item_texts(items), ","@) + "]"@,
        Tree::Object(fields) => "{"@ + joined(field_texts(fields), ","@) + "}"@,
    }
}

/// The items of an array, each written without white space.
pub open spec fn item_texts(items: Seq<Tree>) -> Seq<Seq<char>>
    decreases items,
{
    Seq::new(
        items.len(),
        |i: int|
            if 0 <= i < items.len() {
                json_text(items[i])
            } else {
                Seq::empty()
            },
    )
}

/// The fields of an object, each written without white space.
pub open spec fn field_texts(fields: Seq<(Seq<char>, Tree)>) -> Seq<Seq<char>>
    decreases fields,
{
    Seq::new(
        fields.len(),
        |i: int|
            if 0 <= i < fields.len() {
                json_string(fields[i].0) + ":"@ + json_text(fields[i].1)
            } else {
                Seq::empty()
            },
    )
}

/// Whether the field at `i` is the first with the given name.
pub open spec fn is_field(fields: Seq<(Seq<char>, Tree)>, name: Seq<char>, i: int) -> bool {
    &&& 0 <= i < fields.len() && fields[i].0 == name
    &&& forall|j: int| 0 <= j < i ==> #[trigger] fields[j].0 != name
}

/// The value of the field with the given name, if the value is an object and has it.
pub open spec fn field_of(json: Tree, name: Seq<char>) -> Option<Tree> {
    match json {
        Tree::Object(fields) => if exists|i: int| is_field(fields, name, i) {
            Some(fields[choose|i: int| is_field(fields, name, i)].1)
        } else {
            None
        },
        _ => None,
    }
}

/// The fields of an object as mathematical values.
pub open spec fn fields_view(fields: Seq<(String, Json)>) -> Seq<(Seq<char>, Tree)> {
    Seq::new(fields.len(), |i: int| (fields[i].0@, fields[i].1@))
}

/// The items of an array as mathematical values.
pub open spec fn items_view(items: Seq<Json>) -> Seq<Tree> {
    Seq::new(items.len(), |i: int| items[i]@)
}

/// What arrays and objects say.
proof fn lemma_parts(json: Json)
    ensures
        match json {
            Json::Array(items) => json@ == Tree::Array(items_view(items@)),
            Json::Object(fields) => json@ == Tree::Object(fields_view(fields@)),
            _ => true,
        },
{
    match json {
        Json::Array(items) => {
            assert(json@->Array_0 =~= items_view(items@));
        },
        Json::Object(fields) => {
            assert(json@->Object_0 =~= fields_view(fields@));
        },
        _ => {},
    }
}

/// Two first fields with one name are the same one.
proof fn lemma_one_field(fields: Seq<(Seq<char>, Tree)>, name: Seq<char>, i: int)
    requires
        is_field(fields, name, i),
    ensures
        field_of(Tree::Object(fields), name) == Some(fields[i].1),
{
    let k = choose|k: int| is_field(fields, name, k);
    assert(is_field(fields, name, k));
    assert(k == i);
}

fn find(fields: &Vec<(String, Json)>, name: &str) -> (r: Option<usize>)
    ensures
        match r {
            Some(i) => is_field(fields_view(fields@), name@, i as int),
            None => forall|i: int| !is_field(fields_view(fields@), name@, i),
        },
{
    let wanted = name.to_owned();
    let ghost view = fields_view(fields@);
    let mut i: usize = 0;
    while i < fields.len()
        invariant
            i <= fields@.len(),
            wanted@ == name@,
            view == fields_view(fields@),
            forall|j: int| 0 <= j < i ==> #[trigger] view[j].0 != name@,
        decreases fields@.len() - i,
    {
        assert(view[i as int].0 == fields@[i as int].0@);
        if fields[i].0 == wanted {
            return Some(i);
        }
        i += 1;
    }
    None
}

impl Json {
    /// The value of the field with the given name, if the value is an object and has it.
    pub fn get(&self, name: &str) -> (r: Option<&Json>)
        ensures
            match r {
                Some(json) => field_of(self@, name@) == Some(json@),
                None => field_of(self@, name@) is None,
            },
    {
        proof {
            lemma_parts(*self);
        }
        match self {
            Json::Object(fields) => match find(fields, name) {
                Some(i) => {
                    proof {
                        lemma_one_field(fields_view(fields@), name@, i as int);
                    }
                    Some(&fields[i].1)
                },
                None => None,
            },
            _ => None,
        }
    }

    /// The value, written without white space.
    pub fn to_text(&self) -> (r: String)
        ensures
            r@ == json_text(self@),
        decreases *self,
    {
        proof {
            lemma_parts(*self);
        }
        match self {
            Json::Null => "null".to_owned(),
            Json::Bool(b) => if *b {
                "true".to_owned()
            } else {
                "false".to_owned()
            },
            Json::Number(n) => n.clone(),
            Json::Text(s) => quoted(s.as_str()),
            Json::Array(items) => {
                let ghost parts = item_texts(items_view(items@));
                let mut out = "[".to_owned();
                let mut i: usize = 0;
                assert(out@ + joined(parts.take(0), ","@) =~= out@);
                while i < items.len()
                    invariant
                        i <= items@.len(),
                        *self == Json::Array(*items),
                        parts == item_texts(items_view(items@)),
                        out@ == "["@ + joined(parts.take(i as int), ","@),
                    decreases items@.len() - i,
                {
                    if i > 0 {
                        out.append(",");
                    }
                    let item = &items[i];
                    proof {
                        let whole = self->Array_0;
                        assert(decreases_to!(*self => whole));
                        assert(decreases_to!(whole => whole@));
                        assert(decreases_to!(whole@ => whole@[i as int]));
                    }
                    out.append(item.to_text().as_str());
                    proof {
                        assert(parts.take(i + 1).drop_last() =~= parts.take(i as int));
                        assert(parts.take(i + 1).last() == parts[i as int]);
                        assert(out@ =~= "["@ + joined(parts.take(i + 1), ","@));
                    }
                    i += 1;
                }
                assert(parts.take(i as int) =~= parts);
                out.append("]");
                out
            },
            Json::Object(fields) => {
                let ghost parts = field_texts(fields_view(fields@));
                let mut out = "{".to_owned();
                let mut i: usize = 0;
                assert(out@ + joined(parts.take(0), ","@) =~= out@);
                while i < fields.len()
                    invariant
                        i <= fields@.len(),
                        *self == Json::Object(*fields),
                        parts == field_texts(fields_view(fields@)),
                        out@ == "{"@ + joined(parts.take(i as int), ","@),
                    decreases fields@.len() - i,
                {
                    if i > 0 {
                        out.append(",");
                    }
                    let field = &fields[i];
                    proof {
                        let whole = self->Object_0;
                        assert(decreases_to!(*self => whole));
                        assert(decreases_to!(whole => whole@));
                        assert(decreases_to!(whole@ => whole@[i as int]));
                        assert(decreases_to!(whole@[i as int] => whole@[i as int].1));
                    }
                    out.append(quoted(field.0.as_str()).as_str());
                    out.append(":");
                    out.append(field.1.to_text().as_str());
                    proof {
                        assert(parts.take(i + 1).drop_last() =~= parts.take(i as int));
                        assert(parts.take(i + 1).last() == parts[i as int]);
                        assert(out@ =~= "{"@ + joined(parts.take(i + 1), ","@));
                    }
                    i += 1;
                }
                assert(parts.take(i as int) =~= parts);
                out.append("}");
                out
            },
        }
    }
}

/// Why a bound cannot be put in; `E` is what goes wrong in reading JSON.
#[derive(Debug)]
pub enum Error<E> {
    /// The problem has no objective.
    GetObjectiveOnSatisfyType,
    ConstraintsNotFound,
    InvalidConstraintsType,
    JsonParse(E),
    /// The objective has no name, and why.
    ObjectiveNotFound(String),
    /// There is nothing but white space.
    NoStatements(String),
}

/// The first of two values that there is.
pub open spec fn either(first: Option<Tree>, second: Option<Tree>) -> Option<Tree> {
    match first {
        Some(json) => Some(json),
        None => second,
    }
}

/// The part of a model that says how to solve it.
pub open spec fn solve_of(json: Tree) -> Option<Tree> {
    either(field_of(json, "solve"@), field_of(json, "Solve"@))
}

/// What stands for the name of the objective.
pub open spec fn objective_of(solve: Tree) -> Option<Tree> {
    either(
        field_of(solve, "objective"@),
        either(field_of(solve, "objective_name"@), field_of(solve, "objectiveName"@)),
    )
}

/// The name of the objective of a model, or what is said where it has none.
pub open spec fn name_in(json: Tree) -> Result<Seq<char>, Seq<char>> {
    match solve_of(json) {
        None => Err("'solve' field was not found"@),
        Some(solve) => match objective_of(solve) {
            None => Err("'objective' field was not found inside the solve field"@),
            Some(Tree::Text(name)) => Ok(name),
            Some(other) => Err("objective is not a string: "@ + json_text(other)),
        },
    }
}

/// The name of the objective of a model.
pub fn get_objective_name_from_json<E>(objective_type: &ObjectiveType, json: &Json) -> (r: Result<
    String,
    Error<E>,
>)
    ensures
        if *objective_type == ObjectiveType::Satisfy {
            r matches Err(Error::GetObjectiveOnSatisfyType)
        } else {
            match name_in(json@) {
                Ok(name) => r matches Ok(n) && n@ == name,
                Err(why) => r matches Err(Error::ObjectiveNotFound(m)) && m@ == why,
            }
        },
{
    if matches!(objective_type, ObjectiveType::Satisfy) {
        return Err(Error::GetObjectiveOnSatisfyType);
    }
    let solve = match json.get("solve") {
        Some(solve) => solve,
        None => match json.get("Solve") {
            Some(solve) => solve,
            None => {
                return Err(Error::ObjectiveNotFound("'solve' field was not found".to_owned()));
            },
        },
    };
    let objective = match solve.get("objective") {
        Some(objective) => objective,
        None => match solve.get("objective_name") {
            Some(objective) => objective,
            None => match solve.get("objectiveName") {
                Some(objective) => objective,
                None => {
                    return Err(
                        Error::ObjectiveNotFound(
                            "'objective' field was not found inside the solve field".to_owned(),
                        ),
                    );
                },
            },
        },
    };
    match objective {
        Json::Text(name) => Ok(name.clone()),
        _ => {
            let mut why = "objective is not a string: ".to_owned();
            why.append(objective.to_text().as_str());
            Err(Error::ObjectiveNotFound(why))
        },
    }
}

/// The constraint that the first of its arguments is at most the second, where they are the
/// objective and `bound` when the objective is minimised, and the other way round when it is
/// maximised.
pub open spec fn bound_of(
    objective_type: ObjectiveType,
    name: Seq<char>,
    bound: ObjectiveValue,
) -> Tree {
    let objective = Tree::Text(name);
    let value = Tree::Number(signed_decimal(bound as int));
    Tree::Object(
        seq![
            ("id"@, Tree::Text("int_le"@)),
            (
                "args"@,
                Tree::Array(
                    if objective_type == ObjectiveType::Minimize {
                        seq![objective, value]
                    } else {
                        seq![value, objective]
                    },
                ),
            ),
        ],
    )
}

/// The constraint that bounds the objective.
pub fn get_objective_constraint_json_value<E>(
    objective_type: &ObjectiveType,
    objective_name: &str,
    objective: ObjectiveValue,
) -> (r: Result<Json, Error<E>>)
    ensures
        if *objective_type == ObjectiveType::Satisfy {
            r matches Err(Error::GetObjectiveOnSatisfyType)
        } else {
            r matches Ok(json) && json@ == bound_of(*objective_type, objective_name@, objective)
        },
{
    let mut args: Vec<Json> = Vec::new();
    match objective_type {
        ObjectiveType::Satisfy => {
            return Err(Error::GetObjectiveOnSatisfyType);
        },
        ObjectiveType::Minimize => {
            args.push(Json::Text(objective_name.to_owned()));
            args.push(Json::Number(signed_decimal_text(objective)));
        },
        ObjectiveType::Maximize => {
            args.push(Json::Number(signed_decimal_text(objective)));
            args.push(Json::Text(objective_name.to_owned()));
        },
    }
    let ghost all = items_view(args@);
    let args = Json::Array(args);
    let mut fields: Vec<(String, Json)> = Vec::new();
    fields.push(("id".to_owned(), Json::Text("int_le".to_owned())));
    fields.push(("args".to_owned(), args));
    let ghost view = fields_view(fields@);
    let json = Json::Object(fields);
    proof {
        lemma_parts(args);
        lemma_parts(json);
        let wanted = bound_of(*objective_type, objective_name@, objective)->Object_0;
        assert(all =~= wanted[1].1->Array_0);
        assert(view =~= wanted);
    }
    Ok(json)
}

/// A model with one more constraint, where it has an array of them.
pub open spec fn with_constraint(json: Tree, constraint: Tree) -> Tree {
    let fields = json->Object_0;
    let i = choose|i: int| is_field(fields, "constraints"@, i);
    let items = fields[i].1->Array_0;
    Tree::Object(fields.update(i, (fields[i].0, Tree::Array(items.push(constraint)))))
}

/// Adds a constraint to a model.
pub fn add_constraint<E>(json: &mut Json, constraint: Json) -> (r: Result<(), Error<E>>)
    ensures
        match field_of(old(json)@, "constraints"@) {
            None => final(json)@ == old(json)@ && r matches Err(Error::ConstraintsNotFound),
            Some(Tree::Array(_)) => r is Ok && final(json)@ == with_constraint(
                old(json)@,
                constraint@,
            ),
            Some(_) => final(json)@ == old(json)@ && r matches Err(Error::InvalidConstraintsType),
        },
{
    let ghost before = *json;
    proof {
        lemma_parts(before);
    }
    match json {
        Json::Object(fields) => match find(fields, "constraints") {
            Some(i) => {
                let ghost all = fields@;
                let ghost view = fields_view(all);
                proof {
                    lemma_one_field(view, "constraints"@, i as int);
                    lemma_parts(all[i as int].1);
                }
                if !matches!(&fields[i].1, Json::Array(_)) {
                    return Err(Error::InvalidConstraintsType);
                }
                if let Json::Array(items) = &mut fields[i].1 {
                    items.push(constraint);
                }
                proof {
                    let k = choose|k: int| is_field(view, "constraints"@, k);
                    assert(is_field(view, "constraints"@, k));
                    assert(k == i);
                    assert(fields@ == all.update(i as int, fields@[i as int]));
                    lemma_parts(fields@[i as int].1);
                    lemma_parts(Json::Object(*fields));
                    let old_items = all[i as int].1->Array_0@;
                    let new_items = fields@[i as int].1->Array_0@;
                    assert(items_view(new_items) =~= items_view(old_items).push(constraint@));
                    assert(fields_view(fields@) =~= with_constraint(
                        before@,
                        constraint@,
                    )->Object_0);
                }
                Ok(())
            },
            None => Err(Error::ConstraintsNotFound),
        },
        _ => Err(Error::ConstraintsNotFound),
    }
}

/// A constraint that is added comes last among the constraints, and every other field stays what it
/// was.
pub proof fn law_only_constraints_change(json: Tree, constraint: Tree, name: Seq<char>)
    requires
        field_of(json, "constraints"@) is Some,
        field_of(json, "constraints"@)->Some_0 is Array,
    ensures
        field_of(with_constraint(json, constraint), name) == if name == "constraints"@ {
            Some(
                Tree::Array(
                    field_of(json, "constraints"@)->Some_0->Array_0.push(constraint),
                ),
            )
        } else {
            field_of(json, name)
        },
{
    let before = json->Object_0;
    let after = with_constraint(json, constraint)->Object_0;
    let i = choose|i: int| is_field(before, "constraints"@, i);
    assert(is_field(before, "constraints"@, i));
    assert forall|n: Seq<char>, k: int| #[trigger] is_field(before, n, k) <==> is_field(
        after,
        n,
        k,
    ) by {
        assert forall|j: int| 0 <= j < before.len() implies #[trigger] before[j].0
            == after[j].0 by {}
        assert forall|j: int| 0 <= j < before.len() implies #[trigger] after[j].0
            == before[j].0 by {}
    }
    if exists|k: int| is_field(before, name, k) {
        let k = choose|k: int| is_field(before, name, k);
        assert(is_field(before, name, k));
        lemma_one_field(before, name, k);
        lemma_one_field(after, name, k);
    } else {
        assert forall|k: int| !is_field(after, name, k) by {
            assert(!is_field(before, name, k));
        }
    }
}

/// Whether `e` is the first thing that stands against a bound on the objective of a model.
pub open spec fn refuses<E>(
    content: Seq<char>,
    parsed: Result<Tree, E>,
    objective_type: ObjectiveType,
    e: Error<E>,
) -> bool {
    if trim(content).len() == 0 {
        e matches Error::NoStatements(text) && text@ == content
    } else {
        match parsed {
            Err(cause) => e == Error::JsonParse(cause),
            Ok(json) => if objective_type == ObjectiveType::Satisfy {
                e is GetObjectiveOnSatisfyType
            } else {
                match name_in(json) {
                    Err(why) => e matches Error::ObjectiveNotFound(m) && m@ == why,
                    Ok(_) => match field_of(json, "constraints"@) {
                        None => e is ConstraintsNotFound,
                        Some(Tree::Array(_)) => false,
                        Some(_) => e is InvalidConstraintsType,
                    },
                }
            },
        }
    }
}

/// What the reader of JSON gave back, as a mathematical value.
pub open spec fn parsed_view<E>(parsed: Result<Json, E>) -> Result<Tree, E> {
    match parsed {
        Ok(json) => Ok(json@),
        Err(e) => Err(e),
    }
}

/// Checks that a bound on the objective can be put into the model with the text `content`, which
/// parses to `parsed`, and hands out the text to be written.
///
/// The text is the one that was read: the bound is made and put into the parsed model, which is not
/// written.
pub fn insert_objective_parsed<E>(
    content: String,
    parsed: Result<Json, E>,
    objective_type: &ObjectiveType,
    objective: ObjectiveValue,
) -> (r: Result<String, Error<E>>)
    ensures
        match r {
            Ok(text) => text@ == content@ && forall|e: Error<E>|
                !#[trigger] refuses(content@, parsed_view(parsed), *objective_type, e),
            Err(e) => refuses(content@, parsed_view(parsed), *objective_type, e),
        },
{
    if trimmed(content.as_str()).is_empty() {
        return Err(Error::NoStatements(content));
    }
    let mut json = match parsed {
        Ok(json) => json,
        Err(e) => {
            return Err(Error::JsonParse(e));
        },
    };
    let name = get_objective_name_from_json(objective_type, &json)?;
    let constraint = get_objective_constraint_json_value(
        objective_type,
        name.as_str(),
        objective,
    )?;
    add_constraint(&mut json, constraint)?;
    Ok(content)
}

/// Checks that a bound on the objective can be put into the model with the text `content`, and hands
/// out the text to be written, which is the one that was read.
pub fn insert_objective(
    content: String,
    objective_type: &ObjectiveType,
    objective: ObjectiveValue,
) -> (r: Result<String, Error<JsonError>>)
    ensures
        match r {
            Ok(text) => text@ == content@ && (json_of(content@) matches Some(json) && forall|
                e: Error<JsonError>,
            | !#[trigger] refuses(content@, Ok(json), *objective_type, e)),
            Err(e) => match json_of(content@) {
                Some(json) => refuses(content@, Ok(json), *objective_type, e),
                None => if trim(content@).len() == 0 {
                    e matches Error::NoStatements(text) && text@ == content@
                } else {
                    e is JsonParse
                },
            },
        },
{
    let parsed = parse_json(content.as_str());
    proof {
        let view = parsed_view(parsed);
        let empty = Error::<JsonError>::NoStatements(content);
        assert(trim(content@).len() == 0 ==> refuses(content@, view, *objective_type, empty));
        let broken = Error::JsonParse(view->Err_0);
        assert(trim(content@).len() > 0 && view is Err ==> refuses(
            content@,
            view,
            *objective_type,
            broken,
        ));
    }
    insert_objective_parsed(content, parsed, objective_type, objective)
}

/// Whether `c` is a digit of a number in base sixteen, in lower case.
pub open spec fn is_hex(c: char) -> bool {
    '0' <= c <= '9' || 'a' <= c <= 'f'
}

/// Whether `s` is a random UUID in its usual form.
pub open spec fn is_random_uuid(s: Seq<char>) -> bool {
    &&& s.len() == 36
    &&& s[14] == '4'
    &&& s[19] == '8' || s[19] == '9' || s[19] == 'a' || s[19] == 'b'
    &&& forall|i: int|
        0 <= i < 36 ==> if i == 8 || i == 13 || i == 18 || i == 23 {
            #[trigger] s[i] == '-'
        } else {
            is_hex(s[i])
        }
}

/// `uuid::Uuid::new_v4`, as text.
///
/// What is claimed: the text has the form of a random UUID, in lower case. Which of them it is
/// depends on chance. The call panics where the system has no random numbers to give.
#[verifier::external_body]
fn new_uuid() -> (r: String)
    ensures
        is_random_uuid(r@),
{
    uuid::Uuid::new_v4().to_string()
}

/// The name of a file for a model that has the given mark.
pub open spec fn file_name_for(mark: Seq<char>) -> Seq<char> {
    "temp-"@ + mark + ".fzn.json"@
}

/// The name of a file for a model that has the given mark.
pub fn temp_file_name_for(mark: &str) -> (r: String)
    ensures
        r@ == file_name_for(mark@),
{
    let mut name = "temp-".to_owned();
    name.append(mark);
    name.append(".fzn.json");
    name
}

/// A new name for a file that holds a model.
pub fn temp_file_name() -> (r: String)
    ensures
        exists|mark: Seq<char>| #[trigger] is_random_uuid(mark) && r@ == file_name_for(mark),
{
    let mark = new_uuid();
    temp_file_name_for(mark.as_str())
}

} // verus!
