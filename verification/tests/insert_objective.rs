use parasol::insert_objective::json::{
    add_constraint, get_objective_constraint_json_value, get_objective_name_from_json,
    insert_objective, insert_objective_parsed, parse_json, temp_file_name, temp_file_name_for, Error, Json,
};
use parasol::model_parser::ObjectiveType;

fn text(s: &str) -> Json {
    Json::Text(s.to_owned())
}

fn number(s: &str) -> Json {
    Json::Number(s.to_owned())
}

fn object(fields: Vec<(&str, Json)>) -> Json {
    Json::Object(fields.into_iter().map(|(k, v)| (k.to_owned(), v)).collect())
}

fn model(constraints: Json) -> Json {
    object(vec![
        ("constraints", constraints),
        ("solve", object(vec![("method", text("minimize")), ("objective", text("cost"))])),
    ])
}

fn name(kind: ObjectiveType, json: &Json) -> Result<String, Error<()>> {
    get_objective_name_from_json(&kind, json)
}

#[test]
fn objective_name_is_found_under_its_names() {
    for solve in ["solve", "Solve"] {
        for objective in ["objective", "objective_name", "objectiveName"] {
            let json = object(vec![(solve, object(vec![(objective, text("z"))]))]);
            assert_eq!(name(ObjectiveType::Maximize, &json).unwrap(), "z");
        }
    }
}

#[test]
fn first_name_of_the_objective_counts() {
    let json = object(vec![
        ("Solve", object(vec![("objective", text("wrong"))])),
        ("solve", object(vec![("objectiveName", text("late")), ("objective_name", text("soon"))])),
    ]);
    assert_eq!(name(ObjectiveType::Minimize, &json).unwrap(), "soon");
}

#[test]
fn absent_objective_is_reported() {
    let error = name(ObjectiveType::Satisfy, &object(vec![])).unwrap_err();
    assert!(matches!(error, Error::GetObjectiveOnSatisfyType));
    let error = name(ObjectiveType::Minimize, &Json::Null).unwrap_err();
    assert!(matches!(error, Error::ObjectiveNotFound(m) if m == "'solve' field was not found"));
    let error = name(ObjectiveType::Minimize, &object(vec![("solve", Json::Bool(true))])).unwrap_err();
    assert!(matches!(
        error,
        Error::ObjectiveNotFound(m) if m == "'objective' field was not found inside the solve field"
    ));
    let json = object(vec![("solve", object(vec![("objective", Json::Number("3".to_owned()))]))]);
    assert!(matches!(
        name(ObjectiveType::Minimize, &json),
        Err(Error::ObjectiveNotFound(m)) if m == "objective is not a string: 3"
    ));
}

#[test]
fn bound_is_an_inequality() {
    let show = |kind: ObjectiveType| {
        let json = get_objective_constraint_json_value::<()>(&kind, "cost", -4).unwrap();
        format!("{json:?}")
    };
    assert_eq!(
        show(ObjectiveType::Minimize),
        r#"Object([("id", Text("int_le")), ("args", Array([Text("cost"), Number("-4")]))])"#
    );
    assert_eq!(
        show(ObjectiveType::Maximize),
        r#"Object([("id", Text("int_le")), ("args", Array([Number("-4"), Text("cost")]))])"#
    );
    let error = get_objective_constraint_json_value::<()>(&ObjectiveType::Satisfy, "c", 1);
    assert!(matches!(error, Err(Error::GetObjectiveOnSatisfyType)));
}

#[test]
fn constraint_is_added_at_the_end() {
    let mut json = model(Json::Array(vec![number("1")]));
    assert!(add_constraint::<()>(&mut json, number("2")).is_ok());
    let expected = model(Json::Array(vec![number("1"), number("2")]));
    assert_eq!(format!("{json:?}"), format!("{expected:?}"));
}

#[test]
fn constraints_have_to_be_an_array() {
    let mut json = model(Json::Number("1.5".to_owned()));
    assert!(matches!(
        add_constraint::<()>(&mut json, Json::Null),
        Err(Error::InvalidConstraintsType)
    ));
    assert!(matches!(
        add_constraint::<()>(&mut object(vec![]), Json::Null),
        Err(Error::ConstraintsNotFound)
    ));
}

#[test]
fn text_is_handed_out_as_it_was_read() {
    let parsed: Result<Json, &str> = Ok(model(Json::Array(vec![])));
    let written = insert_objective_parsed(" {..} ".to_owned(), parsed, &ObjectiveType::Minimize, 5);
    assert_eq!(written.unwrap(), " {..} ");
}

#[test]
fn first_obstacle_is_reported() {
    let kind = ObjectiveType::Minimize;
    let insert = |text: &str, parsed: Result<Json, &'static str>, kind: &ObjectiveType| {
        insert_objective_parsed(text.to_owned(), parsed, kind, 5).unwrap_err()
    };
    assert!(matches!(insert(" \n", Err("eof"), &kind), Error::NoStatements(t) if t == " \n"));
    assert!(matches!(insert("x", Err("eof"), &kind), Error::JsonParse("eof")));
    let error = insert("x", Ok(Json::Null), &ObjectiveType::Satisfy);
    assert!(matches!(error, Error::GetObjectiveOnSatisfyType));
    let bare = object(vec![("solve", object(vec![("objective", text("c"))]))]);
    assert!(matches!(insert("x", Ok(bare), &kind), Error::ConstraintsNotFound));
    assert!(matches!(insert("x", Ok(model(Json::Null)), &kind), Error::InvalidConstraintsType));
}

const MODEL: &str = r#" {"constraints": [{"id": "int_lin_le"}], "output": [1, -2, 3.50, null],
    "solve": {"method": "minimize", "objective": "co\u0073t"}, "version": "1.0"}
"#;

#[test]
fn text_is_parsed_and_handed_out() {
    let kind = ObjectiveType::Minimize;
    assert_eq!(insert_objective(MODEL.to_owned(), &kind, 5).unwrap(), MODEL);
    let error = insert_objective(MODEL.to_owned(), &ObjectiveType::Satisfy, 5).unwrap_err();
    assert!(matches!(error, Error::GetObjectiveOnSatisfyType));
}

#[test]
fn text_that_is_refused_says_why() {
    let refused = |text: &str| {
        insert_objective(text.to_owned(), &ObjectiveType::Maximize, 5).unwrap_err()
    };
    assert!(matches!(refused(" "), Error::NoStatements(t) if t == " "));
    assert!(matches!(refused("{"), Error::JsonParse(e) if e.is_eof()));
    assert!(matches!(refused("{} {}"), Error::JsonParse(e) if e.is_syntax()));
    let why = |text: &str| match refused(text) {
        Error::ObjectiveNotFound(why) => why,
        other => panic!("{other:?}"),
    };
    assert_eq!(why("[]"), "'solve' field was not found");
    assert_eq!(why("{\"solve\": 1}"), "'objective' field was not found inside the solve field");
    assert!(matches!(refused(r#"{"solve": {"objective": "c"}}"#), Error::ConstraintsNotFound));
    assert!(matches!(
        refused(r#"{"solve": {"objective": "c"}, "constraints": {}}"#),
        Error::InvalidConstraintsType
    ));
}

#[test]
fn objective_that_is_no_text_is_told_as_it_is_written() {
    for objective in [
        "null", "true", "false", "-7", "1.5e300", "[]", "{}", "18446744073709551615",
        r#"[1, "a\"\\\n\u0001é", {"k\t": [null]}]"#,
        r#"{"b": 1, "a": {"x": "y"}, "": []}"#,
        "[0.1, [5e-324, [1.7976931348623157e308, [2.2250738585072011e-308]]]]",
        "[[[[[9007199254740993.0, 123456789012345680000]]]], 0.30000000000000004e-7]",
    ] {
        let content = format!(r#"{{"solve": {{"objective": {objective}}}, "constraints": []}}"#);
        let value: serde_json::Value = serde_json::from_str(objective).unwrap();
        match insert_objective(content, &ObjectiveType::Minimize, 1) {
            Err(Error::ObjectiveNotFound(why)) => {
                assert_eq!(why, format!("objective is not a string: {value}"));
            }
            other => panic!("{other:?}"),
        }
    }
}

#[test]
fn values_are_written_without_white_space() {
    let json = object(vec![("a", Json::Array(vec![text("x"), number("1"), Json::Null]))]);
    assert_eq!(json.to_text(), r#"{"a":["x",1,null]}"#);
    assert_eq!(text("a\"b").to_text(), r#""a\"b""#);
}

#[test]
fn bound_reads_back_as_it_was_made() {
    let json = get_objective_constraint_json_value::<()>(&ObjectiveType::Maximize, "c\"", i64::MIN);
    let value: serde_json::Value = serde_json::from_str(&json.unwrap().to_text()).unwrap();
    assert_eq!(value["id"], "int_le");
    assert_eq!(value["args"][0], i64::MIN);
    assert_eq!(value["args"][1], "c\"");
}

#[test]
fn file_names_have_a_new_mark_each() {
    assert_eq!(temp_file_name_for("abc"), "temp-abc.fzn.json");
    let (a, b) = (temp_file_name(), temp_file_name());
    assert_ne!(a, b);
    let mark = a.strip_prefix("temp-").unwrap().strip_suffix(".fzn.json").unwrap();
    assert_eq!(mark.len(), 36);
    for (i, c) in mark.chars().enumerate() {
        match i {
            8 | 13 | 18 | 23 => assert_eq!(c, '-'),
            14 => assert_eq!(c, '4'),
            19 => assert!("89ab".contains(c)),
            _ => assert!(c.is_ascii_hexdigit() && !c.is_ascii_uppercase()),
        }
    }
}

#[test]
fn values_are_read_part_by_part() {
    let json = parse_json(r#"{"b": [1, {"x": null}], "a": [true, "t\u0021"], "b": [-0.0]}"#).unwrap();
    assert_eq!(
        format!("{json:?}"),
        r#"Object([("a", Array([Bool(true), Text("t!")])), ("b", Array([Number("-0.0")]))])"#
    );
    assert!(parse_json("[1,]").is_err());
    assert!(parse_json("1e999").is_err());
}

#[test]
fn nested_numbers_are_read_once() {
    let numbers = ["0.1", "1e23", "8.41e21", "2.2250738585072011e-308", "123456.7890123e-123"];
    for number in numbers {
        let text = format!("[[[[[[[[{number}]]]]]]]]");
        let value: serde_json::Value = serde_json::from_str(&text).unwrap();
        assert_eq!(parse_json(&text).unwrap().to_text(), value.to_string());
    }
}
