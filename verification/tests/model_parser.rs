use parasol::model_parser::{classify, parse_objective_type, ModelParseError, ObjectiveType};
use std::io;

#[test]
fn objective_is_read_from_the_solve_statement() {
    let cases = [
        ("var int: x; solve minimize x;", ObjectiveType::Minimize),
        ("solve\n  :: int_search([x]) maximize x ;\noutput [];", ObjectiveType::Maximize),
        ("solve satisfy;", ObjectiveType::Satisfy),
        ("solve ; minimize", ObjectiveType::Satisfy),
        ("solve maximize minimize;", ObjectiveType::Minimize),
        ("% to solve it: minimize\nsolve satisfy;", ObjectiveType::Minimize),
        ("solve;solve maximize x;", ObjectiveType::Satisfy),
        ("é solve \u{2028} maximize x;", ObjectiveType::Maximize),
    ];
    for (text, expected) in cases {
        assert_eq!(parse_objective_type(text).unwrap(), expected, "{text:?}");
    }
}

#[test]
fn model_without_a_solve_statement_is_refused() {
    for text in ["", "var int: x;", "solve minimize x", "; solve"] {
        assert!(matches!(parse_objective_type(text), Err(ModelParseError::NoSolveStatement)));
    }
}

#[test]
fn statements_are_classified_by_their_words() {
    assert_eq!(classify(Some(" maximize x;")).unwrap(), ObjectiveType::Maximize);
    assert_eq!(classify(Some(" minimized;")).unwrap(), ObjectiveType::Minimize);
    assert_eq!(classify(Some(";")).unwrap(), ObjectiveType::Satisfy);
    assert!(matches!(classify(None), Err(ModelParseError::NoSolveStatement)));
}

#[test]
fn causes_become_errors_of_the_parser() {
    let error = ModelParseError::from(io::Error::new(io::ErrorKind::NotFound, "x"));
    assert!(matches!(error, ModelParseError::IoError(_)));
    let error = ModelParseError::from(regex::Regex::new("(").unwrap_err());
    assert!(matches!(error, ModelParseError::RegexError(_)));
}
