use parasol::ai::Ai as _;
use parasol::args::{
    parse_ai_config, parse_compilation_priority, unpack_ai, Ai, AiArgs, OutputMode, UnpackAiError,
    UnpackedAi, Verbosity,
};

fn ai_args(kind: Ai, config: Option<&str>) -> AiArgs {
    AiArgs {
        kind,
        config: config.map(|c| c.to_owned()),
        feature_extraction_solver_id: "org.gecode.gecode".to_owned(),
    }
}

#[test]
fn missing_equals_sign_is_reported() {
    assert_eq!(parse_ai_config(Some("a=1,b")).unwrap_err(), "b");
    assert_eq!(parse_ai_config(Some("x,y")).unwrap_err(), "x");
}

#[test]
fn absent_config_holds_no_pair() {
    assert_eq!(parse_ai_config(None).unwrap().len(), 0);
    assert_eq!(parse_ai_config(Some("")).unwrap_err(), "");
}

#[test]
fn config_is_split_at_commas_and_first_equals_sign() {
    let config = parse_ai_config(Some("command=run a=b,mode=fast")).unwrap();
    assert_eq!(config.len(), 2);
    assert_eq!(config.get(&"command".to_owned()).unwrap(), "run a=b");
    assert_eq!(config.get(&"mode".to_owned()).unwrap(), "fast");
    assert!(config.get(&"other".to_owned()).is_none());
}

#[test]
fn last_setting_of_a_key_counts() {
    let config = parse_ai_config(Some("k=1,k=2,=")).unwrap();
    assert_eq!(config.get(&"k".to_owned()).unwrap(), "2");
    assert_eq!(config.get(&"".to_owned()).unwrap(), "");
}

#[test]
fn priority_file_skips_comments_and_empty_lines() {
    let mut priority =
        parse_compilation_priority("# first\norg.gecode.gecode\n\n  cp-sat \r\n\t#no\nyuck");
    let mut order = Vec::new();
    while let Some((solver, priority)) = priority.take_next() {
        order.push((solver, priority.0));
    }
    let expected = vec![
        ("org.gecode.gecode".to_owned(), 0u64),
        ("cp-sat".to_owned(), 1),
        ("yuck".to_owned(), 2),
    ];
    assert_eq!(order, expected);
}

#[test]
fn empty_priority_file_names_no_solver() {
    assert!(parse_compilation_priority("").take_next().is_none());
    assert!(parse_compilation_priority("#a\n # b\n").take_next().is_none());
}

#[test]
fn no_ai_is_picked_when_off() {
    assert!(unpack_ai(&ai_args(Ai::Off, None)).unwrap().is_none());
}

#[test]
fn simple_ai_shares_the_cores() {
    let picked = unpack_ai(&ai_args(Ai::Simple, None)).unwrap().unwrap();
    let mut ai = match picked {
        UnpackedAi::Simple(ai) => ai,
        UnpackedAi::CommandLine(_) => panic!("wrong AI"),
    };
    let schedule = ai.schedule(&vec![1, 2, 3], 7);
    assert_eq!(schedule.len(), 2);
    assert_eq!((schedule[0].solver.as_str(), schedule[0].cores), ("gecode", 3));
    assert_eq!((schedule[1].solver.as_str(), schedule[1].cores), ("coinbc", 3));
}

#[test]
fn command_line_ai_takes_its_command_from_the_config() {
    let picked = unpack_ai(&ai_args(Ai::CommandLine, Some("command=./ai.py"))).unwrap();
    assert!(matches!(picked, Some(UnpackedAi::CommandLine(c)) if c == "./ai.py"));
}

#[test]
fn command_line_ai_needs_a_command() {
    let error = unpack_ai(&ai_args(Ai::CommandLine, Some("cmd=./ai.py"))).unwrap_err();
    assert!(matches!(error, UnpackAiError::CommandLineAiConfigMissing(k) if k == "command"));
    let error = unpack_ai(&ai_args(Ai::CommandLine, None)).unwrap_err();
    assert!(matches!(error, UnpackAiError::CommandLineAiConfigMissing(k) if k == "command"));
}

#[test]
fn command_line_ai_refuses_a_malformed_config() {
    let error = unpack_ai(&ai_args(Ai::CommandLine, Some("command=a,junk"))).unwrap_err();
    assert!(matches!(error, UnpackAiError::MalformedConfig(p) if p == "junk"));
    let error = unpack_ai(&ai_args(Ai::CommandLine, Some(""))).unwrap_err();
    assert!(matches!(error, UnpackAiError::MalformedConfig(p) if p.is_empty()));
}

#[test]
fn verbosity_levels_are_ordered() {
    let levels = [Verbosity::Quiet, Verbosity::Error, Verbosity::Warning, Verbosity::Info];
    for (i, a) in levels.iter().enumerate() {
        for (j, b) in levels.iter().enumerate() {
            assert_eq!(a.at_least(*b), i >= j);
        }
    }
}

#[test]
fn output_mode_has_a_name() {
    assert_eq!(OutputMode::Dzn.as_text(), "dzn");
}

#[test]
fn idle_lines_and_white_space_change_nothing() {
    let listed = |text: &str| {
        let mut priority = parse_compilation_priority(text);
        let mut order = Vec::new();
        while let Some((solver, _)) = priority.take_next() {
            order.push(solver);
        }
        order
    };
    let noisy = "\n #c\n\t a \n\n#x\n b\u{a0}\n   \nc #d\n#";
    assert_eq!(listed(noisy), vec!["a", "b", "c #d"]);
    assert_eq!(listed(noisy), listed("a\nb\nc #d"));
}
