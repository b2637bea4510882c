use parasol::solver_output::{Output, OutputKind};

#[test]
fn output_is_told_apart_by_how_it_ends() {
    let cases = [
        ("x = 1;\n----------\n", OutputKind::Intermediate),
        ("x = 1;\n----------\n==========\n", OutputKind::Optimal),
        ("=====UNSATISFIABLE=====\n", OutputKind::Unsatisfiable),
        ("=====UNBOUNDED=====", OutputKind::Unbounded),
        ("\n=====UNKNOWN=====  ", OutputKind::Unknown),
        ("", OutputKind::Intermediate),
        ("=========", OutputKind::Intermediate),
    ];
    for (text, kind) in cases {
        let output = Output::parse(text);
        assert_eq!(output.kind, kind, "{text:?}");
        assert_eq!(output.original_output, text.trim());
    }
}
