use cargo_fixit::check::{check_command_args, CheckFlags};
use cargo_fixit::extract::message_event;
use cargo_fixit::engine::{BuildUnit, Event};
use cargo_fixit::util::{parse_retries, trim_end_bytes};

fn empty_flags() -> CheckFlags {
    CheckFlags {
        lib: false,
        bins: false,
        bin: None,
        examples: false,
        example: None,
        tests: false,
        test: None,
        benches: false,
        bench: None,
        all_targets: false,
        unstable_flags: Vec::new(),
    }
}

#[test]
fn to_flags_empty_selection() {
    assert!(empty_flags().to_flags().is_empty());
}

#[test]
fn to_flags_orders_all_selections() {
    let f = CheckFlags {
        lib: true,
        bins: true,
        bin: Some("tool".to_owned()),
        examples: true,
        example: Some("demo".to_owned()),
        tests: true,
        test: Some("it".to_owned()),
        benches: true,
        bench: Some("speed".to_owned()),
        all_targets: true,
        unstable_flags: vec!["unstable-options".to_owned(), "next".to_owned()],
    };
    assert_eq!(
        f.to_flags(),
        vec![
            "--lib".to_owned(),
            "--bins".to_owned(),
            "--bin".to_owned(),
            "tool".to_owned(),
            "--examples".to_owned(),
            "--example".to_owned(),
            "demo".to_owned(),
            "--tests".to_owned(),
            "--test".to_owned(),
            "it".to_owned(),
            "--benches".to_owned(),
            "--bench".to_owned(),
            "speed".to_owned(),
            "--all-targets".to_owned(),
            "-Z".to_owned(),
            "unstable-options".to_owned(),
            "-Z".to_owned(),
            "next".to_owned(),
        ]
    );
}

#[test]
fn command_args_pick_the_personality() {
    let args = check_command_args(false, &empty_flags());
    assert_eq!(
        args,
        vec![
            "check".to_owned(),
            "--message-format".to_owned(),
            "json-diagnostic-rendered-ansi".to_owned(),
        ]
    );
    let clippy = check_command_args(true, &empty_flags());
    assert_eq!(clippy[0], "clippy".to_owned());
}

#[test]
fn retries_parse_number_or_default() {
    assert_eq!(parse_retries(Some(b"7".to_vec())), 7);
    assert_eq!(parse_retries(Some(b"0".to_vec())), 0);
    assert_eq!(parse_retries(None), 4);
    assert_eq!(parse_retries(Some(b"".to_vec())), 4);
    assert_eq!(parse_retries(Some(b"four".to_vec())), 4);
    assert_eq!(parse_retries(Some(b"99999999999999999999999999".to_vec())), 4);
}

#[test]
fn trim_end_drops_trailing_whitespace() {
    assert_eq!(trim_end_bytes(&b"warning: x  \n\t\r".to_vec()), b"warning: x".to_vec());
    assert_eq!(trim_end_bytes(&b"".to_vec()), b"".to_vec());
    assert_eq!(trim_end_bytes(&b"  \n".to_vec()), b"".to_vec());
    assert_eq!(trim_end_bytes(&b"no-trim".to_vec()), b"no-trim".to_vec());
}

#[test]
fn message_event_extracts_a_machine_applicable_edit() {
    // A compiler diagnostic with one machine-applicable replacement, as
    // the external suggestion source decodes it.
    let json = r#"{
        "message": "unused variable",
        "code": null,
        "level": "warning",
        "spans": [],
        "children": [
            {
                "message": "consider prefixing with an underscore",
                "code": null,
                "level": "help",
                "spans": [
                    {
                        "file_name": "src/lib.rs",
                        "byte_start": 8,
                        "byte_end": 9,
                        "line_start": 1,
                        "line_end": 1,
                        "column_start": 9,
                        "column_end": 10,
                        "is_primary": true,
                        "text": [],
                        "label": null,
                        "suggested_replacement": "_x",
                        "suggestion_applicability": "MachineApplicable",
                        "expansion": null
                    }
                ],
                "children": [],
                "rendered": null
            }
        ],
        "rendered": "warning: unused variable"
    }"#;
    let diag: rustfix::diagnostics::Diagnostic = serde_json::from_str(json).unwrap();
    let u = BuildUnit { target_name: b"lib".to_vec(), package_id: b"pkg".to_vec() };
    match message_event(u, &diag, false) {
        Event::Message { unit, diag } => {
            assert_eq!(unit.package_id, b"pkg".to_vec());
            assert_eq!(diag.rendered, Some(b"warning: unused variable".to_vec()));
            let p = diag.suggestion.expect("the machine-applicable edit must be kept");
            assert_eq!(p.solutions.len(), 1);
            let r = &p.solutions[0].replacements[0];
            assert_eq!(r.file_name, b"src/lib.rs".to_vec());
            assert_eq!((r.start, r.end), (8, 9));
            assert_eq!(r.text, b"_x".to_vec());
        }
        Event::Artifact { .. } => panic!("a diagnostic decodes to a message event"),
    }
}

#[test]
fn message_event_drops_non_applicable_suggestions() {
    let json = r#"{
        "message": "style",
        "code": null,
        "level": "warning",
        "spans": [],
        "children": [
            {
                "message": "maybe",
                "code": null,
                "level": "help",
                "spans": [
                    {
                        "file_name": "src/lib.rs",
                        "byte_start": 0,
                        "byte_end": 1,
                        "line_start": 1,
                        "line_end": 1,
                        "column_start": 1,
                        "column_end": 2,
                        "is_primary": true,
                        "text": [],
                        "label": null,
                        "suggested_replacement": "y",
                        "suggestion_applicability": "MaybeIncorrect",
                        "expansion": null
                    }
                ],
                "children": [],
                "rendered": null
            }
        ],
        "rendered": "warning: style"
    }"#;
    let diag: rustfix::diagnostics::Diagnostic = serde_json::from_str(json).unwrap();
    let u = BuildUnit { target_name: b"lib".to_vec(), package_id: b"pkg".to_vec() };
    match message_event(u, &diag, false) {
        Event::Message { diag, .. } => {
            assert!(diag.suggestion.is_none());
            assert_eq!(diag.rendered, Some(b"warning: style".to_vec()));
        }
        Event::Artifact { .. } => panic!("a diagnostic decodes to a message event"),
    }
}
