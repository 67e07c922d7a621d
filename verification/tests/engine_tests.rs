use cargo_fixit::apply::apply_file_edits;
use cargo_fixit::engine::{BuildUnit, Engine, Event, FileEdits, FileReportIn, PassPlan};
use cargo_fixit::patch::Patch;
use cargo_fixit::suggest::{classify, Classified, Diag, PendingEdit, Proposal, Replacement, Solution};

fn unit(name: &str, pkg: &str) -> BuildUnit {
    BuildUnit { target_name: name.as_bytes().to_vec(), package_id: pkg.as_bytes().to_vec() }
}

fn proposal(reps: Vec<(&str, usize, usize, &[u8])>) -> Proposal {
    Proposal {
        solutions: vec![Solution {
            replacements: reps
                .into_iter()
                .map(|(f, s, e, t)| Replacement {
                    file_name: f.as_bytes().to_vec(),
                    start: s,
                    end: e,
                    text: t.to_vec(),
                })
                .collect(),
        }],
    }
}

fn message(u: BuildUnit, rendered: Option<&str>, p: Option<Proposal>) -> Event {
    Event::Message {
        unit: u,
        diag: Diag { rendered: rendered.map(|r| r.as_bytes().to_vec()), suggestion: p },
    }
}

fn no_dirs() -> Vec<Vec<u8>> {
    Vec::new()
}

fn run_work(plan: &mut PassPlan, contents: &mut Vec<(Vec<u8>, Vec<u8>)>) -> Vec<FileReportIn> {
    let mut out = Vec::new();
    for FileEdits { file, edits } in plan.work.drain(..) {
        let code = contents
            .iter()
            .find(|(f, _)| *f == file)
            .map(|(_, c)| c.clone())
            .unwrap_or_default();
        let report = apply_file_edits(file.clone(), &code, &edits);
        let modified = report.new_code.is_some();
        if let Some(new_code) = report.new_code {
            if let Some(slot) = contents.iter_mut().find(|(f, _)| *f == file) {
                slot.1 = new_code;
            }
        }
        out.push(FileReportIn { file, modified, fixes: report.fixes, errors: report.errors });
    }
    out
}

#[test]
fn multi_file_proposal_is_rejected_with_its_text() {
    // Replacements naming two distinct files are never applied to either.
    let p = Proposal {
        solutions: vec![Solution {
            replacements: vec![
                Replacement { file_name: b"a.rs".to_vec(), start: 0, end: 1, text: b"x".to_vec() },
                Replacement { file_name: b"b.rs".to_vec(), start: 0, end: 1, text: b"y".to_vec() },
            ],
        }],
    };
    let d = Diag { rendered: Some(b"two files".to_vec()), suggestion: Some(p) };
    match classify(d, &no_dirs()) {
        Classified::Rejected { rendered } => assert_eq!(rendered, Some(b"two files".to_vec())),
        Classified::Accepted { .. } => panic!("a multi-file proposal must be rejected"),
    }
}

#[test]
fn protected_path_is_never_accepted() {
    let p = proposal(vec![("/home/u/.cargo/registry/src/x.rs", 0, 1, b"y")]);
    let d = Diag { rendered: Some(b"protected".to_vec()), suggestion: Some(p) };
    let dirs = vec![b"/home/u/.cargo".to_vec()];
    match classify(d, &dirs) {
        Classified::Rejected { rendered } => assert_eq!(rendered, Some(b"protected".to_vec())),
        Classified::Accepted { .. } => panic!("a protected path must be rejected"),
    }
}

#[test]
fn sibling_path_is_not_protected() {
    // The prefix must end on a path-component boundary: a sibling whose
    // name merely starts with the protected directory's name is editable.
    let p = proposal(vec![("/home/u/.cargo-other/x.rs", 0, 1, b"y")]);
    let d = Diag { rendered: None, suggestion: Some(p) };
    let dirs = vec![b"/home/u/.cargo".to_vec()];
    assert!(matches!(classify(d, &dirs), Classified::Accepted { .. }));
}

#[test]
fn zero_solution_proposal_is_rejected() {
    let d = Diag {
        rendered: Some(b"nothing to do".to_vec()),
        suggestion: Some(Proposal { solutions: Vec::new() }),
    };
    match classify(d, &no_dirs()) {
        Classified::Rejected { rendered } => assert_eq!(rendered, Some(b"nothing to do".to_vec())),
        Classified::Accepted { .. } => panic!("an empty proposal must be rejected"),
    }
}

#[test]
fn accepted_proposal_flattens_to_patches() {
    let p = proposal(vec![("a.rs", 3, 5, b"zz"), ("a.rs", 8, 8, b"q")]);
    let d = Diag { rendered: Some(b"msg".to_vec()), suggestion: Some(p) };
    match classify(d, &no_dirs()) {
        Classified::Accepted { file, edit } => {
            assert_eq!(file, b"a.rs".to_vec());
            let PendingEdit { patches, rendered } = edit;
            assert_eq!(rendered, Some(b"msg".to_vec()));
            let spans: Vec<(usize, usize, Vec<u8>)> =
                patches.into_iter().map(|Patch { start, end, text }| (start, end, text)).collect();
            assert_eq!(spans, vec![(3, 5, b"zz".to_vec()), (8, 8, b"q".to_vec())]);
        }
        Classified::Rejected { .. } => panic!("a single-file proposal must be accepted"),
    }
}

#[test]
fn two_units_fix_counts_and_single_announcement() {
    // Unit A resolves in two passes; unit B has no actionable diagnostics.
    let mut engine = Engine::new(4);
    let dirs = no_dirs();
    let mut contents = vec![(b"a.rs".to_vec(), b"let x = 1;".to_vec())];
    let mut announced: Vec<Vec<u8>> = Vec::new();
    let mut fixed: Vec<(Vec<u8>, u64)> = Vec::new();
    let mut residual: Vec<Vec<u8>> = Vec::new();
    let mut passes = 0;

    loop {
        passes += 1;
        assert!(passes < 20, "the controller must converge");
        // Build pass: A reports a fixable diagnostic until its file says
        // `let x = 1i64;`; B only reports a non-fresh artifact.
        let mut events = Vec::new();
        let a_code = contents[0].1.clone();
        if a_code == b"let x = 1;".to_vec() {
            events.push(message(
                unit("a", "pkg-a"),
                Some("a: needs i64"),
                Some(proposal(vec![("a.rs", 8, 9, b"1i64")])),
            ));
        }
        events.push(Event::Artifact { unit: unit("a", "pkg-a"), fresh: false });
        events.push(Event::Artifact { unit: unit("b", "pkg-b"), fresh: false });

        let mut plan = engine.begin_pass(events, &dirs);
        for r in plan.reports.drain(..) {
            if let Some(p) = r.announce {
                announced.push(p);
            }
            fixed.extend(r.fixed.into_iter().map(|c| (c.file, c.fixes)));
            residual.extend(r.residual);
        }
        let outcomes = run_work(&mut plan, &mut contents);
        let res = engine.finish_pass(outcomes);
        for r in res.reports {
            if let Some(p) = r.announce {
                announced.push(p);
            }
            fixed.extend(r.fixed.into_iter().map(|c| (c.file, c.fixes)));
            residual.extend(r.residual);
        }
        if res.done {
            break;
        }
    }

    assert_eq!(contents[0].1, b"let x = 1i64;".to_vec());
    assert_eq!(fixed, vec![(b"a.rs".to_vec(), 1)]);
    // Each package is announced exactly once.
    let a_count = announced.iter().filter(|p| *p == &b"pkg-a".to_vec()).count();
    let b_count = announced.iter().filter(|p| *p == &b"pkg-b".to_vec()).count();
    assert_eq!(a_count, 1);
    assert_eq!(b_count, 1);
    assert!(residual.is_empty());
}

#[test]
fn retry_cap_stops_oscillation_and_reports_residual() {
    // Retry cap one: fixing the first diagnostic deterministically exposes
    // a second one; the second is reported, not retried without end.
    let mut engine = Engine::new(1);
    let dirs = no_dirs();
    let mut contents = vec![(b"a.rs".to_vec(), b"one".to_vec())];
    let mut fixed: Vec<(Vec<u8>, u64)> = Vec::new();
    let mut residual: Vec<Vec<u8>> = Vec::new();
    let mut passes = 0;

    loop {
        passes += 1;
        assert!(passes < 10, "the cap must bound the run");
        let code = contents[0].1.clone();
        let mut events = Vec::new();
        if code == b"one".to_vec() {
            events.push(message(
                unit("a", "pkg-a"),
                Some("first diagnostic"),
                Some(proposal(vec![("a.rs", 0, 3, b"two")])),
            ));
        } else {
            events.push(message(
                unit("a", "pkg-a"),
                Some("second diagnostic"),
                Some(proposal(vec![("a.rs", 0, 3, b"one")])),
            ));
        }
        let mut plan = engine.begin_pass(events, &dirs);
        for r in plan.reports.drain(..) {
            fixed.extend(r.fixed.into_iter().map(|c| (c.file, c.fixes)));
            residual.extend(r.residual);
        }
        let outcomes = run_work(&mut plan, &mut contents);
        let res = engine.finish_pass(outcomes);
        for r in res.reports {
            fixed.extend(r.fixed.into_iter().map(|c| (c.file, c.fixes)));
            residual.extend(r.residual);
        }
        if res.done {
            break;
        }
    }

    // Exactly one fix was applied, and the second diagnostic's text was
    // printed as residual error.
    assert_eq!(fixed, vec![(b"a.rs".to_vec(), 1)]);
    assert_eq!(residual, vec![b"second diagnostic".to_vec()]);
    assert_eq!(contents[0].1, b"two".to_vec());
}

#[test]
fn edits_of_a_non_current_unit_are_not_handed_out() {
    // Unit isolation: while A is current, B's edits are never in the work.
    let mut engine = Engine::new(4);
    let dirs = no_dirs();
    let events = vec![
        message(unit("a", "p"), None, Some(proposal(vec![("a.rs", 0, 1, b"x")]))),
        message(unit("b", "p"), None, Some(proposal(vec![("b.rs", 0, 1, b"y")]))),
    ];
    let plan = engine.begin_pass(events, &dirs);
    let files: Vec<Vec<u8>> = plan.work.iter().map(|fe| fe.file.clone()).collect();
    assert_eq!(files, vec![b"a.rs".to_vec()]);
}

#[test]
fn seen_unit_is_never_reselected() {
    let mut engine = Engine::new(4);
    let dirs = no_dirs();
    // Pass: a unit with no edits is finalized immediately.
    let events = vec![message(unit("a", "p"), Some("plain error"), None)];
    let plan = engine.begin_pass(events, &dirs);
    assert!(plan.work.is_empty());
    assert_eq!(plan.reports.len(), 1);
    assert_eq!(plan.reports[0].residual, vec![b"plain error".to_vec()]);
    let res = engine.finish_pass(Vec::new());
    assert!(res.done);

    // A later pass re-reporting the same unit offers no work.
    let events2 = vec![message(unit("a", "p"), None, Some(proposal(vec![("a.rs", 0, 1, b"x")])))];
    let plan2 = engine.begin_pass(events2, &dirs);
    assert!(plan2.work.is_empty());
    assert!(plan2.reports.is_empty());
}

#[test]
fn duplicate_pair_is_collected_once() {
    // A byte-identical (edit, rendered) pair reported twice in one pass is
    // stored once under its file.
    let engine = Engine::new(4);
    let events = vec![
        message(unit("a", "p"), Some("msg"), Some(proposal(vec![("a.rs", 0, 1, b"x")]))),
        message(unit("a", "p"), Some("msg"), Some(proposal(vec![("a.rs", 0, 1, b"x")]))),
    ];
    let entries = cargo_fixit::engine::collect(events, &engine.seen, &no_dirs());
    assert_eq!(entries.len(), 1);
    assert_eq!(entries[0].files.len(), 1);
    assert_eq!(entries[0].files[0].edits.len(), 1);
}
