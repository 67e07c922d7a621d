use cargo_fixit::apply::apply_file_edits;
use cargo_fixit::patch::{ApplyOutcome, FileFix, Patch};
use cargo_fixit::suggest::PendingEdit;

fn patch(start: usize, end: usize, text: &[u8]) -> Patch {
    Patch { start, end, text: text.to_vec() }
}

fn edit(patches: Vec<Patch>, rendered: Option<&[u8]>) -> PendingEdit {
    PendingEdit { patches, rendered: rendered.map(|r| r.to_vec()) }
}

#[test]
fn single_replacement_applies() {
    // A file containing `let x = 1` and one replacement of `1` with `1i64`.
    let code = b"let x = 1".to_vec();
    let edits = vec![edit(vec![patch(8, 9, b"1i64")], None)];
    let report = apply_file_edits(b"src/main.rs".to_vec(), &code, &edits);
    assert_eq!(report.new_code, Some(b"let x = 1i64".to_vec()));
    assert_eq!(report.fixes, 1);
    assert!(report.errors.is_empty());
}

#[test]
fn reapplying_identical_edit_is_a_noop() {
    // The same edit twice: the end state matches a single application and
    // the second application is not counted as a fix.
    let code = b"let x = 1".to_vec();
    let once = vec![edit(vec![patch(8, 9, b"1i64")], None)];
    let twice = vec![
        edit(vec![patch(8, 9, b"1i64")], Some(b"dup")),
        edit(vec![patch(8, 9, b"1i64")], Some(b"dup")),
    ];
    let r1 = apply_file_edits(b"a.rs".to_vec(), &code, &once);
    let r2 = apply_file_edits(b"a.rs".to_vec(), &code, &twice);
    assert_eq!(r1.new_code, r2.new_code);
    assert_eq!(r2.fixes, 1);
    assert!(r2.errors.is_empty());
}

#[test]
fn idempotent_reapply_on_file_fix() {
    let mut ff = FileFix::new(b"abcdefghij".to_vec());
    let p = patch(2, 4, b"XY");
    assert!(matches!(ff.apply(patch(2, 4, b"XY")), ApplyOutcome::Applied));
    assert!(matches!(ff.apply(patch(2, 4, b"XY")), ApplyOutcome::Unchanged));
    let _ = p;
    assert_eq!(ff.finish(), b"abXYefghij".to_vec());
}

#[test]
fn conflicting_overlap_is_refused() {
    let mut ff = FileFix::new(b"abcdefghij".to_vec());
    assert!(matches!(ff.apply(patch(2, 5, b"XXX")), ApplyOutcome::Applied));
    // A different replacement of an overlapping span is refused.
    assert!(matches!(ff.apply(patch(4, 6, b"ZZ")), ApplyOutcome::Conflict));
    assert_eq!(ff.finish(), b"abXXXfghij".to_vec());
}

#[test]
fn out_of_range_span_is_refused() {
    let mut ff = FileFix::new(b"short".to_vec());
    assert!(matches!(ff.apply(patch(3, 99, b"x")), ApplyOutcome::Conflict));
    assert!(matches!(ff.apply(patch(4, 3, b"x")), ApplyOutcome::Conflict));
    assert_eq!(ff.finish(), b"short".to_vec());
}

#[test]
fn reverse_order_keeps_disjoint_spans() {
    // Two non-overlapping edits at [0,5) and [10,15): applied in reverse
    // discovery order both land at their original offsets.
    let code = b"aaaaabbbbbcccccddddd".to_vec();
    let edits = vec![
        edit(vec![patch(0, 5, b"AAAAA")], None),
        edit(vec![patch(10, 15, b"CCCCC")], None),
    ];
    let report = apply_file_edits(b"f".to_vec(), &code, &edits);
    assert_eq!(report.new_code, Some(b"AAAAAbbbbbCCCCCddddd".to_vec()));
    assert_eq!(report.fixes, 2);

    // The same two edits in the other discovery order give the same text:
    // the spans are disjoint, so no offset shifts either way.
    let edits_rev = vec![
        edit(vec![patch(10, 15, b"CCCCC")], None),
        edit(vec![patch(0, 5, b"AAAAA")], None),
    ];
    let report_rev = apply_file_edits(b"f".to_vec(), &code, &edits_rev);
    assert_eq!(report_rev.new_code, Some(b"AAAAAbbbbbCCCCCddddd".to_vec()));
}

#[test]
fn growing_edit_would_corrupt_forward_order() {
    // An edit that grows the text: applying the later span first keeps the
    // earlier span's offsets valid.
    let code = b"ab".to_vec();
    let edits = vec![
        edit(vec![patch(0, 1, b"AAAA")], None),
        edit(vec![patch(1, 2, b"B")], None),
    ];
    let report = apply_file_edits(b"f".to_vec(), &code, &edits);
    assert_eq!(report.new_code, Some(b"AAAAB".to_vec()));
    assert_eq!(report.fixes, 2);
}

#[test]
fn conflicting_edit_keeps_rendered_text_as_error() {
    let code = b"0123456789".to_vec();
    let edits = vec![
        edit(vec![patch(2, 6, b"four")], Some(b"first message")),
        edit(vec![patch(4, 8, b"other")], Some(b"second message")),
    ];
    let report = apply_file_edits(b"f".to_vec(), &code, &edits);
    // Reverse order: the later edit applies first; the earlier collides.
    assert_eq!(report.fixes, 1);
    assert_eq!(report.errors, vec![b"first message".to_vec()]);
    assert_eq!(report.new_code, Some(b"0123other89".to_vec()));
}

#[test]
fn no_fresh_edit_means_no_write() {
    let code = b"abc".to_vec();
    let edits: Vec<PendingEdit> = Vec::new();
    let report = apply_file_edits(b"f".to_vec(), &code, &edits);
    assert_eq!(report.new_code, None);
    assert_eq!(report.fixes, 0);
}

#[test]
fn failed_edit_leaves_no_half() {
    // An edit whose first replacement applies but whose second is out of
    // range is undone entirely: the file is not rewritten.
    let code = b"0123456789".to_vec();
    let edits = vec![edit(vec![patch(0, 2, b"xx"), patch(5, 99, b"y")], Some(b"broken edit"))];
    let report = apply_file_edits(b"f".to_vec(), &code, &edits);
    assert_eq!(report.new_code, None);
    assert_eq!(report.fixes, 0);
    assert_eq!(report.errors, vec![b"broken edit".to_vec()]);
}

#[test]
fn reapplied_multi_replacement_edit_is_undone_whole() {
    // The second copy of a two-replacement edit stops at its first,
    // already-recorded replacement and leaves nothing of itself behind.
    let code = b"0123456789".to_vec();
    let e = edit(vec![patch(0, 2, b"xx"), patch(5, 6, b"Y")], None);
    let twice = vec![
        edit(vec![patch(0, 2, b"xx"), patch(5, 6, b"Y")], None),
        e,
    ];
    let report = apply_file_edits(b"f".to_vec(), &code, &twice);
    assert_eq!(report.new_code, Some(b"xx234Y6789".to_vec()));
    assert_eq!(report.fixes, 1);
    assert!(report.errors.is_empty());
}

#[test]
fn insertion_at_start_of_replacement_is_accepted() {
    // A pure insertion may sit at the start offset of a wider patch; it
    // lands ahead of that patch's replacement text.
    let mut ff = FileFix::new(b"0123456789".to_vec());
    assert!(matches!(ff.apply(patch(5, 7, b"RR")), ApplyOutcome::Applied));
    assert!(matches!(ff.apply(patch(5, 5, b"II")), ApplyOutcome::Applied));
    assert_eq!(ff.finish(), b"01234IIRR789".to_vec());

    // The same pair in the other order of arrival gives the same text.
    let mut ff2 = FileFix::new(b"0123456789".to_vec());
    assert!(matches!(ff2.apply(patch(5, 5, b"II")), ApplyOutcome::Applied));
    assert!(matches!(ff2.apply(patch(5, 7, b"RR")), ApplyOutcome::Applied));
    assert_eq!(ff2.finish(), b"01234IIRR789".to_vec());
}

#[test]
fn same_span_different_text_is_refused() {
    let mut ff = FileFix::new(b"0123456789".to_vec());
    assert!(matches!(ff.apply(patch(5, 5, b"II")), ApplyOutcome::Applied));
    assert!(matches!(ff.apply(patch(5, 5, b"JJ")), ApplyOutcome::Conflict));
    assert_eq!(ff.finish(), b"01234II56789".to_vec());
}
